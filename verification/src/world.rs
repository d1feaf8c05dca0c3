//! The scene as a list of shapes and a light, and the casting of a ray at
//! every shape of it.
//!
//! What a shape is, and where a ray meets it, is the caller's matter: the
//! world asks a closure for the ray parameters at which the ray meets one
//! shape, and does the rest: it labels each answer with the shape's
//! position, puts the answers of all shapes in order, and picks the visible
//! one.
use vstd::prelude::*;
use vstd::seq_lib::to_multiset_len;
use crate::ray::Intersection;
use crate::ray::any_nearer;
use crate::ray::ascending;
use crate::ray::at_distance;
use crate::ray::hit;
use crate::ray::lemma_order_is_unique;
use crate::ray::nearer_than;
use crate::ray::sorted;
use crate::ray::visible;
use crate::scalar::Scalar;

verus! {

/// Shapes in a fixed order, and a light.
pub struct World<S, L> {
    pub objects: Vec<S>,
    pub light: L,
}

/// The answers `ts` for the shape at position `object`, as intersections.
pub open spec fn labelled(ts: Seq<Scalar>, object: int) -> Seq<Intersection> {
    Seq::new(ts.len(), |k: int| Intersection { t: ts[k], object: object as usize })
}

/// The intersections that the answers `found` stand for, where `found[i]`
/// holds the answers for the shape at position `i`: shape after shape, each
/// shape's answers in the order given.
pub open spec fn gathered(found: Seq<Vec<Scalar>>) -> Seq<Intersection>
    decreases found.len(),
{
    if found.len() == 0 {
        Seq::empty()
    } else {
        gathered(found.drop_last()) + labelled(found.last()@, found.len() - 1)
    }
}

/// Whether `found` holds, for each shape, something that `intersect` can
/// answer for it.
pub open spec fn answers<S, F: Fn(&S) -> Vec<Scalar>>(
    objects: Seq<S>,
    intersect: F,
    found: Seq<Vec<Scalar>>,
) -> bool {
    &&& found.len() == objects.len()
    &&& forall|i: int|
        0 <= i < objects.len() ==> call_ensures(intersect, (&objects[i],), #[trigger] found[i])
}

/// Whether `xs` holds the intersections `all` in ascending order of `t`:
/// the same intersections, each as often, and those with equal `t` in the
/// order that they have in `all`.
pub open spec fn in_order(all: Seq<Intersection>, xs: Seq<Intersection>) -> bool {
    &&& ascending(xs)
    &&& xs.to_multiset() == all.to_multiset()
    &&& forall|v: int| #[trigger] at_distance(xs, v) == at_distance(all, v)
}

/// Intersections can be put in order in one way only.
pub proof fn lemma_in_order_is_unique(
    all: Seq<Intersection>,
    xs: Seq<Intersection>,
    ys: Seq<Intersection>,
)
    requires
        in_order(all, xs),
        in_order(all, ys),
    ensures
        xs == ys,
{
    to_multiset_len(xs);
    to_multiset_len(ys);
    to_multiset_len(all);
    assert forall|v: int| #[trigger] at_distance(xs, v) == at_distance(ys, v) by {
        assert(at_distance(xs, v) == at_distance(all, v));
        assert(at_distance(ys, v) == at_distance(all, v));
    }
    lemma_order_is_unique(xs, ys);
}

/// Whether `xs` can come of casting at `objects`: it holds, in order, the
/// intersections that some answers of `intersect` stand for.
pub open spec fn cast<S, F: Fn(&S) -> Vec<Scalar>>(
    objects: Seq<S>,
    intersect: F,
    xs: Seq<Intersection>,
) -> bool {
    exists|found: Seq<Vec<Scalar>>|
        #[trigger] answers(objects, intersect, found) && in_order(gathered(found), xs)
}

/// Every gathered intersection names a shape that was asked.
pub proof fn lemma_gathered_objects(found: Seq<Vec<Scalar>>, k: int)
    requires
        0 <= k < gathered(found).len(),
        found.len() <= usize::MAX,
    ensures
        gathered(found)[k].object < found.len(),
    decreases found.len(),
{
    if found.len() > 0 {
        let front = gathered(found.drop_last());
        if k < front.len() {
            lemma_gathered_objects(found.drop_last(), k);
        }
    }
}

impl<S, L> World<S, L> {
    /// The world of the given shapes and light.
    pub fn new(objects: Vec<S>, light: L) -> (w: World<S, L>)
        ensures
            w.objects == objects,
            w.light == light,
    {
        World { objects, light }
    }

    /// The shapes, in the order in which intersections name them.
    pub fn objects(&self) -> (objects: &Vec<S>)
        ensures
            *objects == self.objects,
    {
        &self.objects
    }

    /// The light.
    pub fn light(&self) -> (light: &L)
        ensures
            *light == self.light,
    {
        &self.light
    }

    /// Casts a ray at every shape: asks `intersect` once for each shape, in
    /// order, and returns all intersections in ascending order of `t`, each
    /// naming its shape.
    pub fn intersect_world<F: Fn(&S) -> Vec<Scalar>>(&self, intersect: F) -> (xs: Vec<Intersection>)
        requires
            forall|i: int|
                0 <= i < self.objects@.len() ==> call_requires(intersect, (&self.objects@[i],)),
        ensures
            cast(self.objects@, intersect, xs@),
            forall|k: int| 0 <= k < xs@.len() ==> (#[trigger] xs@[k]).object < self.objects@.len(),
    {
        let mut all: Vec<Intersection> = Vec::new();
        let ghost mut found: Seq<Vec<Scalar>> = Seq::empty();
        let mut i: usize = 0;
        while i < self.objects.len()
            invariant
                i <= self.objects@.len(),
                forall|i: int|
                    0 <= i < self.objects@.len() ==> call_requires(
                        intersect,
                        (&self.objects@[i],),
                    ),
                answers(self.objects@.take(i as int), intersect, found),
                all@ == gathered(found),
            decreases self.objects@.len() - i,
        {
            let ts: Vec<Scalar> = intersect(&self.objects[i]);
            let ghost front = all@;
            let mut k: usize = 0;
            while k < ts.len()
                invariant
                    k <= ts@.len(),
                    all@ == front + labelled(ts@.take(k as int), i as int),
                decreases ts@.len() - k,
            {
                all.push(Intersection::new(ts[k], i));
                assert(all@ =~= front + labelled(ts@.take(k + 1), i as int));
                k += 1;
            }
            proof {
                assert(ts@.take(k as int) == ts@);
                let longer = found.push(ts);
                assert(longer.drop_last() == found);
                assert(answers(self.objects@.take(i + 1), intersect, longer));
                found = longer;
            }
            i += 1;
        }
        assert(self.objects@.take(i as int) == self.objects@);
        let xs = sorted(all);
        proof {
            assert(answers(self.objects@, intersect, found));
            assert forall|k: int| 0 <= k < xs@.len() implies (#[trigger] xs@[k]).object
                < self.objects@.len() by {
                vstd::seq_lib::to_multiset_contains(xs@, xs@[k]);
                vstd::seq_lib::to_multiset_contains(gathered(found), xs@[k]);
                assert(xs@.contains(xs@[k]));
                let j = choose|j: int| 0 <= j < gathered(found).len() && gathered(found)[j] == xs@[k];
                lemma_gathered_objects(found, j);
            }
        }
        xs
    }

    /// Tells whether a point lies in the shadow of some shape. `intersect`
    /// answers for the ray from the point toward the light, and `distance`
    /// is how far along that ray the light stands: the point is shadowed
    /// when the ray meets a shape in front of the point and before the light.
    pub fn is_shadowed<F: Fn(&S) -> Vec<Scalar>>(&self, distance: Scalar, intersect: F) -> (r: bool)
        requires
            forall|i: int|
                0 <= i < self.objects@.len() ==> call_requires(intersect, (&self.objects@[i],)),
        ensures
            exists|xs: Seq<Intersection>|
                #[trigger] cast(self.objects@, intersect, xs) && r == any_nearer(xs, distance),
    {
        let xs = self.intersect_world(intersect);
        let ghost seen = xs@;
        let r = nearer_than(xs, distance);
        assert(cast(self.objects@, intersect, seen) && r == any_nearer(seen, distance));
        r
    }

    /// The colour that a ray brings back: what `shade` makes of the visible
    /// intersection, or `background` where the ray meets nothing in front of
    /// its origin. `intersect` answers for the ray.
    pub fn color_at<C, F: Fn(&S) -> Vec<Scalar>, G: Fn(Intersection) -> C>(
        &self,
        intersect: F,
        shade: G,
        background: C,
    ) -> (c: C)
        requires
            forall|i: int|
                0 <= i < self.objects@.len() ==> call_requires(intersect, (&self.objects@[i],)),
            forall|x: Intersection|
                x.t.positive() && x.object < self.objects@.len() ==> call_requires(shade, (x,)),
        ensures
            exists|xs: Seq<Intersection>|
                #[trigger] cast(self.objects@, intersect, xs) && resolved(
                    visible(xs),
                    shade,
                    background,
                    c,
                ),
    {
        let xs = self.intersect_world(intersect);
        let ghost seen = xs@;
        let c = match hit(xs) {
            Some(x) => shade(x),
            None => background,
        };
        assert(cast(self.objects@, intersect, seen) && resolved(
            visible(seen),
            shade,
            background,
            c,
        ));
        c
    }
}

/// Whether `c` is the colour for what is visible: an answer of `shade` for
/// the visible intersection, or the background where nothing is visible.
pub open spec fn resolved<C, G: Fn(Intersection) -> C>(
    seen: Option<Intersection>,
    shade: G,
    background: C,
    c: C,
) -> bool {
    match seen {
        Some(x) => call_ensures(shade, (x,), c),
        None => c == background,
    }
}

} // verus!
