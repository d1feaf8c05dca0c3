//! Intersections along a ray, and the choice of the visible one.
use vstd::prelude::*;
use vstd::slice::slice_to_vec;
use vstd::seq_lib::to_multiset_build;
use vstd::seq_lib::to_multiset_contains;
use vstd::seq_lib::to_multiset_insert;
use crate::scalar::Scalar;
use crate::scalar::lemma_ordinal_orders_values;

verus! {

/// A point where a ray meets a shape: the ray parameter `t` of the point and
/// the position of the shape in the list of shapes that the ray was cast at.
#[derive(Clone, Copy, Debug, PartialEq, Eq, Structural)]
pub struct Intersection {
    pub t: Scalar,
    pub object: usize,
}

impl Intersection {
    /// The intersection at the ray parameter `t` with the shape at position
    /// `object`.
    pub fn new(t: Scalar, object: usize) -> (x: Intersection)
        ensures
            x.t == t,
            x.object == object,
    {
        Intersection { t, object }
    }

    /// The ray parameter.
    pub fn t(&self) -> (t: Scalar)
        ensures
            t == self.t,
    {
        self.t
    }

    /// The position of the shape that was met.
    pub fn object(&self) -> (object: usize)
        ensures
            object == self.object,
    {
        self.object
    }
}

/// The ray parameters at which a ray meets a sphere, from the quadratic that
/// decides it: none where the discriminant is a number below zero, else the
/// two roots `near` and `far`, which are equal where the ray touches the
/// sphere. The roots are not looked at.
pub fn intersect(discriminant: Scalar, near: Scalar, far: Scalar) -> (ts: Vec<Scalar>)
    ensures
        ts@ == if discriminant.below_zero() {
            Seq::<Scalar>::empty()
        } else {
            seq![near, far]
        },
{
    let mut ts: Vec<Scalar> = Vec::new();
    if !discriminant.is_below_zero() {
        ts.push(near);
        ts.push(far);
    }
    assert(ts@ =~= if discriminant.below_zero() {
        Seq::<Scalar>::empty()
    } else {
        seq![near, far]
    });
    ts
}

/// Whether `xs[k]` is the hit among `xs`: it lies in front of the ray's
/// origin, no intersection in front of the origin is nearer, and of several
/// nearest ones it is the first in the list.
pub open spec fn is_hit(xs: Seq<Intersection>, k: int) -> bool {
    &&& 0 <= k < xs.len()
    &&& xs[k].t.positive()
    &&& forall|j: int|
        0 <= j < xs.len() && (#[trigger] xs[j]).t.positive() ==> xs[k].t.scaled_value()
            <= xs[j].t.scaled_value()
    &&& forall|j: int|
        0 <= j < k && (#[trigger] xs[j]).t.positive() ==> xs[k].t.scaled_value()
            < xs[j].t.scaled_value()
}

/// Whether some intersection of `xs` lies in front of the ray's origin.
pub open spec fn any_in_front(xs: Seq<Intersection>) -> bool {
    exists|j: int| 0 <= j < xs.len() && (#[trigger] xs[j]).t.positive()
}

/// The hit among `xs`, if any intersection lies in front of the origin.
pub open spec fn visible(xs: Seq<Intersection>) -> Option<Intersection> {
    if any_in_front(xs) {
        Some(xs[choose|k: int| is_hit(xs, k)])
    } else {
        None
    }
}

/// Whether the intersections stand in the order of their `t`, nearest to
/// minus infinity first. A NaN stands where the formal value of its pattern
/// puts it: beyond the infinity of its sign.
pub open spec fn ascending(xs: Seq<Intersection>) -> bool {
    forall|i: int, j: int|
        0 <= i <= j < xs.len() ==> (#[trigger] xs[i]).t.scaled_value() <= (
        #[trigger] xs[j]).t.scaled_value()
}

/// The intersections of `xs` whose `t` has the formal value `v`, in the
/// order in which they stand in `xs`.
pub open spec fn at_distance(xs: Seq<Intersection>, v: int) -> Seq<Intersection> {
    xs.filter(|x: Intersection| x.t.scaled_value() == v)
}

/// Whether an intersection of `xs` lies in front of the origin and nearer
/// than `distance`.
pub open spec fn any_nearer(xs: Seq<Intersection>, distance: Scalar) -> bool {
    exists|j: int|
        0 <= j < xs.len() && (#[trigger] xs[j]).t.positive() && xs[j].t.less_than(distance)
}

/// At most one position of a list is its hit.
pub proof fn lemma_hit_is_unique(xs: Seq<Intersection>, k: int, m: int)
    requires
        is_hit(xs, k),
        is_hit(xs, m),
    ensures
        k == m,
{
}

/// In a list in ascending order the hit is the first intersection in front
/// of the origin: this is why a caster that puts its intersections in order
/// finds the visible one without looking further.
pub proof fn lemma_hit_of_ascending(xs: Seq<Intersection>, k: int)
    requires
        ascending(xs),
        0 <= k < xs.len(),
        xs[k].t.positive(),
        forall|j: int| 0 <= j < k ==> !(#[trigger] xs[j]).t.positive(),
    ensures
        is_hit(xs, k),
        visible(xs) == Some(xs[k]),
{
    assert forall|j: int| 0 <= j < xs.len() && (#[trigger] xs[j]).t.positive() implies xs[k].t.scaled_value()
        <= xs[j].t.scaled_value() by {
        if j < k {
            assert(!xs[j].t.positive());
        }
    }
    assert(is_hit(xs, k));
    let chosen = choose|m: int| is_hit(xs, m);
    lemma_hit_is_unique(xs, chosen, k);
}

/// How far away the hit lies does not depend on the order of the list: two
/// lists of the same intersections both have a hit or both have none, and
/// the two hits lie equally far along the ray.
pub proof fn lemma_hit_distance_ignores_order(xs: Seq<Intersection>, ys: Seq<Intersection>)
    requires
        xs.to_multiset() == ys.to_multiset(),
    ensures
        visible(xs) is Some <==> visible(ys) is Some,
        visible(xs) is Some ==> visible(xs)->0.t.scaled_value() == visible(ys)->0.t.scaled_value(),
{
    if any_in_front(xs) {
        lemma_in_front_survives_reordering(xs, ys);
    }
    if any_in_front(ys) {
        lemma_in_front_survives_reordering(ys, xs);
    }
    if any_in_front(xs) {
        let a = lemma_hit_exists(xs);
        let b = lemma_hit_exists(ys);
        lemma_hit_is_unique(xs, a, choose|k: int| is_hit(xs, k));
        lemma_hit_is_unique(ys, b, choose|k: int| is_hit(ys, k));
        lemma_same_elements(xs, ys, a);
        lemma_same_elements(ys, xs, b);
    }
}

/// A list with an intersection in front of the origin has a hit.
pub proof fn lemma_hit_exists(xs: Seq<Intersection>) -> (k: int)
    requires
        any_in_front(xs),
    ensures
        is_hit(xs, k),
    decreases xs.len(),
{
    let last = xs.len() - 1;
    let front = xs.drop_last();
    assert forall|j: int| 0 <= j < last implies front[j] == xs[j] by {}
    if any_in_front(front) {
        let b = lemma_hit_exists(front);
        if xs[last].t.positive() && xs[last].t.scaled_value() < front[b].t.scaled_value() {
            last
        } else {
            b
        }
    } else {
        let witness = choose|j: int| 0 <= j < xs.len() && (#[trigger] xs[j]).t.positive();
        if witness < last {
            assert(front[witness].t.positive());
        }
        last
    }
}

/// Each intersection of a list stands somewhere in every list of the same
/// intersections.
proof fn lemma_same_elements(xs: Seq<Intersection>, ys: Seq<Intersection>, k: int)
    requires
        xs.to_multiset() == ys.to_multiset(),
        0 <= k < xs.len(),
    ensures
        exists|j: int| 0 <= j < ys.len() && #[trigger] ys[j] == xs[k],
{
    to_multiset_contains(xs, xs[k]);
    to_multiset_contains(ys, xs[k]);
    assert(xs.contains(xs[k]));
}

/// An intersection in front of the origin stays in the list when the list
/// is put in another order.
proof fn lemma_in_front_survives_reordering(xs: Seq<Intersection>, ys: Seq<Intersection>)
    requires
        xs.to_multiset() == ys.to_multiset(),
        any_in_front(xs),
    ensures
        any_in_front(ys),
{
    let k = choose|k: int| 0 <= k < xs.len() && (#[trigger] xs[k]).t.positive();
    lemma_same_elements(xs, ys, k);
}

/// Gathers intersections into a list, in the order given.
pub fn intersections(inters: &[Intersection]) -> (xs: Vec<Intersection>)
    ensures
        xs@ == inters@,
{
    slice_to_vec(inters)
}

/// Selects the visible intersection: the one with the smallest `t` among
/// those whose `t` is a number greater than zero. Intersections at or behind
/// the origin, and those whose `t` is a NaN, are passed over. Of several
/// with the smallest `t` the first is returned.
pub fn hit(intersections: Vec<Intersection>) -> (h: Option<Intersection>)
    ensures
        h == visible(intersections@),
        h is Some <==> any_in_front(intersections@),
        h matches Some(x) ==> exists|k: int| is_hit(intersections@, k) && x == intersections@[k],
{
    let mut best: Option<usize> = None;
    let mut i: usize = 0;
    while i < intersections.len()
        invariant
            i <= intersections.len(),
            best matches Some(b) ==> b < i && is_hit(intersections@.take(i as int), b as int),
            best is None ==> forall|j: int| 0 <= j < i ==> !(#[trigger] intersections@[j]).t.positive(),
        decreases intersections.len() - i,
    {
        let current: Intersection = intersections[i];
        let ghost before = intersections@.take(i as int);
        let ghost after = intersections@.take(i + 1);
        assert(forall|j: int| 0 <= j < i ==> before[j] == after[j]);
        assert(after[i as int] == current);
        if current.t.is_positive() {
            match best {
                None => {
                    best = Some(i);
                },
                Some(b) => {
                    if current.t.lt(intersections[b].t) {
                        best = Some(i);
                    }
                },
            }
        }
        i += 1;
    }
    assert(intersections@.take(i as int) == intersections@);
    match best {
        None => None,
        Some(b) => {
            proof {
                let k = choose|k: int| is_hit(intersections@, k);
                lemma_hit_is_unique(intersections@, k, b as int);
            }
            Some(intersections[b])
        },
    }
}

/// Putting an intersection into a list, before intersections that all lie
/// at other distances than it, adds it at the end of those at its distance
/// and leaves those at every other distance as they were.
proof fn lemma_insert_keeps_order(before: Seq<Intersection>, at: int, x: Intersection, v: int)
    requires
        0 <= at <= before.len(),
        forall|j: int|
            at <= j < before.len() ==> (#[trigger] before[j]).t.scaled_value()
                != x.t.scaled_value(),
    ensures
        at_distance(before.insert(at, x), v) == if x.t.scaled_value() == v {
            at_distance(before, v).push(x)
        } else {
            at_distance(before, v)
        },
{
    let there = |y: Intersection| y.t.scaled_value() == v;
    let head = before.take(at);
    let tail = before.skip(at);
    let one = seq![x];
    assert(before =~= head + tail);
    assert(before.insert(at, x) =~= (head + one) + tail);
    Seq::filter_distributes_over_add(head, tail, there);
    Seq::filter_distributes_over_add(head + one, tail, there);
    Seq::filter_distributes_over_add(head, one, there);
    assert(one.filter(there) == if there(x) {
        one
    } else {
        Seq::<Intersection>::empty()
    }) by {
        reveal_with_fuel(Seq::filter, 2);
        assert(one.drop_last() =~= Seq::<Intersection>::empty());
        assert(Seq::<Intersection>::empty().push(x) =~= one);
    }
    if there(x) {
        assert(tail.all(|y: Intersection| !there(y)));
        tail.lemma_all_neg_filter_empty(there);
        assert(tail.filter(there) =~= Seq::<Intersection>::empty());
        assert(head.filter(there) + one + Seq::<Intersection>::empty() =~= (head.filter(there)
            + Seq::<Intersection>::empty()).push(x));
    } else {
        assert(head.filter(there) + Seq::<Intersection>::empty() + tail.filter(there)
            =~= head.filter(there) + tail.filter(there));
    }
}

/// An intersection added at the end of a list is added at the end of those
/// at its distance, and those at every other distance stay as they were.
proof fn lemma_push_keeps_order(before: Seq<Intersection>, x: Intersection, v: int)
    ensures
        at_distance(before.push(x), v) == if x.t.scaled_value() == v {
            at_distance(before, v).push(x)
        } else {
            at_distance(before, v)
        },
{
    reveal_with_fuel(Seq::filter, 2);
    assert(before.push(x).drop_last() =~= before);
}

/// Ascending order that keeps equal distances as they came leaves no choice:
/// two lists in ascending order that hold the same intersections at every
/// distance, in the same order, are the same list.
pub proof fn lemma_order_is_unique(a: Seq<Intersection>, b: Seq<Intersection>)
    requires
        ascending(a),
        ascending(b),
        a.len() == b.len(),
        forall|v: int| #[trigger] at_distance(a, v) == at_distance(b, v),
    ensures
        a == b,
    decreases a.len(),
{
    if a.len() == 0 {
        assert(a =~= b);
    } else {
        let x = a.last();
        let y = b.last();
        let v = x.t.scaled_value();
        let w = y.t.scaled_value();
        let front = a.drop_last();
        let back = b.drop_last();
        assert(a =~= front.push(x));
        assert(b =~= back.push(y));
        lemma_push_keeps_order(front, x, v);
        lemma_push_keeps_order(back, y, v);
        lemma_push_keeps_order(front, x, w);
        lemma_push_keeps_order(back, y, w);
        assert(v <= w) by {
            lemma_has_one_at_distance(b, v);
        }
        assert(w <= v) by {
            assert(at_distance(a, w) == at_distance(b, w));
            lemma_has_one_at_distance(a, w);
        }
        assert(at_distance(a, v).last() == x);
        assert(at_distance(b, v).last() == y);
        assert(at_distance(front, v) =~= at_distance(a, v).drop_last());
        assert(at_distance(back, v) =~= at_distance(b, v).drop_last());
        assert forall|u: int| #[trigger] at_distance(front, u) == at_distance(back, u) by {
            lemma_push_keeps_order(front, x, u);
            lemma_push_keeps_order(back, y, u);
            assert(at_distance(a, u) == at_distance(b, u));
        }
        assert(ascending(front)) by {
            assert forall|i: int, j: int| 0 <= i <= j < front.len() implies (#[trigger] front[i]).t.scaled_value()
                <= (#[trigger] front[j]).t.scaled_value() by {
                assert(front[i] == a[i] && front[j] == a[j]);
            }
        }
        assert(ascending(back)) by {
            assert forall|i: int, j: int| 0 <= i <= j < back.len() implies (#[trigger] back[i]).t.scaled_value()
                <= (#[trigger] back[j]).t.scaled_value() by {
                assert(back[i] == b[i] && back[j] == b[j]);
            }
        }
        lemma_order_is_unique(front, back);
    }
}

/// A list that holds something at the distance `v` holds, in ascending
/// order, nothing nearer at its end.
proof fn lemma_has_one_at_distance(xs: Seq<Intersection>, v: int)
    requires
        ascending(xs),
        at_distance(xs, v).len() > 0,
    ensures
        xs.len() > 0,
        v <= xs.last().t.scaled_value(),
{
    let there = |y: Intersection| y.t.scaled_value() == v;
    let first = at_distance(xs, v)[0];
    xs.lemma_filter_pred(there, 0);
    assert(at_distance(xs, v).contains(first));
    xs.lemma_filter_contains_rev(there, first);
    let j = choose|j: int| 0 <= j < xs.len() && xs[j] == first;
    assert(xs[j].t.scaled_value() <= xs[xs.len() - 1].t.scaled_value());
}

/// Puts intersections in ascending order of `t`. The result holds the same
/// intersections, each as often as it came, and those with equal `t` follow
/// each other in the order in which they came.
pub fn sorted(intersections: Vec<Intersection>) -> (xs: Vec<Intersection>)
    ensures
        ascending(xs@),
        xs@.to_multiset() == intersections@.to_multiset(),
        forall|v: int| #[trigger] at_distance(xs@, v) == at_distance(intersections@, v),
{
    let mut xs: Vec<Intersection> = Vec::new();
    let mut i: usize = 0;
    assert(xs@ == intersections@.take(0));
    while i < intersections.len()
        invariant
            i <= intersections.len(),
            xs@.len() == i,
            ascending(xs@),
            xs@.to_multiset() == intersections@.take(i as int).to_multiset(),
            forall|v: int|
                #[trigger] at_distance(xs@, v) == at_distance(intersections@.take(i as int), v),
        decreases intersections.len() - i,
    {
        let x: Intersection = intersections[i];
        let rank: i64 = x.t.rank();
        let mut at: usize = xs.len();
        while at > 0 && rank < xs[at - 1].t.rank()
            invariant
                at <= xs@.len(),
                rank == x.t.ordinal(),
                forall|j: int| at <= j < xs@.len() ==> rank < (#[trigger] xs@[j]).t.ordinal(),
            decreases at,
        {
            at -= 1;
        }
        let ghost before = xs@;
        xs.insert(at, x);
        proof {
            assert forall|a: int, b: int| 0 <= a <= b < xs@.len() implies (#[trigger] xs@[a]).t.scaled_value()
                <= (#[trigger] xs@[b]).t.scaled_value() by {
                lemma_ordinal_orders_values(xs@[a].t, xs@[b].t);
                lemma_ordinal_orders_values(xs@[b].t, xs@[a].t);
                if at > 0 {
                    lemma_ordinal_orders_values(before[at - 1].t, x.t);
                    lemma_ordinal_orders_values(x.t, before[at - 1].t);
                }
                if a < at && b > at {
                    assert(xs@[a] == before[a] && xs@[b] == before[b - 1]);
                } else if a < at && b < at {
                    assert(xs@[a] == before[a] && xs@[b] == before[b]);
                } else if a > at {
                    assert(xs@[a] == before[a - 1] && xs@[b] == before[b - 1]);
                } else if a == at && b > at {
                    assert(xs@[b] == before[b - 1]);
                } else if a < at && b == at {
                    assert(xs@[a] == before[a]);
                    assert(before[a].t.scaled_value() <= before[at - 1].t.scaled_value());
                }
            }
            to_multiset_insert(before, at as int, x);
            assert(intersections@.take(i + 1) == intersections@.take(i as int).push(x));
            to_multiset_build(intersections@.take(i as int), x);
            assert forall|j: int| at <= j < before.len() implies (#[trigger] before[j]).t.scaled_value()
                != x.t.scaled_value() by {
                lemma_ordinal_orders_values(x.t, before[j].t);
            }
            assert forall|v: int| #[trigger]
                at_distance(xs@, v) == at_distance(intersections@.take(i + 1), v) by {
                lemma_insert_keeps_order(before, at as int, x, v);
                lemma_push_keeps_order(intersections@.take(i as int), x, v);
            }
        }
        i += 1;
    }
    assert(intersections@.take(i as int) == intersections@);
    xs
}

/// Tells whether some intersection lies in front of the origin and nearer
/// than `distance`: whether something stands between the origin and a point
/// that far along the ray.
pub fn nearer_than(intersections: Vec<Intersection>, distance: Scalar) -> (r: bool)
    ensures
        r == any_nearer(intersections@, distance),
{
    let ghost xs = intersections@;
    match hit(intersections) {
        None => false,
        Some(h) => {
            let r: bool = h.t.lt(distance);
            proof {
                let k = choose|k: int| is_hit(xs, k) && h == xs[k];
                if any_nearer(xs, distance) {
                    let j = choose|j: int|
                        0 <= j < xs.len() && (#[trigger] xs[j]).t.positive() && xs[j].t.less_than(
                            distance,
                        );
                    assert(xs[k].t.scaled_value() <= xs[j].t.scaled_value());
                }
            }
            r
        },
    }
}

} // verus!
