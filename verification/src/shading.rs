//! Which terms of the reflection model light a point.
//!
//! The colour of a lit point is the sum of an ambient, a diffuse and a
//! specular term. The ambient term is always there. The other two depend on
//! where the light and the eye stand with respect to the surface, which two
//! cosines tell: that of the angle between the direction to the light and
//! the surface normal, and that of the angle between the reflected light and
//! the direction to the eye. The cosines are the caller's to compute; what
//! follows from them is decided here.
use vstd::prelude::*;
use crate::scalar::Scalar;

verus! {

/// The terms that are added to the ambient term.
#[derive(Clone, Copy, Debug, PartialEq, Eq, Structural)]
pub struct Terms {
    pub diffuse: bool,
    pub specular: bool,
}

/// Whether the diffuse term counts: the point is not in shadow, and the
/// light stands on the outer side of the surface, off its plane.
pub open spec fn diffuse_counts(in_shadow: bool, light_dot_normal: Scalar) -> bool {
    !in_shadow && light_dot_normal.positive()
}

/// Whether the specular term counts: the diffuse term does, and the
/// reflected light does not run level with or away from the eye.
pub open spec fn specular_counts(
    in_shadow: bool,
    light_dot_normal: Scalar,
    reflect_dot_eye: Scalar,
) -> bool {
    diffuse_counts(in_shadow, light_dot_normal) && !reflect_dot_eye.at_most_zero()
}

/// Decides which terms light a point. A point in shadow gets neither. A
/// cosine of exactly zero counts like a negative one.
pub fn lighting(in_shadow: bool, light_dot_normal: Scalar, reflect_dot_eye: Scalar) -> (terms:
    Terms)
    ensures
        terms.diffuse == diffuse_counts(in_shadow, light_dot_normal),
        terms.specular == specular_counts(in_shadow, light_dot_normal, reflect_dot_eye),
{
    let diffuse: bool = !in_shadow && light_dot_normal.is_positive();
    let specular: bool = diffuse && !reflect_dot_eye.is_at_most_zero();
    Terms { diffuse, specular }
}

} // verus!
