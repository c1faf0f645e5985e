//! The decisions of the ray/sphere intersection.

use crate::scalar::Scalar;
use vstd::prelude::*;

verus! {

/// Whether a time lies within the bounds, ends included.
pub open spec fn in_range(time: Scalar, t_min: Scalar, t_max: Scalar) -> bool {
    t_min.spec_le(time) && time.spec_le(t_max)
}

/// Whether the line of the ray passes the sphere by: the discriminant of the
/// quadratic is below zero.
pub fn misses(discriminant: Scalar) -> (r: bool)
    ensures
        r == discriminant.spec_lt(Scalar { bits: 0 }),
{
    discriminant.lt(Scalar::zero())
}

/// The root at which the ray hits the sphere: the nearer root where it lies
/// within the bounds, else the farther root where that does, else none.
pub fn nearest_root(near: Scalar, far: Scalar, t_min: Scalar, t_max: Scalar) -> (root: Option<
    Scalar,
>)
    ensures
        root == if in_range(near, t_min, t_max) {
            Some(near)
        } else if in_range(far, t_min, t_max) {
            Some(far)
        } else {
            None::<Scalar>
        },
{
    if t_min.le(near) && near.le(t_max) {
        Some(near)
    } else if t_min.le(far) && far.le(t_max) {
        Some(far)
    } else {
        None
    }
}

} // verus!
