//! The decision of the diffuse bounce.

use crate::vec3::Vec3;
use vstd::prelude::*;

verus! {

/// The direction of a diffuse bounce: the candidate, which is the normal plus
/// a random point of the unit ball, unless it is near zero; then the normal.
pub fn diffuse_direction(candidate: Vec3, normal: Vec3) -> (direction: Vec3)
    ensures
        direction == if Vec3::tiny(candidate.x) && Vec3::tiny(candidate.y) && Vec3::tiny(
            candidate.z,
        ) {
            normal
        } else {
            candidate
        },
{
    if candidate.near_zero() {
        normal
    } else {
        candidate
    }
}

} // verus!
