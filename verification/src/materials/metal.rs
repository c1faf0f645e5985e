//! The decision of the reflection off metal.

use crate::materials::ScatterResult;
use crate::ray::{Ray, ScatteredRay};
use crate::scalar::Scalar;
use crate::vec3::color::Colour;
use crate::vec3::{Point3, Vec3};
use vstd::prelude::*;

verus! {

/// Whether a mirrored ray leaves the surface: the mirrored direction points
/// away from it (`facing`, its dot product with the normal, is above zero),
/// and the direction after its perturbation is not near zero.
pub open spec fn leaves_surface(facing: Scalar, direction: Vec3) -> bool {
    let zero = Scalar { bits: 0 };
    let near_zero = Vec3::tiny(direction.x) && Vec3::tiny(direction.y) && Vec3::tiny(direction.z);
    zero.spec_lt(facing) && !near_zero
}

/// The ray that goes on from `point` along `direction`, tinted by `albedo`.
pub open spec fn onward(point: Point3, direction: Vec3, albedo: Colour) -> ScatterResult {
    ScatterResult::Ray(ScatteredRay { ray: Ray { origin: point, direction }, attenuation: albedo })
}

/// What becomes of a ray on metal: it goes on along the perturbed mirrored
/// direction where that [leaves the surface](leaves_surface), and is absorbed
/// where it does not.
pub fn reflect_or_absorb(facing: Scalar, point: Point3, direction: Vec3, albedo: Colour) -> (r:
    ScatterResult)
    ensures
        leaves_surface(facing, direction) ==> r == onward(point, direction, albedo),
        !leaves_surface(facing, direction) ==> r == ScatterResult::Absorbed,
{
    if facing.gt(Scalar::zero()) && !direction.near_zero() {
        ScatterResult::Ray(ScatteredRay::new(Ray::new(point, direction), albedo))
    } else {
        ScatterResult::Absorbed
    }
}

} // verus!
