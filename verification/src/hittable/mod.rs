//! What a ray can hit, and what it learns when it does.

pub mod hittable_list;
pub mod quad;
pub mod sphere;
pub mod triangle;
pub mod volumetric;

use crate::bounding_boxes::{BoundingBox, SlabTimes};
use crate::ray::Ray;
use crate::scalar::Scalar;
use crate::fast_random::SplitMix64;
use crate::vec3::{Point3, Vec3};
use vstd::prelude::*;

verus! {

/// Where and how a ray meets a surface.
///
/// The normal points against the incoming ray; `front_face` says whether the
/// ray came from the side that the surface's own normal points to.
#[derive(Clone, Copy, Debug)]
pub struct HitRecord<M> {
    pub point: Point3,
    pub normal: Vec3,
    pub time: Scalar,
    pub front_face: bool,
    pub material: M,
}

pub type Hit<M> = Option<HitRecord<M>>;

impl<M> HitRecord<M> {
    /// The record of a hit at `point` and `time` on a surface whose own normal
    /// there is `outward_normal`. `facing` is the dot product of the ray's
    /// direction with that normal: where it is below zero the ray meets the
    /// front face and the normal is kept, else the normal is turned round.
    pub fn new(point: Point3, outward_normal: Vec3, time: Scalar, facing: Scalar, material: M) -> (r:
        Self)
        ensures
            r.point == point,
            r.time == time,
            r.material == material,
            r.front_face == facing.spec_lt(Scalar { bits: 0 }),
            r.normal == if r.front_face {
                outward_normal
            } else {
                outward_normal.spec_neg()
            },
    {
        let front_face = facing.lt(Scalar::zero());
        let normal = if front_face {
            outward_normal
        } else {
            outward_normal.neg()
        };
        HitRecord { point, normal, time, front_face, material }
    }
}

/// An object in the way of rays.
///
/// The arithmetic of an object is its implementor's. Each method's result has
/// a name here, under which the contracts of this crate speak of it: an
/// implementor's method returns the same for the same arguments, and draws
/// randomness from the generator it is handed and from nowhere else. What is
/// proved of a hierarchy or a path holds of implementors who keep to that.
///
/// The names are never called. An implementor in verified code defines them
/// and proves the methods against them; an implementor in plain Rust gives
/// them a body that does not return.
pub trait Hittable {
    /// What a hit on the object refers to as its material.
    type Material;

    /// What [`Hittable::hit`] returns for a generator in state `rng`, and the
    /// state in which it leaves the generator.
    spec fn hit_model(&self, ray: Ray, t_min: Scalar, t_max: Scalar, rng: u64) -> (
        Hit<Self::Material>,
        u64,
    );

    /// What [`Hittable::bounding_box`] returns.
    spec fn box_model(&self) -> BoundingBox;

    /// What [`Hittable::slab_times`] returns.
    spec fn slab_model(bounds: BoundingBox, ray: Ray) -> SlabTimes;

    /// The nearest hit of `ray` on the object at a time from `t_min` to
    /// `t_max`, if there is one.
    fn hit(&self, ray: &Ray, t_min: Scalar, t_max: Scalar, rng: &mut SplitMix64) -> (r: Hit<
        Self::Material,
    >)
        ensures
            (r, final(rng)@) == self.hit_model(*ray, t_min, t_max, old(rng)@),
    ;

    /// A box that holds the object.
    fn bounding_box(&self) -> (r: BoundingBox)
        ensures
            r == self.box_model(),
    ;

    /// The times at which `ray` crosses the planes of `bounds`, axis by axis:
    /// the reciprocal of the ray's direction, and with it the times of the
    /// planes through the box's minimum and through its maximum.
    fn slab_times(bounds: &BoundingBox, ray: &Ray) -> (r: SlabTimes)
        ensures
            r == Self::slab_model(*bounds, *ray),
    ;
}

} // verus!
