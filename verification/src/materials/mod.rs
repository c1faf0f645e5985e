//! What a surface does to the light that meets it.

pub mod dielectric;
pub mod lambertian;
pub mod metal;
pub mod plastic;

use crate::fast_random::SplitMix64;
use crate::hittable::HitRecord;
use crate::ray::{Ray, ScatteredRay};
use crate::vec3::color::Colour;
use vstd::prelude::*;

verus! {

/// What becomes of a ray at a surface.
#[derive(Clone, Copy, Debug)]
pub enum ScatterResult {
    /// The path goes on along a new ray, tinted by its attenuation.
    Ray(ScatteredRay),
    /// The path ends at a light of this radiance.
    Emissive(Colour),
    /// The path ends in the surface.
    Absorbed,
}

/// A material.
///
/// The arithmetic of a material is its implementor's. The result of
/// [`Material::scatter`] has a name here, under which the contracts of this
/// crate speak of it: an implementor returns the same for the same arguments,
/// and draws randomness from the generator it is handed and from nowhere else.
///
/// The name is never called. An implementor in verified code defines it and
/// proves `scatter` against it; an implementor in plain Rust gives it a body
/// that does not return.
pub trait Material: Sized {
    /// What [`Material::scatter`] returns for a generator in state `rng`, and
    /// the state in which it leaves the generator.
    spec fn scatter_model(&self, ray: Ray, hit_record: HitRecord<Self>, rng: u64) -> (
        ScatterResult,
        u64,
    );

    /// What becomes of `ray` where it meets the material at `hit_record`.
    fn scatter(&self, ray: &Ray, hit_record: &HitRecord<Self>, rng: &mut SplitMix64) -> (r:
        ScatterResult)
        ensures
            (r, final(rng)@) == self.scatter_model(*ray, *hit_record, old(rng)@),
    ;
}

} // verus!
