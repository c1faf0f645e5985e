//! The core of a stochastic ray tracer: a Morton-ordered bounding-volume
//! hierarchy, the decisions of ray/geometry intersection and of material
//! scattering, the path-tracing loop, and the generator that feeds it.
//!
//! Real numbers are held as IEEE-754 binary64 bit patterns ([`scalar::Scalar`]).
//! The crate compares, selects, negates and truncates them; arithmetic on them
//! is the caller's, and reaches the crate through the [`hittable::Hittable`]
//! and [`materials::Material`] traits.
//!
//! The generator ([`fast_random::SplitMix64`]) is a `rand_core::RngCore`, so
//! that implementors of the two traits can draw from it with `rand`.

pub mod bounding_boxes;
pub mod fast_random;
pub mod hittable;
pub mod materials;
pub mod ray;
pub mod sampler;
pub mod scalar;
pub mod vec3;
pub mod world_loader;
