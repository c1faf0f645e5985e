//! Rays, and the path that a ray takes through a scene.

use crate::fast_random::SplitMix64;
use crate::hittable::Hittable;
use crate::materials::{Material, ScatterResult};
use crate::scalar::Scalar;
use crate::vec3::color::Colour;
use crate::vec3::{Point3, Vec3};
use vstd::prelude::*;

verus! {

/// The pattern of `0.001`, the earliest time at which a path looks for its
/// next hit: a surface is not hit again by the ray that leaves it.
pub const SHADOW_ACNE_BITS: u64 = 0x3F50_624D_D2F1_A9FC;

/// A half-line: the points `origin + t * direction`.
#[derive(Clone, Copy, Debug)]
pub struct Ray {
    pub origin: Point3,
    pub direction: Vec3,
}

impl Ray {
    pub fn new(origin: Point3, direction: Vec3) -> (r: Ray)
        ensures
            r == (Ray { origin, direction }),
    {
        Ray { origin, direction }
    }
}

/// The ray that leaves a surface, and the colour by which the surface tints
/// the light that comes back along it.
#[derive(Clone, Copy, Debug)]
pub struct ScatteredRay {
    pub ray: Ray,
    pub attenuation: Colour,
}

impl ScatteredRay {
    pub fn new(ray: Ray, attenuation: Colour) -> (r: ScatteredRay)
        ensures
            r == (ScatteredRay { ray, attenuation }),
    {
        ScatteredRay { ray, attenuation }
    }
}

/// The colour that a path brings back, in factors: the product of the
/// attenuations of its bounces, in their order, and of the light at its end.
#[derive(Debug)]
pub struct PathColour {
    /// The attenuation of each bounce, the first bounce first.
    pub attenuations: Vec<Colour>,
    /// The radiance of the light that ended the path, or the colour of the
    /// background where none did.
    pub light: Colour,
}

/// The path of a ray that may bounce `bounces` times more: its attenuations,
/// its light, and the state in which it leaves the generator.
///
/// A path out of bounces ends on the background. Else the ray looks for its
/// nearest hit from time 0.001 on. Without a hit the path ends on the
/// background. With one, the material there scatters the ray: the path goes on
/// along the new ray with the attenuation as one more factor, or ends at the
/// light with its radiance, or is absorbed and ends on the background.
pub open spec fn trace<H: Hittable>(
    world: H,
    ray: Ray,
    rng: u64,
    bounces: nat,
    background_color: Colour,
) -> (Seq<Colour>, Colour, u64) where H::Material: Material
    decreases bounces,
{
    if bounces == 0 {
        (Seq::empty(), background_color, rng)
    } else {
        let (hit, after_hit) = world.hit_model(
            ray,
            Scalar { bits: SHADOW_ACNE_BITS },
            Scalar { bits: crate::scalar::INFINITY_BITS },
            rng,
        );
        match hit {
            None => (Seq::empty(), background_color, after_hit),
            Some(hit_record) => {
                let (outcome, after_scatter) = hit_record.material.scatter_model(
                    ray,
                    hit_record,
                    after_hit,
                );
                match outcome {
                    ScatterResult::Ray(scattered) => {
                        let rest = trace(
                            world,
                            scattered.ray,
                            after_scatter,
                            (bounces - 1) as nat,
                            background_color,
                        );
                        (seq![scattered.attenuation] + rest.0, rest.1, rest.2)
                    },
                    ScatterResult::Emissive(radiance) => (Seq::empty(), radiance, after_scatter),
                    ScatterResult::Absorbed => (Seq::empty(), background_color, after_scatter),
                }
            },
        }
    }
}

impl Ray {
    /// The colour that the ray brings back from `world`, in factors, after at
    /// most `max_depth` bounces: see [`trace`].
    pub fn colour<H: Hittable>(
        self,
        world: &H,
        rng: &mut SplitMix64,
        max_depth: u32,
        background_color: Colour,
    ) -> (path: PathColour) where H::Material: Material
        ensures
            (path.attenuations@, path.light, final(rng)@) == trace(
                *world,
                self,
                old(rng)@,
                max_depth as nat,
                background_color,
            ),
            path.attenuations@.len() <= max_depth,
    {
        let mut ray = self;
        let mut attenuations: Vec<Colour> = Vec::new();
        let mut i: u32 = 0;
        while i < max_depth
            invariant
                0 <= i <= max_depth,
                attenuations@.len() == i,
                ({
                    let rest = trace(*world, ray, rng@, (max_depth - i) as nat, background_color);
                    trace(*world, self, old(rng)@, max_depth as nat, background_color) == (
                        attenuations@ + rest.0,
                        rest.1,
                        rest.2,
                    )
                }),
            decreases max_depth - i,
        {
            let ghost before = attenuations@;
            let ghost rest = trace(*world, ray, rng@, (max_depth - i) as nat, background_color);
            let hit = world.hit(
                &ray,
                Scalar::from_bits(SHADOW_ACNE_BITS),
                Scalar::infinity(),
                rng,
            );
            match hit {
                None => {
                    assert(attenuations@ + rest.0 =~= attenuations@);
                    return PathColour { attenuations, light: background_color };
                },
                Some(hit_record) => {
                    match hit_record.material.scatter(&ray, &hit_record, rng) {
                        ScatterResult::Ray(scattered) => {
                            attenuations.push(scattered.attenuation);
                            ray = scattered.ray;
                            proof {
                                let next = trace(
                                    *world,
                                    ray,
                                    rng@,
                                    (max_depth - i - 1) as nat,
                                    background_color,
                                );
                                assert(before + (seq![scattered.attenuation] + next.0)
                                    =~= attenuations@ + next.0);
                            }
                        },
                        ScatterResult::Emissive(radiance) => {
                            assert(attenuations@ + rest.0 =~= attenuations@);
                            return PathColour { attenuations, light: radiance };
                        },
                        ScatterResult::Absorbed => {
                            assert(attenuations@ + rest.0 =~= attenuations@);
                            return PathColour { attenuations, light: background_color };
                        },
                    }
                },
            }
            i += 1;
        }
        proof {
            let rest = trace(*world, ray, rng@, 0, background_color);
            assert(attenuations@ + rest.0 =~= attenuations@);
        }
        PathColour { attenuations, light: background_color }
    }
}

/// A ray that hits nothing brings back the colour of the background, without
/// any attenuation.
pub proof fn law_a_miss_is_the_background<H: Hittable>(
    world: H,
    ray: Ray,
    rng: u64,
    max_depth: nat,
    background_color: Colour,
) where H::Material: Material
    requires
        world.hit_model(
            ray,
            Scalar { bits: SHADOW_ACNE_BITS },
            Scalar { bits: crate::scalar::INFINITY_BITS },
            rng,
        ).0 is None,
    ensures
        trace(world, ray, rng, max_depth, background_color).0 == Seq::<Colour>::empty(),
        trace(world, ray, rng, max_depth, background_color).1 == background_color,
{
}

/// A path has at most as many attenuations as it may bounce.
pub proof fn law_bounces_are_bounded<H: Hittable>(
    world: H,
    ray: Ray,
    rng: u64,
    max_depth: nat,
    background_color: Colour,
) where H::Material: Material
    ensures
        trace(world, ray, rng, max_depth, background_color).0.len() <= max_depth,
    decreases max_depth,
{
    if max_depth > 0 {
        let (hit, after_hit) = world.hit_model(
            ray,
            Scalar { bits: SHADOW_ACNE_BITS },
            Scalar { bits: crate::scalar::INFINITY_BITS },
            rng,
        );
        if let Some(hit_record) = hit {
            let (outcome, after_scatter) = hit_record.material.scatter_model(
                ray,
                hit_record,
                after_hit,
            );
            if let ScatterResult::Ray(scattered) = outcome {
                law_bounces_are_bounded(
                    world,
                    scattered.ray,
                    after_scatter,
                    (max_depth - 1) as nat,
                    background_color,
                );
            }
        }
    }
}

} // verus!
