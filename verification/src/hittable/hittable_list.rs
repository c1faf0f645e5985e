//! A plain list of objects, searched one after another.

use crate::bounding_boxes::{BoundingBox, SlabTimes};
use crate::fast_random::SplitMix64;
use crate::hittable::{Hit, Hittable};
use crate::ray::Ray;
use crate::scalar::Scalar;
use crate::vec3::Vec3;
use vstd::prelude::*;

verus! {

/// The objects of a scene, in the order in which they were added.
pub struct HittableList<H> {
    pub objects: Vec<H>,
}

impl<H> View for HittableList<H> {
    type V = Seq<H>;

    open spec fn view(&self) -> Seq<H> {
        self.objects@
    }
}

/// The search of a list from its object number `from` on: each object is asked
/// for a hit no later than the nearest found so far, `closest`, and a hit
/// takes the place of `found`.
pub open spec fn scan<H: Hittable>(
    objects: Seq<H>,
    from: int,
    ray: Ray,
    t_min: Scalar,
    closest: Scalar,
    found: Hit<H::Material>,
    rng: u64,
) -> (Hit<H::Material>, u64)
    decreases objects.len() - from,
{
    if from < 0 || from >= objects.len() {
        (found, rng)
    } else {
        let (hit, next) = objects[from].hit_model(ray, t_min, closest, rng);
        match hit {
            Some(record) => scan(objects, from + 1, ray, t_min, record.time, hit, next),
            None => scan(objects, from + 1, ray, t_min, closest, found, next),
        }
    }
}

/// The union of the boxes of the objects from number `from` on with `so_far`.
pub open spec fn joined_boxes<H: Hittable>(
    objects: Seq<H>,
    from: int,
    so_far: BoundingBox,
) -> BoundingBox
    decreases objects.len() - from,
{
    if from < 0 || from >= objects.len() {
        so_far
    } else {
        joined_boxes(objects, from + 1, so_far.spec_join(objects[from].box_model()))
    }
}

/// The box that holds nothing: joined with any box of numbers, it gives that
/// box.
pub open spec fn empty_box() -> BoundingBox {
    BoundingBox {
        minimum: Vec3 {
            x: Scalar { bits: 0x7FF0_0000_0000_0000 },
            y: Scalar { bits: 0x7FF0_0000_0000_0000 },
            z: Scalar { bits: 0x7FF0_0000_0000_0000 },
        },
        maximum: Vec3 {
            x: Scalar { bits: 0xFFF0_0000_0000_0000 },
            y: Scalar { bits: 0xFFF0_0000_0000_0000 },
            z: Scalar { bits: 0xFFF0_0000_0000_0000 },
        },
    }
}

impl<H> HittableList<H> {
    /// The list without objects.
    pub fn new() -> (r: Self)
        ensures
            r@ == Seq::<H>::empty(),
    {
        HittableList { objects: Vec::new() }
    }

    /// Adds an object at the end.
    pub fn push(&mut self, object: H)
        ensures
            final(self)@ == old(self)@.push(object),
    {
        self.objects.push(object);
    }

    pub fn len(&self) -> (n: usize)
        ensures
            n == self@.len(),
    {
        self.objects.len()
    }
}

impl<H: Hittable> Hittable for HittableList<H> {
    type Material = H::Material;

    open spec fn hit_model(&self, ray: Ray, t_min: Scalar, t_max: Scalar, rng: u64) -> (
        Hit<H::Material>,
        u64,
    ) {
        scan(self@, 0, ray, t_min, t_max, None, rng)
    }

    open spec fn box_model(&self) -> BoundingBox {
        if self@.len() == 0 {
            empty_box()
        } else {
            joined_boxes(self@, 1, self@[0].box_model())
        }
    }

    open spec fn slab_model(bounds: BoundingBox, ray: Ray) -> SlabTimes {
        H::slab_model(bounds, ray)
    }

    /// Asks every object in turn, each for a hit no later than the nearest
    /// found so far, and returns the last hit found.
    fn hit(&self, ray: &Ray, t_min: Scalar, t_max: Scalar, rng: &mut SplitMix64) -> (r: Hit<
        H::Material,
    >) {
        let mut record: Hit<H::Material> = None;
        let mut closest = t_max;
        let mut i: usize = 0;
        while i < self.objects.len()
            invariant
                0 <= i <= self@.len(),
                scan(self@, i as int, *ray, t_min, closest, record, rng@) == scan(
                    self@,
                    0,
                    *ray,
                    t_min,
                    t_max,
                    None,
                    old(rng)@,
                ),
            decreases self@.len() - i,
        {
            let hit = self.objects[i].hit(ray, t_min, closest, rng);
            if let Some(r) = hit {
                closest = r.time;
                record = Some(r);
            }
            i += 1;
        }
        record
    }

    /// The union of the boxes of all objects; of an empty list, the box that
    /// holds nothing.
    fn bounding_box(&self) -> (r: BoundingBox) {
        if self.objects.len() == 0 {
            let above = Scalar::from_bits(0x7FF0_0000_0000_0000);
            let below = Scalar::from_bits(0xFFF0_0000_0000_0000);
            return BoundingBox { minimum: Vec3::splat(above), maximum: Vec3::splat(below) };
        }
        let mut joined = self.objects[0].bounding_box();
        let mut i: usize = 1;
        while i < self.objects.len()
            invariant
                1 <= i <= self@.len(),
                joined_boxes(self@, i as int, joined) == joined_boxes(self@, 1, self@[0].box_model()),
            decreases self@.len() - i,
        {
            joined = joined.join(&self.objects[i].bounding_box());
            i += 1;
        }
        joined
    }

    fn slab_times(bounds: &BoundingBox, ray: &Ray) -> (r: SlabTimes) {
        H::slab_times(bounds, ray)
    }
}

} // verus!
