use raytracer::bounding_boxes::{BoundingBox, BoundingVolumeHierarchy, BuildError, SlabTimes};
use raytracer::fast_random::SplitMix64;
use raytracer::hittable::hittable_list::HittableList;
use raytracer::hittable::sphere::{misses, nearest_root};
use raytracer::hittable::{Hit, HitRecord, Hittable};
use raytracer::materials::lambertian::diffuse_direction;
use raytracer::materials::metal::reflect_or_absorb;
use raytracer::materials::{Material, ScatterResult};
use raytracer::ray::{Ray, ScatteredRay};
use raytracer::scalar::Scalar;
use raytracer::vec3::color::Color;
use raytracer::vec3::Vec3;

type V = [f64; 3];

fn s(x: f64) -> Scalar {
    Scalar::from_bits(x.to_bits())
}

fn f(x: Scalar) -> f64 {
    f64::from_bits(x.to_bits())
}

fn v(a: V) -> Vec3 {
    Vec3::new(s(a[0]), s(a[1]), s(a[2]))
}

fn a(x: Vec3) -> V {
    [f(x.x), f(x.y), f(x.z)]
}

fn colour(c: V) -> Color {
    Color::new(s(c[0]), s(c[1]), s(c[2]))
}

fn channels(c: Color) -> V {
    [f(c.r), f(c.g), f(c.b)]
}

fn add(p: V, q: V) -> V {
    [p[0] + q[0], p[1] + q[1], p[2] + q[2]]
}

fn sub(p: V, q: V) -> V {
    [p[0] - q[0], p[1] - q[1], p[2] - q[2]]
}

fn scale(p: V, k: f64) -> V {
    [p[0] * k, p[1] * k, p[2] * k]
}

fn dot(p: V, q: V) -> f64 {
    p[0] * q[0] + p[1] * q[1] + p[2] * q[2]
}

fn unit(rng: &mut SplitMix64) -> f64 {
    (rng.next_u64() >> 11) as f64 / (1u64 << 53) as f64
}

fn in_unit_ball(rng: &mut SplitMix64) -> V {
    loop {
        let p = [2.0 * unit(rng) - 1.0, 2.0 * unit(rng) - 1.0, 2.0 * unit(rng) - 1.0];
        if dot(p, p) < 1.0 {
            return p;
        }
    }
}

#[derive(Clone, Copy, Debug, PartialEq)]
enum Surface {
    Diffuse(V),
    Light(V, f64),
    Mirror(V),
}

impl Material for Surface {
    fn scatter_model(&self, _: Ray, _: HitRecord<Surface>, _: u64) -> (ScatterResult, u64) {
        unreachable!()
    }

    fn scatter(&self, ray: &Ray, hit: &HitRecord<Surface>, rng: &mut SplitMix64) -> ScatterResult {
        match *self {
            Surface::Diffuse(albedo) => {
                let candidate = add(a(hit.normal), in_unit_ball(rng));
                let direction = diffuse_direction(v(candidate), hit.normal);
                ScatterResult::Ray(ScatteredRay::new(Ray::new(hit.point, direction), colour(albedo)))
            }
            Surface::Light(c, intensity) => ScatterResult::Emissive(colour(scale(c, intensity))),
            Surface::Mirror(albedo) => {
                let d = a(ray.direction);
                let n = a(hit.normal);
                let mirrored = sub(d, scale(n, 2.0 * dot(d, n)));
                reflect_or_absorb(s(dot(mirrored, n)), hit.point, v(mirrored), colour(albedo))
            }
        }
    }
}

struct Ball {
    center: V,
    radius: f64,
    surface: Surface,
}

fn slabs(bounds: &BoundingBox, ray: &Ray) -> SlabTimes {
    let o = a(ray.origin);
    let d = a(ray.direction);
    let inv = [1.0 / d[0], 1.0 / d[1], 1.0 / d[2]];
    let lo = sub(a(bounds.minimum), o);
    let hi = sub(a(bounds.maximum), o);
    SlabTimes {
        inverse_direction: v(inv),
        at_minimum: v([lo[0] * inv[0], lo[1] * inv[1], lo[2] * inv[2]]),
        at_maximum: v([hi[0] * inv[0], hi[1] * inv[1], hi[2] * inv[2]]),
    }
}

impl Hittable for Ball {
    type Material = Surface;

    fn hit_model(&self, _: Ray, _: Scalar, _: Scalar, _: u64) -> (Hit<Surface>, u64) {
        unreachable!()
    }

    fn box_model(&self) -> BoundingBox {
        unreachable!()
    }

    fn slab_model(_: BoundingBox, _: Ray) -> SlabTimes {
        unreachable!()
    }

    fn hit(&self, ray: &Ray, t_min: Scalar, t_max: Scalar, _: &mut SplitMix64) -> Hit<Surface> {
        let o = a(ray.origin);
        let d = a(ray.direction);
        let oc = sub(o, self.center);
        let qa = dot(d, d);
        let half_b = dot(oc, d);
        let c = dot(oc, oc) - self.radius * self.radius;
        let delta = half_b * half_b - qa * c;
        if misses(s(delta)) {
            return None;
        }
        let root = delta.sqrt();
        let near = (-half_b - root) / qa;
        let far = (-half_b + root) / qa;
        let time = nearest_root(s(near), s(far), t_min, t_max)?;
        let point = add(o, scale(d, f(time)));
        let outward = scale(sub(point, self.center), 1.0 / self.radius);
        Some(HitRecord::new(v(point), v(outward), time, s(dot(d, outward)), self.surface))
    }

    fn bounding_box(&self) -> BoundingBox {
        let r = [self.radius; 3];
        BoundingBox { minimum: v(sub(self.center, r)), maximum: v(add(self.center, r)) }
    }

    fn slab_times(bounds: &BoundingBox, ray: &Ray) -> SlabTimes {
        slabs(bounds, ray)
    }
}

fn scene(count: usize, seed: u64) -> HittableList<Ball> {
    let mut rng = SplitMix64::new(seed);
    let mut world = HittableList::new();
    for _ in 0..count {
        let center = [
            20.0 * unit(&mut rng) - 10.0,
            20.0 * unit(&mut rng) - 10.0,
            20.0 * unit(&mut rng) - 10.0,
        ];
        let radius = 0.1 + unit(&mut rng);
        world.push(Ball { center, radius, surface: Surface::Diffuse([0.5, 0.5, 0.5]) });
    }
    world
}

fn centers(world: &HittableList<Ball>) -> Vec<Vec3> {
    let mids: Vec<V> = world
        .objects
        .iter()
        .map(|ball| {
            let b = ball.bounding_box();
            scale(add(a(b.minimum), a(b.maximum)), 0.5)
        })
        .collect();
    let mut min = f64::INFINITY;
    let mut max = f64::NEG_INFINITY;
    for m in &mids {
        let lo = m[0].min(m[1]).min(m[2]);
        let hi = m[0].max(m[1]).max(m[2]);
        if lo < min {
            min = lo - 1e-10;
        }
        if hi > max {
            max = hi + 1e-10;
        }
    }
    mids.iter().map(|m| v(scale(sub(*m, [min; 3]), 1.0 / (max - min)))).collect()
}

#[test]
fn building_on_an_empty_scene_fails() {
    let world: HittableList<Ball> = HittableList::new();
    let built = BoundingVolumeHierarchy::build(&world, &Vec::new());
    assert!(matches!(built, Err(BuildError::EmptyScene)));
    let built = BoundingVolumeHierarchy::build(&world, &vec![v([0.0; 3])]);
    assert!(matches!(built, Err(BuildError::EmptyScene)));
}

#[test]
fn building_without_a_centre_for_each_object_fails() {
    let world = scene(3, 1);
    let mut points = centers(&world);
    points.pop();
    let built = BoundingVolumeHierarchy::build(&world, &points);
    assert!(matches!(built, Err(BuildError::CentersMismatch)));
}

#[test]
fn the_hierarchy_has_a_leaf_for_each_object() {
    for count in [1usize, 2, 3, 4, 5, 17, 64, 200] {
        let world = scene(count, count as u64);
        let tree = BoundingVolumeHierarchy::build(&world, &centers(&world)).unwrap();
        let (depth, leaves) = tree.depth_and_num_nodes();
        assert_eq!(leaves, count);
        assert!(depth >= 1 && depth <= count);
        if count > 1 {
            assert!(depth >= 2);
        }
        assert!((1usize << (depth - 1)) >= count);
    }
}

#[test]
fn one_object_is_a_leaf_and_two_are_a_node() {
    let world = scene(1, 9);
    let tree = BoundingVolumeHierarchy::build(&world, &centers(&world)).unwrap();
    assert_eq!(tree.depth_and_num_nodes(), (1, 1));
    let world = scene(2, 9);
    let tree = BoundingVolumeHierarchy::build(&world, &centers(&world)).unwrap();
    assert_eq!(tree.depth_and_num_nodes(), (2, 2));
    assert_eq!(tree.degenerate_splits(), 0);
    assert_eq!(tree.outline().len(), 3);
}

#[test]
fn the_root_box_is_the_union_of_all_boxes() {
    for count in [1usize, 2, 3, 10, 100] {
        let world = scene(count, 77 + count as u64);
        let tree = BoundingVolumeHierarchy::build(&world, &centers(&world)).unwrap();
        let mut lo = [f64::INFINITY; 3];
        let mut hi = [f64::NEG_INFINITY; 3];
        for ball in &world.objects {
            for axis in 0..3 {
                lo[axis] = lo[axis].min(ball.center[axis] - ball.radius);
                hi[axis] = hi[axis].max(ball.center[axis] + ball.radius);
            }
        }
        let root = tree.bounding_box();
        assert_eq!(a(root.minimum), lo);
        assert_eq!(a(root.maximum), hi);
        let flat = world.bounding_box();
        assert_eq!(a(flat.minimum), lo);
        assert_eq!(a(flat.maximum), hi);
    }
}

#[test]
fn the_box_of_an_empty_list_holds_nothing() {
    let world: HittableList<Ball> = HittableList::new();
    let b = world.bounding_box();
    assert_eq!(a(b.minimum), [f64::INFINITY; 3]);
    assert_eq!(a(b.maximum), [f64::NEG_INFINITY; 3]);
    let ball = Ball { center: [1.0, 2.0, 3.0], radius: 1.0, surface: Surface::Mirror([1.0; 3]) };
    let joined = b.join(&ball.bounding_box());
    assert_eq!(a(joined.minimum), [0.0, 1.0, 2.0]);
    assert_eq!(a(joined.maximum), [2.0, 3.0, 4.0]);
}

#[test]
fn the_hierarchy_finds_what_the_list_finds() {
    let world = scene(150, 4242);
    let tree = BoundingVolumeHierarchy::build(&world, &centers(&world)).unwrap();
    let mut rng = SplitMix64::new(5);
    let mut hits = 0;
    for _ in 0..2000 {
        let origin = [
            30.0 * unit(&mut rng) - 15.0,
            30.0 * unit(&mut rng) - 15.0,
            30.0 * unit(&mut rng) - 15.0,
        ];
        let direction = in_unit_ball(&mut rng);
        let ray = Ray::new(v(origin), v(direction));
        let t_max = if unit(&mut rng) < 0.5 { f64::INFINITY } else { 40.0 * unit(&mut rng) };
        let in_tree = tree.hit(&ray, s(0.001), s(t_max), &mut rng);
        let in_list = world.hit(&ray, s(0.001), s(t_max), &mut rng);
        match (in_tree, in_list) {
            (None, None) => {}
            (Some(p), Some(q)) => {
                hits += 1;
                assert_eq!(f(p.time), f(q.time));
                assert_eq!(a(p.point), a(q.point));
                assert!(f(p.time) >= 0.001 && f(p.time) <= t_max);
            }
            (p, q) => panic!("{:?} in the hierarchy, {:?} in the list", p.is_some(), q.is_some()),
        }
    }
    assert!(hits > 100);
}

#[test]
fn a_sphere_is_hit_at_the_nearer_of_two_symmetric_roots() {
    let ball = Ball { center: [0.0; 3], radius: 1.0, surface: Surface::Mirror([1.0; 3]) };
    let ray = Ray::new(v([0.0, 0.0, 3.0]), v([0.0, 0.0, -1.0]));
    let mut rng = SplitMix64::new_unseeded();
    let hit = ball.hit(&ray, s(0.001), s(f64::INFINITY), &mut rng).unwrap();
    assert_eq!(f(hit.time), 2.0);
    assert_eq!(a(hit.point), [0.0, 0.0, 1.0]);
    assert_eq!(a(hit.normal), [0.0, 0.0, 1.0]);
    assert!(hit.front_face);
    let behind = ball.hit(&ray, s(2.5), s(f64::INFINITY), &mut rng).unwrap();
    assert_eq!(f(behind.time), 4.0);
    assert_eq!(a(behind.point), [0.0, 0.0, -1.0]);
    assert_eq!(a(behind.normal), [0.0, 0.0, 1.0]);
    assert!(!behind.front_face);
    assert!(ball.hit(&ray, s(0.001), s(1.5), &mut rng).is_none());
    assert!(ball.hit(&ray, s(4.5), s(f64::INFINITY), &mut rng).is_none());
    assert!(ball.hit(&ray, s(2.0), s(2.0), &mut rng).is_some());
}

#[test]
fn a_sphere_beside_the_ray_is_missed() {
    let ball = Ball { center: [5.0, 0.0, 0.0], radius: 1.0, surface: Surface::Mirror([1.0; 3]) };
    let ray = Ray::new(v([0.0, 0.0, 3.0]), v([0.0, 0.0, -1.0]));
    let mut rng = SplitMix64::new_unseeded();
    assert!(ball.hit(&ray, s(0.001), s(f64::INFINITY), &mut rng).is_none());
    assert!(misses(s(-1e-300)));
    assert!(!misses(s(0.0)));
    assert!(!misses(s(-0.0)));
    assert!(!misses(s(f64::NAN)));
}

struct Nothing;

impl Hittable for Nothing {
    type Material = Surface;

    fn hit_model(&self, _: Ray, _: Scalar, _: Scalar, _: u64) -> (Hit<Surface>, u64) {
        unreachable!()
    }

    fn box_model(&self) -> BoundingBox {
        unreachable!()
    }

    fn slab_model(_: BoundingBox, _: Ray) -> SlabTimes {
        unreachable!()
    }

    fn hit(&self, _: &Ray, _: Scalar, _: Scalar, _: &mut SplitMix64) -> Hit<Surface> {
        None
    }

    fn bounding_box(&self) -> BoundingBox {
        BoundingBox { minimum: v([0.0; 3]), maximum: v([0.0; 3]) }
    }

    fn slab_times(bounds: &BoundingBox, ray: &Ray) -> SlabTimes {
        slabs(bounds, ray)
    }
}

/// A stage on which a ray from the origin meets the first surface, and the
/// ray that leaves it meets the second, and so on.
struct Stage {
    surfaces: Vec<Surface>,
}

impl Hittable for Stage {
    type Material = Surface;

    fn hit_model(&self, _: Ray, _: Scalar, _: Scalar, _: u64) -> (Hit<Surface>, u64) {
        unreachable!()
    }

    fn box_model(&self) -> BoundingBox {
        unreachable!()
    }

    fn slab_model(_: BoundingBox, _: Ray) -> SlabTimes {
        unreachable!()
    }

    fn hit(&self, ray: &Ray, t_min: Scalar, t_max: Scalar, _: &mut SplitMix64) -> Hit<Surface> {
        assert_eq!(f(t_min), 0.001);
        assert_eq!(f(t_max), f64::INFINITY);
        let step = f(ray.origin.x) as usize;
        let surface = *self.surfaces.get(step)?;
        let point = v([step as f64 + 1.0, 0.0, 0.0]);
        Some(HitRecord::new(point, v([-1.0, 0.0, 0.0]), s(1.0), s(-1.0), surface))
    }

    fn bounding_box(&self) -> BoundingBox {
        BoundingBox { minimum: v([0.0; 3]), maximum: v([self.surfaces.len() as f64; 3]) }
    }

    fn slab_times(bounds: &BoundingBox, ray: &Ray) -> SlabTimes {
        slabs(bounds, ray)
    }
}

fn product(path: &raytracer::ray::PathColour) -> V {
    let mut attenuation = [1.0; 3];
    for factor in &path.attenuations {
        let c = channels(*factor);
        attenuation = [attenuation[0] * c[0], attenuation[1] * c[1], attenuation[2] * c[2]];
    }
    let light = channels(path.light);
    [attenuation[0] * light[0], attenuation[1] * light[1], attenuation[2] * light[2]]
}

fn start() -> Ray {
    Ray::new(v([0.0; 3]), v([1.0, 0.0, 0.0]))
}

#[test]
fn a_ray_that_hits_nothing_returns_the_background() {
    let background = colour([0.2, 0.3, 0.4]);
    let mut rng = SplitMix64::new(3);
    let path = start().colour(&Nothing, &mut rng, 50, background);
    assert!(path.attenuations.is_empty());
    assert_eq!(channels(path.light), [0.2, 0.3, 0.4]);
    assert_eq!(product(&path), [0.2, 0.3, 0.4]);
    let mut fresh = SplitMix64::new(3);
    assert_eq!(rng.next_u64(), fresh.next_u64());
}

#[test]
fn a_light_after_one_diffuse_bounce_is_tinted_once() {
    let stage =
        Stage { surfaces: vec![Surface::Diffuse([0.5, 0.25, 0.125]), Surface::Light([1.0, 0.5, 0.25], 4.0)] };
    let mut rng = SplitMix64::new(3);
    let path = start().colour(&stage, &mut rng, 50, colour([0.2, 0.3, 0.4]));
    assert_eq!(path.attenuations.len(), 1);
    assert_eq!(channels(path.attenuations[0]), [0.5, 0.25, 0.125]);
    assert_eq!(channels(path.light), [4.0, 2.0, 1.0]);
    assert_eq!(product(&path), [0.5 * 1.0 * 4.0, 0.25 * 0.5 * 4.0, 0.125 * 0.25 * 4.0]);
}

#[test]
fn a_light_seen_directly_is_not_tinted() {
    let stage = Stage { surfaces: vec![Surface::Light([1.0, 0.5, 0.25], 2.0)] };
    let mut rng = SplitMix64::new(3);
    let path = start().colour(&stage, &mut rng, 50, colour([0.2, 0.3, 0.4]));
    assert!(path.attenuations.is_empty());
    assert_eq!(product(&path), [2.0, 1.0, 0.5]);
}

#[test]
fn a_path_out_of_bounces_ends_on_the_tinted_background() {
    let stage = Stage { surfaces: vec![Surface::Diffuse([0.5, 0.5, 0.5]); 10] };
    let background = colour([1.0, 0.5, 0.25]);
    for max_depth in 0..=10u32 {
        let mut rng = SplitMix64::new(3);
        let path = start().colour(&stage, &mut rng, max_depth, background);
        assert_eq!(path.attenuations.len(), max_depth as usize);
        assert_eq!(channels(path.light), [1.0, 0.5, 0.25]);
        let k = 0.5f64.powi(max_depth as i32);
        assert_eq!(product(&path), [k, 0.5 * k, 0.25 * k]);
    }
    let mut rng = SplitMix64::new(3);
    let path = start().colour(&stage, &mut rng, 50, background);
    assert_eq!(path.attenuations.len(), 10);
    assert_eq!(channels(path.light), [1.0, 0.5, 0.25]);
}

/// A stage on which every surface is met from behind: first a diffuse one,
/// then mirrors, whose mirrored direction points into the surface.
struct Backwards;

impl Hittable for Backwards {
    type Material = Surface;

    fn hit_model(&self, _: Ray, _: Scalar, _: Scalar, _: u64) -> (Hit<Surface>, u64) {
        unreachable!()
    }

    fn box_model(&self) -> BoundingBox {
        unreachable!()
    }

    fn slab_model(_: BoundingBox, _: Ray) -> SlabTimes {
        unreachable!()
    }

    fn hit(&self, ray: &Ray, _: Scalar, _: Scalar, _: &mut SplitMix64) -> Hit<Surface> {
        let step = f(ray.origin.x);
        let surface =
            if step == 0.0 { Surface::Diffuse([0.5, 0.5, 0.5]) } else { Surface::Mirror([0.9; 3]) };
        Some(HitRecord {
            point: v([step + 1.0, 0.0, 0.0]),
            normal: ray.direction,
            time: s(1.0),
            front_face: true,
            material: surface,
        })
    }

    fn bounding_box(&self) -> BoundingBox {
        BoundingBox { minimum: v([0.0; 3]), maximum: v([1.0; 3]) }
    }

    fn slab_times(bounds: &BoundingBox, ray: &Ray) -> SlabTimes {
        slabs(bounds, ray)
    }
}

#[test]
fn an_absorbed_path_ends_on_the_tinted_background() {
    let mut rng = SplitMix64::new(11);
    let path = start().colour(&Backwards, &mut rng, 50, colour([0.2, 0.4, 0.8]));
    assert_eq!(path.attenuations.len(), 1);
    assert_eq!(product(&path), [0.1, 0.2, 0.4]);
}

fn render(world: &BoundingVolumeHierarchy<Ball>, seed: u64, order: &[u32]) -> Vec<u8> {
    let width = 8u32;
    let height = 6u32;
    let samples = 4u32;
    let mut picture = vec![0u8; (width * height * 3) as usize];
    for &index in order {
        let (i, j) = raytracer::sampler::pixel_of(index, width, height).unwrap();
        let mut rng = SplitMix64::for_task(seed, index as u64);
        let mut sum = [0.0; 3];
        for k in 0..samples {
            let u = (i as f64 + raytracer::sampler::hash_fast(i, j, k) as f64 / u32::MAX as f64)
                / (width - 1) as f64;
            let w = (j as f64 + raytracer::sampler::hash_fast(i, k, j) as f64 / u32::MAX as f64)
                / (height - 1) as f64;
            let ray = Ray::new(v([0.0, 0.0, 30.0]), v([20.0 * u - 10.0, 20.0 * w - 10.0, -30.0]));
            let path = ray.colour(world, &mut rng, 5, colour([0.7, 0.8, 1.0]));
            sum = add(sum, product(&path));
        }
        let scaled = scale(sum, 1.0 / samples as f64);
        let pixel = colour([
            scaled[0].sqrt() * 256.0,
            scaled[1].sqrt() * 256.0,
            scaled[2].sqrt() * 256.0,
        ]);
        let at = (index * 3) as usize;
        picture[at..at + 3].copy_from_slice(&pixel.as_bytes());
    }
    picture
}

#[test]
fn a_render_does_not_depend_on_the_order_of_its_tasks() {
    let world = scene(300, 8);
    let tree = BoundingVolumeHierarchy::build(&world, &centers(&world)).unwrap();
    let forward: Vec<u32> = (0..48).collect();
    let backward: Vec<u32> = (0..48).rev().collect();
    let shuffled: Vec<u32> = (0..48).map(|i| (i * 29 + 5) % 48).collect();
    let first = render(&tree, 2024, &forward);
    assert_eq!(first, render(&tree, 2024, &backward));
    assert_eq!(first, render(&tree, 2024, &shuffled));
    assert_ne!(first, render(&tree, 2025, &forward));
    assert!(first.iter().any(|b| *b != first[0]));
}

fn ball_at(x: f64) -> Ball {
    Ball { center: [x, 0.5, 0.5], radius: 0.015625, surface: Surface::Mirror([1.0; 3]) }
}

#[test]
fn the_leaves_ascend_by_key_whatever_the_order_of_the_scene() {
    let mut world = HittableList::new();
    for x in [0.875, 0.125, 0.75, 0.25] {
        world.push(ball_at(x));
    }
    let points: Vec<Vec3> = world.objects.iter().map(|ball| v(ball.center)).collect();
    let tree = BoundingVolumeHierarchy::build(&world, &points).unwrap();
    let nodes = tree.outline();
    let shape: Vec<bool> = nodes.iter().map(|node| node.1).collect();
    assert_eq!(shape, [false, false, true, true, false, true, true]);
    let spans: Vec<(f64, f64)> =
        nodes.iter().map(|node| (f(node.0.minimum.x), f(node.0.maximum.x))).collect();
    assert_eq!(
        spans,
        [
            (0.109375, 0.890625),
            (0.109375, 0.265625),
            (0.109375, 0.140625),
            (0.234375, 0.265625),
            (0.734375, 0.890625),
            (0.734375, 0.765625),
            (0.859375, 0.890625)
        ]
    );
    assert_eq!(tree.depth_and_num_nodes(), (3, 4));
    assert_eq!(tree.degenerate_splits(), 0);
}

#[test]
fn a_far_object_alone_at_the_end_makes_the_split_degenerate() {
    // Three objects close to each other and one far away: the boundary of the
    // keys is the last index, and the run is parted at its midpoint instead.
    let mut world = HittableList::new();
    for x in [0.03125, 0.0625, 0.09375, 0.875] {
        world.push(ball_at(x));
    }
    let points: Vec<Vec3> = world.objects.iter().map(|ball| v(ball.center)).collect();
    let tree = BoundingVolumeHierarchy::build(&world, &points).unwrap();
    let shape: Vec<bool> = tree.outline().iter().map(|node| node.1).collect();
    assert_eq!(shape, [false, false, true, true, false, true, true]);
    assert_eq!(tree.degenerate_splits(), 1);
    let mut rng = SplitMix64::new(1);
    let ray = Ray::new(v([0.875, 0.5, 5.0]), v([0.0, 0.0, -1.0]));
    let hit = tree.hit(&ray, s(0.001), s(f64::INFINITY), &mut rng).unwrap();
    assert_eq!(f(hit.time), 4.484375);
}
