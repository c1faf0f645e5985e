use raytracer::bounding_boxes::morton_code::{interleave, morton_code, GRID_SIZE};
use raytracer::bounding_boxes::{choose_split, Split};
use raytracer::fast_random::SplitMix64;
use raytracer::scalar::Scalar;
use raytracer::vec3::Vec3;

fn s(x: f64) -> Scalar {
    Scalar::from_bits(x.to_bits())
}

fn point(p: [f64; 3]) -> Vec3 {
    Vec3::new(s(p[0]), s(p[1]), s(p[2]))
}

fn cell(x: f64) -> u128 {
    let scale = (1u128 << 42) as f64;
    (x * scale).clamp(0.0, scale - 1.0) as u128
}

fn reference(p: [f64; 3]) -> u128 {
    let (x, y, z) = (cell(p[0]), cell(p[1]), cell(p[2]));
    let mut key = 0u128;
    for bit in 0..42 {
        key |= ((x >> bit) & 1) << (3 * bit + 2);
        key |= ((y >> bit) & 1) << (3 * bit + 1);
        key |= ((z >> bit) & 1) << (3 * bit);
    }
    key
}

fn unit(rng: &mut SplitMix64) -> f64 {
    (rng.next_u64() >> 11) as f64 / (1u64 << 53) as f64
}

#[test]
fn the_key_of_a_point_is_the_key_of_its_cell() {
    assert_eq!(GRID_SIZE, 1 << 42);
    assert_eq!(morton_code(point([0.0, 0.0, 0.0])), 0);
    assert_eq!(morton_code(point([0.5, 0.0, 0.0])), 1 << 125);
    assert_eq!(morton_code(point([0.0, 0.5, 0.0])), 1 << 124);
    assert_eq!(morton_code(point([0.0, 0.0, 0.5])), 1 << 123);
    assert_eq!(morton_code(point([0.75, 0.25, 0.5])), 0b101_110_u128 << 120);
    let mut rng = SplitMix64::new(99);
    for _ in 0..2000 {
        let p = [unit(&mut rng), unit(&mut rng), unit(&mut rng)];
        assert_eq!(morton_code(point(p)), reference(p));
        let (x, y, z) = (cell(p[0]) as u64, cell(p[1]) as u64, cell(p[2]) as u64);
        assert_eq!(morton_code(point(p)), interleave(x, y, z));
    }
}

#[test]
fn a_point_outside_the_cube_is_kept_in_the_grid() {
    let top = (1u128 << 126) - 1;
    assert_eq!(morton_code(point([1.0, 1.0, 1.0])), top);
    assert_eq!(morton_code(point([7.0, 1e300, f64::INFINITY])), top);
    assert_eq!(morton_code(point([-1.0, -0.0, f64::NEG_INFINITY])), 0);
    assert_eq!(morton_code(point([f64::NAN, f64::NAN, f64::NAN])), 0);
    assert_eq!(morton_code(point([-3.0, 0.5, 2.0])), reference([-3.0, 0.5, 2.0]));
    assert_eq!(morton_code(point([1.0 - f64::EPSILON, 0.0, 0.0])), reference([1.0 - f64::EPSILON, 0.0, 0.0]));
}

fn shared_prefix(p: [f64; 3], q: [f64; 3]) -> u32 {
    (morton_code(point(p)) ^ morton_code(point(q))).leading_zeros()
}

#[test]
fn points_of_one_block_share_the_bits_of_the_block() {
    let mut rng = SplitMix64::new(17);
    for level in [1u32, 5, 20, 41] {
        let side = 1.0 / (1u64 << level) as f64;
        for _ in 0..200 {
            let corner = [
                (unit(&mut rng) / side).floor() * side,
                (unit(&mut rng) / side).floor() * side,
                (unit(&mut rng) / side).floor() * side,
            ];
            let p = [
                corner[0] + side * unit(&mut rng),
                corner[1] + side * unit(&mut rng),
                corner[2] + side * unit(&mut rng),
            ];
            let q = [
                corner[0] + side * unit(&mut rng),
                corner[1] + side * unit(&mut rng),
                corner[2] + side * unit(&mut rng),
            ];
            assert!(shared_prefix(p, q) >= 2 + 3 * level);
        }
    }
}

#[test]
fn near_points_share_longer_prefixes_than_far_points() {
    let mut rng = SplitMix64::new(23);
    let (mut near, mut far) = (0u64, 0u64);
    let pairs = 4000;
    for _ in 0..pairs {
        let p = [unit(&mut rng), unit(&mut rng), unit(&mut rng)];
        let step = |x: f64, rng: &mut SplitMix64| (x + 0.002 * (unit(rng) - 0.5)).clamp(0.0, 1.0);
        let close = [step(p[0], &mut rng), step(p[1], &mut rng), step(p[2], &mut rng)];
        let other = [unit(&mut rng), unit(&mut rng), unit(&mut rng)];
        near += shared_prefix(p, close) as u64;
        far += shared_prefix(p, other) as u64;
    }
    assert!(near > far + 3 * pairs, "{} against {}", near, far);
}

fn keyed(keys: &[u128]) -> Vec<(u8, u8, u128)> {
    keys.iter().map(|k| (0, 0, *k)).collect()
}

#[test]
fn a_run_is_parted_at_its_boundary() {
    assert_eq!(choose_split(&keyed(&[0, 1, 8, 9, 10, 11])), Split { at: 2, degenerate: false });
    assert_eq!(choose_split(&keyed(&[0, 1, 2, 3, 4, 5, 6, 7])), Split { at: 4, degenerate: false });
    assert_eq!(choose_split(&keyed(&[3, 4, 4, 4])), Split { at: 1, degenerate: false });
}

#[test]
fn a_run_of_equal_keys_is_parted_at_its_midpoint() {
    assert_eq!(choose_split(&keyed(&[5, 5, 5])), Split { at: 1, degenerate: false });
    assert_eq!(choose_split(&keyed(&[5, 5, 5, 5, 5, 5])), Split { at: 3, degenerate: false });
}

#[test]
fn a_boundary_at_the_last_index_is_degenerate() {
    assert_eq!(choose_split(&keyed(&[0, 0, 0, 4])), Split { at: 2, degenerate: true });
    assert_eq!(choose_split(&keyed(&[0, 1, 8])), Split { at: 1, degenerate: true });
    let colliding: Vec<u128> = vec![0, 0, 0, 0, 0, 0, 0, 0, 0, 1];
    assert_eq!(choose_split(&keyed(&colliding)), Split { at: 5, degenerate: true });
}
