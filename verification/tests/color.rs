use raytracer::scalar::Scalar;
use raytracer::vec3::color::{Color, MAX_PIXEL};

fn s(x: f64) -> Scalar {
    Scalar::from_bits(x.to_bits())
}

#[test]
fn check_correct_color_conversion() {
    assert_eq!(f64::from_bits(MAX_PIXEL) as u8, 255);
    assert_eq!(0.0 as u8, 0);
    assert_eq!(Scalar::from_bits(MAX_PIXEL).truncate(0, 255) as u8, 255);
    assert_eq!(s(0.0).truncate(0, 255) as u8, 0);
}

#[test]
fn channels_are_cast_as_a_saturating_cast_does() {
    let samples = [
        0.0, -0.0, 0.5, 0.999, 1.0, 1.5, 127.5, 254.999, 255.0, 255.5, 256.0, 1e300, -1.0, -1e300,
        f64::INFINITY, f64::NEG_INFINITY, f64::NAN, f64::MIN_POSITIVE, 5e-324, 200.25,
    ];
    for x in samples {
        let c = Color::new(s(x), s(x), s(x));
        assert_eq!(c.as_bytes(), [x as u8, x as u8, x as u8], "{}", x);
    }
}

#[test]
fn truncate_scales_by_a_power_of_two_first() {
    let samples = [
        0.0, 0.25, 0.5, 0.75, 0.999999999999, 1.0, 2.0, 1e-13, 3e-13, 0.1, 1.0 / 3.0, -0.5,
        f64::NAN, f64::INFINITY, 5e-324,
    ];
    let scale = (1u64 << 42) as f64;
    let limit = (1u64 << 42) - 1;
    for x in samples {
        let expected = (x * scale).clamp(0.0, scale - 1.0) as u128;
        assert_eq!(s(x).truncate(42, limit) as u128, expected, "{}", x);
    }
    assert_eq!(s(3.0).truncate(2000, u64::MAX), u64::MAX);
    assert_eq!(s(5e-324).truncate(1074, u64::MAX), 1);
    assert_eq!(s(3.0).truncate(61, u64::MAX), 3 << 61);
    assert_eq!(s(3.0).truncate(63, u64::MAX), u64::MAX);
}
