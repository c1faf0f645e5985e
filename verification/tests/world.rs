use raytracer::sampler::{hash_fast, pixel_of, M1, M2, M3};
use raytracer::world_loader::structures::Image;
use raytracer::world_loader::{find_material, fraction_width, hex_channels, resolve_materials};

fn names(list: &[&str]) -> Vec<String> {
    list.iter().map(|n| n.to_string()).collect()
}

#[test]
fn every_object_finds_its_material() {
    let declared = names(&["ground", "glass", "brown", "steel"]);
    let wanted = names(&["glass", "ground", "steel", "glass"]);
    assert_eq!(resolve_materials(&declared, &wanted).unwrap(), vec![1, 0, 3, 1]);
    assert_eq!(resolve_materials(&declared, &Vec::new()).unwrap(), Vec::<usize>::new());
    assert_eq!(find_material(&declared, &"brown".to_string()), Some(2));
    assert_eq!(find_material(&declared, &"Brown".to_string()), None);
}

#[test]
fn a_name_declared_twice_is_found_at_its_first_place() {
    let declared = names(&["a", "b", "a"]);
    assert_eq!(find_material(&declared, &"a".to_string()), Some(0));
}

#[test]
fn an_undeclared_material_names_the_object_and_the_material() {
    let declared = names(&["ground", "glass"]);
    let wanted = names(&["glass", "fog", "ground", "smoke"]);
    let error = resolve_materials(&declared, &wanted).unwrap_err();
    assert_eq!(error.object, 1);
    assert_eq!(error.material, "fog");
    let error = resolve_materials(&Vec::new(), &names(&["x"])).unwrap_err();
    assert_eq!((error.object, error.material.as_str()), (0, "x"));
}

#[test]
fn a_hex_colour_has_a_byte_for_each_channel() {
    assert_eq!(hex_channels(0x15A2FF), (0x15, 0xA2, 0xFF));
    assert_eq!(hex_channels(0), (0, 0, 0));
    assert_eq!(hex_channels(0xFFFFFF), (255, 255, 255));
    assert_eq!(hex_channels(0xAB010203), (1, 2, 3));
}

#[test]
fn the_width_follows_from_the_height_and_the_ratio() {
    assert_eq!(fraction_width(405, 16, 9), Some(720));
    assert_eq!(fraction_width(400, 16, 9), Some(711));
    assert_eq!(fraction_width(400, 1, 1), Some(400));
    assert_eq!(fraction_width(0, 16, 9), Some(0));
    assert_eq!(fraction_width(400, 16, 0), None);
    assert_eq!(fraction_width(1 << 31, 2, 1), None);
    assert_eq!(fraction_width(u32::MAX, 1, 2), Some(u32::MAX / 2));
}

#[test]
fn an_image_is_its_three_numbers() {
    let image = Image { height: 405, samples_per_pixel: 100, max_depth: 20 };
    assert_eq!((image.height, image.samples_per_pixel, image.max_depth), (405, 100, 20));
    assert_eq!(image.pixels(720), Some(291600));
    assert_eq!(image.pixels(0), Some(0));
    assert_eq!(image.pixels(u32::MAX / 405), Some(405 * (u32::MAX / 405)));
    assert_eq!(image.pixels(u32::MAX / 405 + 1), None);
}

#[test]
fn the_hash_multiplies_and_mixes() {
    assert_eq!((M1, M2, M3), (1597334677, 3812015801, 2741598923));
    assert_eq!(hash_fast(0, 0, 0), 0);
    assert_eq!(hash_fast(1, 0, 0), M1.wrapping_mul(M1));
    assert_eq!(hash_fast(0, 1, 0), M2.wrapping_mul(M1));
    assert_eq!(hash_fast(0, 0, 1), M3.wrapping_mul(M1));
    for (x, y, z) in [(3u32, 5u32, 7u32), (719, 404, 99), (u32::MAX, 12345, 0)] {
        let expected = (x.wrapping_mul(M1) ^ y.wrapping_mul(M2) ^ z.wrapping_mul(M3)).wrapping_mul(M1);
        assert_eq!(hash_fast(x, y, z), expected);
    }
    assert_eq!(hash_fast(3, 5, 7), 2309339);
}

#[test]
fn pixels_are_written_from_the_top_row_down() {
    assert_eq!(pixel_of(0, 8, 6), Some((0, 5)));
    assert_eq!(pixel_of(7, 8, 6), Some((7, 5)));
    assert_eq!(pixel_of(8, 8, 6), Some((0, 4)));
    assert_eq!(pixel_of(47, 8, 6), Some((7, 0)));
    assert_eq!(pixel_of(48, 8, 6), None);
    assert_eq!(pixel_of(0, 0, 6), None);
    assert_eq!(pixel_of(0, 8, 0), None);
    assert_eq!(pixel_of(u32::MAX, 65536, 65536), Some((65535, 0)));
    assert_eq!(pixel_of(u32::MAX, 65536, 65535), None);
    assert_eq!(pixel_of(65536 * 65535 - 1, 65536, 65535), Some((65535, 0)));
}
