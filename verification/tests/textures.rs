use code_for_next_week_in_rust::common::UNITS_PER_WORLD;
use code_for_next_week_in_rust::material::ScatterRecord;
use code_for_next_week_in_rust::ray::Ray;
use code_for_next_week_in_rust::texture::{checker_even, ImageTexture, SolidColor};
use code_for_next_week_in_rust::vec3::Vec3;

#[test]
fn solid_color_is_constant() {
    let s = SolidColor::new(Vec3::new(1, 2, 3));
    assert_eq!(s.value(0, 5, &Vec3::new(9, 9, 9)), Vec3::new(1, 2, 3));
    let t = SolidColor::from_rgb(4000, 6000, 2000);
    assert_eq!(t.value(-1, 1, &Vec3::zero()), Vec3::new(4000, 6000, 2000));
}

#[test]
fn checker_parity() {
    let s = UNITS_PER_WORLD;
    assert!(checker_even(s, &Vec3::new(0, 0, 0)));
    assert!(!checker_even(s, &Vec3::new(s as i32, 0, 0)));
    assert!(!checker_even(s, &Vec3::new(-1, 0, 0)));
    assert!(checker_even(s, &Vec3::new(-1, -1, 0)));
    assert!(!checker_even(6400, &Vec3::new(6399, 6400, 12800)));
    assert!(checker_even(6400, &Vec3::new(6400, 6400, 12800)));
}

#[test]
fn checker_alternates_along_x() {
    let scale = 6400i64;
    for k in -20..20i32 {
        let p = Vec3::new(k * 997, k * 31, -k * 57);
        let q = Vec3::new(p.x() + scale as i32, p.y(), p.z());
        assert_ne!(checker_even(scale, &p), checker_even(scale, &q));
    }
}

fn two_by_two() -> ImageTexture {
    // top row: red, green; bottom row: blue, grey
    ImageTexture::new(2, 2, vec![255, 0, 0, 0, 255, 0, 0, 0, 255, 51, 51, 51])
}

#[test]
fn image_texture_picks_pixels() {
    let img = two_by_two();
    let s = UNITS_PER_WORLD as i32;
    let p = Vec3::zero();
    // v = 1 is the top of the image
    assert_eq!(img.value(0, UNITS_PER_WORLD, &p), Vec3::new(s, 0, 0));
    assert_eq!(img.value(UNITS_PER_WORLD, UNITS_PER_WORLD, &p), Vec3::new(0, s, 0));
    assert_eq!(img.value(0, 0, &p), Vec3::new(0, 0, s));
    assert_eq!(img.value(UNITS_PER_WORLD, 0, &p), Vec3::new(4000, 4000, 4000));
    // coordinates are clamped to [0, 1]
    assert_eq!(img.value(-5, 3 * UNITS_PER_WORLD, &p), Vec3::new(s, 0, 0));
    assert_eq!(img.value(UNITS_PER_WORLD / 2 - 1, UNITS_PER_WORLD / 2 + 1, &p), Vec3::new(s, 0, 0));
}

#[test]
fn image_texture_without_rows_is_cyan() {
    let img = ImageTexture::new(0, 0, Vec::new());
    let s = UNITS_PER_WORLD as i32;
    assert_eq!(img.value(0, 0, &Vec3::zero()), Vec3::new(0, s, s));
}

#[test]
fn scatter_record_holds_its_parts() {
    let r = ScatterRecord { attenuation: Vec3::new(1, 2, 3), scattered: Ray::new(Vec3::zero(), Vec3::new(0, 1, 0), 7) };
    assert_eq!(r.scattered.time(), 7);
    assert_eq!(r.scattered.direction(), Vec3::new(0, 1, 0));
    assert_eq!(r.scattered.origin(), Vec3::zero());
    assert_eq!(r.attenuation, Vec3::new(1, 2, 3));
}

#[test]
fn checker_negative_scale_mirrors_the_cells() {
    // floor(c / -s) = floor(-c / s): the cell at x = 1 is cell -1, odd
    let s: i64 = 1000;
    assert!(checker_even(-s, &Vec3::new(0, 0, 0)));
    assert!(!checker_even(-s, &Vec3::new(1, 0, 0)));
    assert!(checker_even(-s, &Vec3::new(-1, 0, 0)));
    assert!(!checker_even(-s, &Vec3::new(-1000, 0, 0)));
    assert!(!checker_even(-s, &Vec3::new(-1001, 0, 0)));
    assert!(checker_even(-s, &Vec3::new(-2000, 0, 0)));
}

#[test]
fn checker_zero_scale_puts_each_side_in_one_cell() {
    // infinite cells: i32::MAX on the positive side, i32::MIN on the
    // negative side, 0 at 0
    assert!(checker_even(0, &Vec3::new(0, 0, 0)));
    assert!(!checker_even(0, &Vec3::new(5, 0, 0)));
    assert!(checker_even(0, &Vec3::new(-5, 0, 0)));
    assert!(checker_even(0, &Vec3::new(5, 7, 0)));
    assert!(!checker_even(0, &Vec3::new(5, 0, -1)));
}

#[test]
fn image_from_decoded_checks_three_bytes_per_pixel() {
    let t = ImageTexture::from_decoded(Some((2, 1, vec![255, 0, 0, 0, 0, 255]))).unwrap();
    assert_eq!((t.width(), t.height()), (2, 1));
    assert_eq!(t.value(0, 0, &Vec3::zero()), Vec3::new(20000, 0, 0));
    assert_eq!(t.value(20000, 0, &Vec3::zero()), Vec3::new(0, 0, 20000));
    assert!(ImageTexture::from_decoded(Some((2, 1, vec![1, 2, 3]))).is_none());
    assert!(ImageTexture::from_decoded(None).is_none());
}

#[test]
fn image_from_encoded_decodes_a_jpeg() {
    let img = image::RgbImage::from_pixel(4, 2, image::Rgb([200, 100, 50]));
    let mut buf: Vec<u8> = Vec::new();
    image::DynamicImage::ImageRgb8(img)
        .write_to(&mut std::io::Cursor::new(&mut buf), image::ImageFormat::Jpeg)
        .unwrap();
    let t = ImageTexture::from_encoded(&buf).unwrap();
    assert_eq!((t.width(), t.height()), (4, 2));
    let c = t.value(10000, 10000, &Vec3::zero());
    assert!((c.x() - 200 * 20000 / 255).abs() < 800);
    assert!((c.y() - 100 * 20000 / 255).abs() < 800);
    assert!((c.z() - 50 * 20000 / 255).abs() < 800);
}

#[test]
fn image_from_encoded_refuses_bytes_that_are_no_image() {
    assert!(ImageTexture::from_encoded(&[1, 2, 3, 4, 5]).is_none());
    assert!(ImageTexture::from_encoded(&[]).is_none());
}
