use raytracer::color::Color;
use raytracer::fixed::FX_ONE;
use raytracer::ppm::PPM;
use raytracer::sampler::Sampler;
use raytracer::vector::Vector;

#[test]
fn fresh_image_is_black() {
    let img = PPM::new(2, 3);
    assert_eq!(img.get_length(), 2);
    assert_eq!(img.get_width(), 3);
    assert_eq!(img.get_pixel_vector().len(), 6);
    assert!(img.get_pixel_vector().iter().all(|c| *c == Color::new(0, 0, 0)));
}

#[test]
fn set_pixel_writes_row_major() {
    let mut img = PPM::new(2, 3);
    img.set_pixel(Color::new(9, 8, 7), 1, 2);
    assert_eq!(img.get_pixel_vector()[5], Color::new(9, 8, 7));
    assert_eq!(img.get_pixel_vector()[0], Color::new(0, 0, 0));
}

#[test]
fn grid_position_inverts_the_flat_index() {
    let img = PPM::new(2, 3);
    assert_eq!(img.grid_position(&0), Some((0, 0)));
    assert_eq!(img.grid_position(&4), Some((1, 1)));
    assert_eq!(img.grid_position(&5), Some((1, 2)));
    assert_eq!(img.grid_position(&6), None);
}

#[test]
fn ascii_layout_is_exact() {
    let mut img = PPM::new(1, 2);
    img.set_pixel(Color::new(1, 2, 3), 0, 0);
    img.set_pixel(Color::new(255, 0, 10), 0, 1);
    let bytes = img.to_ppm_bytes();
    assert_eq!(bytes, b"P3\n2 1\n255\n1\t2\t3\n255\t0\t10\n".to_vec());
}

#[test]
fn display_word_packs_blue_green_red() {
    let c = Color::new(1, 2, 3);
    assert_eq!(c.bgr_word(), 3 + 2 * 0x100 + 1 * 0x10000);
    assert_eq!(Color::new(255, 255, 255).bgr_word(), 0x00ffffff);
}

#[test]
fn linear_vector_to_color() {
    // Absolute-value scaling, saturated at 255.
    let c = Color::from_vec(Vector::new(FX_ONE, FX_ONE / 2, 3 * FX_ONE));
    assert_eq!(c, Color::new(255, 127, 255));
    let d = Color::from_vec(Vector::new(-FX_ONE / 2, 0, 13107));
    assert_eq!(d, Color::new(127, 0, 50));
}

#[test]
fn clamped_vector_to_color() {
    let c = Color::from_vec_255(Vector::new(-5 * FX_ONE, 300 * FX_ONE, 128 * FX_ONE));
    assert_eq!(c, Color::new(0, 255, 128));
}

#[test]
fn color_constants_and_randomness() {
    assert_eq!(Color::white(), Color::new(255, 255, 255));
    assert_eq!(Color::black(), Color::new(0, 0, 0));
    // Nothing is promised of a random color beyond its type.
    let _ = Color::random();
}

#[test]
fn seeded_sampler_replays_and_disabled_yields_zero() {
    let mut a = Sampler::Seeded(1234);
    let mut b = Sampler::Seeded(1234);
    for _ in 0..16 {
        assert_eq!(a.next_unit(), b.next_unit());
        assert_eq!(a.next_sym(), b.next_sym());
    }
    let mut d = Sampler::Disabled;
    assert_eq!(d.next_unit(), 0);
    assert_eq!(d.next_sym(), 0);
    let mut live = Sampler::Live;
    for _ in 0..16 {
        let u = live.next_unit();
        assert!(0 <= u && u < FX_ONE);
        let s = live.next_sym();
        assert!(-FX_ONE <= s && s < FX_ONE);
    }
}

#[test]
fn pixel_samplers_differ_by_pixel_but_not_by_caller() {
    let base = Sampler::Seeded(5);
    assert_eq!(base.for_pixel(3, 4), base.for_pixel(3, 4));
    assert_ne!(base.for_pixel(3, 4), base.for_pixel(4, 3));
    assert_eq!(Sampler::Disabled.for_pixel(1, 1), Sampler::Disabled);
}

#[test]
fn ascii_header_with_multi_digit_dimensions() {
    let img = PPM::new(10, 12);
    let bytes = img.to_ppm_bytes();
    assert!(bytes.starts_with(b"P3\n12 10\n255\n"));
    assert!(bytes.ends_with(b"0\t0\t0\n"));
    // Header plus 120 black pixel lines of six bytes each.
    assert_eq!(bytes.len(), 13 + 120 * 6);
}
