use raytracer::camera::{render, render_pixel, Camera, CameraError};
use raytracer::color::Color;
use raytracer::fixed::FX_ONE;
use raytracer::object::{DiffuseMaterial, Material, Object, Shape, Sphere, World};
use raytracer::sampler::Sampler;
use raytracer::vector::Vector;

fn single_sphere_scene() -> World {
    World {
        objects: vec![
            Object {
                shape: Shape::Sphere(Sphere {
                    center: Vector::new(0, 0, -2 * FX_ONE),
                    radius: FX_ONE,
                }),
                material: Material::Diffuse(DiffuseMaterial { color: Color::new(128, 128, 128) }),
            },
        ],
    }
}

fn test_camera(samples: usize) -> Camera {
    Camera::new(
        9,
        9,
        Vector::new(0, 0, 0),
        Vector::new(0, 0, -2 * FX_ONE),
        Vector::new(0, -FX_ONE, 0),
        FX_ONE,
        samples,
    )
    .unwrap()
}

#[test]
fn camera_rejects_bad_parameters() {
    let o = Vector::new(0, 0, 0);
    let la = Vector::new(0, 0, -FX_ONE);
    let up = Vector::new(0, -FX_ONE, 0);
    assert_eq!(
        Camera::new(0, 9, o, la, up, FX_ONE, 1).unwrap_err(),
        CameraError::ZeroDimension
    );
    assert_eq!(
        Camera::new(20000, 9, o, la, up, FX_ONE, 1).unwrap_err(),
        CameraError::DimensionTooLarge
    );
    assert_eq!(
        Camera::new(9, 9, o, la, up, FX_ONE, 0).unwrap_err(),
        CameraError::SampleCountOutOfRange
    );
    assert_eq!(
        Camera::new(9, 9, Vector::new(i64::MAX / 2, 0, 0), la, up, FX_ONE, 1).unwrap_err(),
        CameraError::CoordinateOutOfRange
    );
    assert_eq!(
        Camera::new(9, 9, o, la, up, 0, 1).unwrap_err(),
        CameraError::FieldOfViewOutOfRange
    );
    assert_eq!(
        Camera::new(9, 9, o, o, up, FX_ONE, 1).unwrap_err(),
        CameraError::DegenerateDirection
    );
    assert_eq!(
        Camera::new(9, 9, o, la, Vector::new(0, 0, FX_ONE), FX_ONE, 1).unwrap_err(),
        CameraError::DegenerateUp
    );
    // A huge tangent passes the field-of-view gate but yields image-plane
    // vectors beyond the representable range.
    assert_eq!(
        Camera::new(9, 9, o, la, up, 0x1000000000, 1).unwrap_err(),
        CameraError::ImagePlaneOutOfRange
    );
}

#[test]
fn camera_accepts_wide_views_and_extreme_aspects() {
    let o = Vector::new(0, 0, 0);
    let la = Vector::new(0, 0, -FX_ONE);
    let up = Vector::new(0, -FX_ONE, 0);
    // About a 153-degree vertical field of view.
    let wide = Camera::new(9, 9, o, la, up, 4 * FX_ONE, 1).unwrap();
    assert!(wide.is_well_formed());
    assert_eq!(wide.horizontal, Vector::new(-8 * FX_ONE, 0, 0));
    // A twenty-to-one aspect ratio.
    let stretched = Camera::new(100, 5, o, la, up, FX_ONE, 1).unwrap();
    assert!(stretched.is_well_formed());
}

#[test]
fn render_single_diffuse_sphere_without_randomness() {
    // One sample per pixel, sampling disabled: the silhouette of the sphere
    // is the sky gradient darkened by the albedo, and everywhere else the
    // exact background gradient.
    let world = single_sphere_scene();
    let empty = World { objects: vec![] };
    let cam = test_camera(1);
    let base = Sampler::Disabled;
    let img = render(&world, &cam, &base);
    assert_eq!(img.get_length(), 9);
    assert_eq!(img.get_width(), 9);
    let albedo = Vector::from_color(Color::new(128, 128, 128));

    for row in 0..9usize {
        for col in 0..9usize {
            let mut s1 = Sampler::Disabled;
            let ray = cam.get_ray(row, col, &mut s1);
            let mut s2 = Sampler::Disabled;
            let background = empty.color_at(&ray, &mut s2);
            let hits = world.intersect(&ray).is_some();
            let expected = if hits {
                // Straight through: one attenuating bounce, then the same
                // direction escapes to the background.
                Color::from_vec(background.mul_elem(&albedo))
            } else {
                Color::from_vec(background)
            };
            let got = img.get_pixel_vector()[row * 9 + col];
            assert_eq!(got, expected, "pixel ({row}, {col})");
            if hits {
                // The silhouette is strictly darker than the sky behind it.
                let sky = Color::from_vec(background);
                assert!(got.red < sky.red && got.green < sky.green && got.blue < sky.blue);
            }
        }
    }
    // The sphere actually covers the image center and misses the corner.
    let mut s = Sampler::Disabled;
    assert!(world.intersect(&cam.get_ray(4, 4, &mut s)).is_some());
    assert!(world.intersect(&cam.get_ray(0, 0, &mut s)).is_none());
}

#[test]
fn render_is_deterministic_under_a_fixed_seed() {
    let world = single_sphere_scene();
    let cam = test_camera(4);
    let base = Sampler::Seeded(424242);
    let img1 = render(&world, &cam, &base);
    let img2 = render(&world, &cam, &base);
    assert_eq!(img1.get_pixel_vector(), img2.get_pixel_vector());
}

#[test]
fn pixels_do_not_depend_on_the_partition_of_work() {
    // Recompute the image pixel by pixel in three interleaved strides, the
    // way a worker pool would split it, and in reverse: every pixel matches
    // the row-major render.
    let world = single_sphere_scene();
    let cam = test_camera(2);
    let base = Sampler::Seeded(7);
    let img = render(&world, &cam, &base);
    let total = 9 * 9usize;
    for stride_start in 0..3usize {
        let mut i = stride_start;
        while i < total {
            let row = i / 9;
            let col = i % 9;
            let c = render_pixel(&world, &cam, row, col, &base);
            assert_eq!(c, img.get_pixel_vector()[i]);
            i += 3;
        }
    }
    for i in (0..total).rev() {
        let c = render_pixel(&world, &cam, i / 9, i % 9, &base);
        assert_eq!(c, img.get_pixel_vector()[i]);
    }
}

#[test]
fn scene_validator_checks_every_object() {
    let good = single_sphere_scene();
    assert!(good.is_well_formed());
    let bad = World {
        objects: vec![
            Object {
                shape: Shape::Sphere(Sphere { center: Vector::new(0, 0, 0), radius: 0 }),
                material: Material::Diffuse(DiffuseMaterial { color: Color::new(1, 1, 1) }),
            },
        ],
    };
    assert!(!bad.is_well_formed());
}

#[test]
fn live_rendering_stays_in_range() {
    // Nothing is promised of live randomness except that rendering
    // completes and yields some color for every pixel.
    let world = single_sphere_scene();
    let cam = test_camera(2);
    let img = render(&world, &cam, &Sampler::Live);
    assert_eq!(img.get_pixel_vector().len(), 81);
}
