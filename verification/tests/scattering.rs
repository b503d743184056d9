use raytracer::fixed::FX_ONE;
use raytracer::object::{
    random_in_unit_sphere, reflect, DielectricMaterial, DiffuseMaterial, MetalMaterial,
};
use raytracer::sampler::Sampler;
use raytracer::vector::{Ray, Vector};

#[test]
fn diffuse_disabled_passes_straight_through() {
    let m = DiffuseMaterial { color: raytracer::color::Color::new(128, 128, 128) };
    let ray = Ray { origin: Vector::new(0, 0, 0), dir: Vector::new(0, 0, -FX_ONE) };
    let normal = Vector::new(0, 0, FX_ONE);
    let mut s = Sampler::Disabled;
    let (att, out) = m.scatter(&ray, &normal, FX_ONE, &mut s);
    assert_eq!(out.dir, ray.dir);
    assert_eq!(out.origin, Vector::new(0, 0, -FX_ONE));
    // The albedo 128 of 255, in fixed point, truncated.
    assert_eq!(att, Vector::new(32896, 32896, 32896));
}

#[test]
fn diffuse_seeded_scatters_normal_plus_sample() {
    let m = DiffuseMaterial { color: raytracer::color::Color::new(200, 10, 10) };
    let ray = Ray { origin: Vector::new(0, 0, 0), dir: Vector::new(0, 0, -FX_ONE) };
    let normal = Vector::new(0, 0, FX_ONE);
    let mut replay = Sampler::Seeded(7);
    let sample = random_in_unit_sphere(&mut replay);
    let mut s = Sampler::Seeded(7);
    let (_, out) = m.scatter(&ray, &normal, FX_ONE, &mut s);
    assert_eq!(out.dir, normal.add(&sample));
    assert_ne!(out.dir, Vector::new(0, 0, 0));
}

#[test]
fn unit_sphere_samples_are_near_unit() {
    let mut s = Sampler::Seeded(99);
    for _ in 0..32 {
        let v = random_in_unit_sphere(&mut s);
        let sq = v.sq_norm();
        // Normalization is exact integer arithmetic, so the squared norm
        // lands within a narrow band around one square unit.
        assert!(sq > FX_ONE - 2048 && sq < FX_ONE + 2048, "sq_norm {sq}");
    }
}

#[test]
fn metal_mirror_reflection() {
    let m = MetalMaterial { attenuation: raytracer::color::Color::new(120, 120, 120), fuzz: 0 };
    // Head-on against the normal: the reflection flips the direction.
    let ray = Ray { origin: Vector::new(0, 0, 0), dir: Vector::new(0, 0, -FX_ONE) };
    let normal = Vector::new(0, 0, FX_ONE);
    let mut s = Sampler::Disabled;
    let (_, out) = m.scatter(&ray, &normal, FX_ONE, &mut s);
    assert_eq!(out.dir, Vector::new(0, 0, FX_ONE));
    assert_ne!(out.dir, Vector::new(0, 0, 0));
    // Oblique: d' = d - 2 (d . n) n keeps the tangential part.
    let oblique = Ray { origin: Vector::new(0, 0, 0), dir: Vector::new(FX_ONE, 0, -FX_ONE) };
    let r = reflect(&oblique, &normal, FX_ONE);
    assert_eq!(r.dir, Vector::new(FX_ONE, 0, FX_ONE));
}

#[test]
fn dielectric_reflects_exactly_when_eta_sin_exceeds_one() {
    // Grazing geometry: the incident direction is perpendicular to the
    // normal, so the sine term is exactly one unit.
    let ray = Ray { origin: Vector::new(0, 0, 0), dir: Vector::new(FX_ONE, 0, 0) };
    let normal = Vector::new(0, 0, FX_ONE);
    let t = FX_ONE;

    // eta * sin = 2 > 1: total internal reflection, which here keeps the
    // direction (it has no component along the normal).
    let tir = DielectricMaterial { eta_ratio: 2 * FX_ONE };
    let mut s = Sampler::Disabled;
    let (att, out) = tir.scatter(&ray, &normal, t, &mut s);
    assert_eq!(out.dir, Vector::new(FX_ONE, 0, 0));
    assert_eq!(att, Vector::new(FX_ONE, FX_ONE, FX_ONE));

    // eta * sin = 1/2 <= 1: refraction by the perpendicular/parallel
    // decomposition.
    let refr = DielectricMaterial { eta_ratio: FX_ONE / 2 };
    let (_, out2) = refr.scatter(&ray, &normal, t, &mut s);
    assert_eq!(out2.dir, Vector::new(FX_ONE / 2, 0, -56755));
    assert_ne!(out2.dir, Vector::new(0, 0, 0));
}

#[test]
fn dielectric_accepts_signed_eta() {
    // A negated ratio expresses exiting the medium; the product with the
    // sine is then below one unit, so the surface refracts.
    let ray = Ray { origin: Vector::new(0, 0, 0), dir: Vector::new(FX_ONE, 0, 0) };
    let normal = Vector::new(0, 0, FX_ONE);
    let m = DielectricMaterial { eta_ratio: -FX_ONE / 2 };
    let mut s = Sampler::Disabled;
    let (att, out) = m.scatter(&ray, &normal, FX_ONE, &mut s);
    assert_eq!(att, Vector::new(FX_ONE, FX_ONE, FX_ONE));
    assert_eq!(out.dir, Vector::new(-FX_ONE / 2, 0, -56755));
    assert_ne!(out.dir, Vector::new(0, 0, 0));
}

#[test]
fn metal_fuzz_perturbs_by_the_drawn_sample() {
    let m = MetalMaterial { attenuation: raytracer::color::Color::new(1, 2, 3), fuzz: FX_ONE / 4 };
    let ray = Ray { origin: Vector::new(0, 0, 0), dir: Vector::new(0, 0, -FX_ONE) };
    let normal = Vector::new(0, 0, FX_ONE);
    let mut replay = Sampler::Seeded(31);
    let sample = random_in_unit_sphere(&mut replay);
    let mut s = Sampler::Seeded(31);
    let (_, out) = m.scatter(&ray, &normal, FX_ONE, &mut s);
    let mirror = reflect(&ray, &normal, FX_ONE);
    assert_eq!(out.dir, mirror.dir.add(&sample.scale(FX_ONE / 4)));
    assert_ne!(out.dir, mirror.dir);
}
