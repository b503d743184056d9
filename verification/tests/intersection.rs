use raytracer::color::Color;
use raytracer::fixed::FX_ONE;
use raytracer::object::{DiffuseMaterial, Material, Object, Shape, Sphere, World};
use raytracer::vector::{Ray, Vector};

fn diffuse(red: u8, green: u8, blue: u8) -> Material {
    Material::Diffuse(DiffuseMaterial { color: Color::new(red, green, blue) })
}

#[test]
fn sphere_hit_through_center() {
    // A half-unit sphere one unit ahead: the near surface lies at one half.
    let s = Sphere { center: Vector::new(0, 0, -FX_ONE), radius: FX_ONE / 2 };
    let r = Ray { origin: Vector::new(0, 0, 0), dir: Vector::new(0, 0, -FX_ONE) };
    let hit = s.intersect(&r);
    assert_eq!(hit, Some((FX_ONE / 2, Vector::new(0, 0, FX_ONE))));
}

#[test]
fn sphere_hit_at_distance_to_surface() {
    // A unit sphere two units ahead: the hit parameter is the distance to
    // the surface, one unit, and the same holds approaching from the other
    // side.
    let s = Sphere { center: Vector::new(0, 0, -2 * FX_ONE), radius: FX_ONE };
    let from_front = Ray { origin: Vector::new(0, 0, 0), dir: Vector::new(0, 0, -FX_ONE) };
    assert_eq!(s.intersect(&from_front), Some((FX_ONE, Vector::new(0, 0, FX_ONE))));
    let from_back = Ray { origin: Vector::new(0, 0, -4 * FX_ONE), dir: Vector::new(0, 0, FX_ONE) };
    assert_eq!(s.intersect(&from_back), Some((FX_ONE, Vector::new(0, 0, -FX_ONE))));
}

#[test]
fn sphere_miss() {
    let s = Sphere { center: Vector::new(0, 0, -2 * FX_ONE), radius: FX_ONE };
    let r = Ray { origin: Vector::new(0, 0, 0), dir: Vector::new(0, FX_ONE, 0) };
    assert_eq!(s.intersect(&r), None);
}

#[test]
fn world_returns_globally_nearest() {
    // Two overlapping spheres along the probe ray: the strictly closer one
    // must win, wherever it sits in the list.
    let near = Object {
        shape: Shape::Sphere(Sphere { center: Vector::new(0, 0, -2 * FX_ONE), radius: FX_ONE }),
        material: diffuse(10, 20, 30),
    };
    let far = Object {
        shape: Shape::Sphere(Sphere { center: Vector::new(0, 0, -4 * FX_ONE), radius: FX_ONE }),
        material: diffuse(40, 50, 60),
    };
    let r = Ray { origin: Vector::new(0, 0, 0), dir: Vector::new(0, 0, -FX_ONE) };

    let w1 = World { objects: vec![near, far] };
    let hit1 = w1.intersect(&r).unwrap();
    assert_eq!(hit1.0, FX_ONE);
    assert_eq!(hit1.2, 0);

    let near2 = Object {
        shape: Shape::Sphere(Sphere { center: Vector::new(0, 0, -2 * FX_ONE), radius: FX_ONE }),
        material: diffuse(10, 20, 30),
    };
    let far2 = Object {
        shape: Shape::Sphere(Sphere { center: Vector::new(0, 0, -4 * FX_ONE), radius: FX_ONE }),
        material: diffuse(40, 50, 60),
    };
    let w2 = World { objects: vec![far2, near2] };
    let hit2 = w2.intersect(&r).unwrap();
    assert_eq!(hit2.0, FX_ONE);
    assert_eq!(hit2.2, 1);
}

#[test]
fn world_skips_hits_behind_the_ray() {
    // The sphere sits behind the ray: both roots are negative, below the
    // epsilon threshold, so the scene reports a miss.
    let behind = Object {
        shape: Shape::Sphere(Sphere { center: Vector::new(0, 0, 2 * FX_ONE), radius: FX_ONE }),
        material: diffuse(1, 2, 3),
    };
    let r = Ray { origin: Vector::new(0, 0, 0), dir: Vector::new(0, 0, -FX_ONE) };
    let w = World { objects: vec![behind] };
    assert_eq!(w.intersect(&r), None);
}

#[test]
fn world_ties_go_to_the_first_object() {
    // Two identical spheres: on an exact tie the earlier object wins.
    let a = Object {
        shape: Shape::Sphere(Sphere { center: Vector::new(0, 0, -2 * FX_ONE), radius: FX_ONE }),
        material: diffuse(1, 1, 1),
    };
    let b = Object {
        shape: Shape::Sphere(Sphere { center: Vector::new(0, 0, -2 * FX_ONE), radius: FX_ONE }),
        material: diffuse(2, 2, 2),
    };
    let r = Ray { origin: Vector::new(0, 0, 0), dir: Vector::new(0, 0, -FX_ONE) };
    let w = World { objects: vec![a, b] };
    assert_eq!(w.intersect(&r).unwrap().2, 0);
}
