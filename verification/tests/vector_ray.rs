use raytracer::color::Color;
use raytracer::fixed::FX_ONE;
use raytracer::vector::{Ray, Vector};

#[test]
fn componentwise_arithmetic() {
    let a = Vector::new(FX_ONE, 2 * FX_ONE, -FX_ONE);
    let b = Vector::new(FX_ONE, -FX_ONE, FX_ONE / 2);
    assert_eq!(a.add(&b), Vector::new(2 * FX_ONE, FX_ONE, -FX_ONE / 2));
    assert_eq!(a.sub(&b), Vector::new(0, 3 * FX_ONE, -98304));
    assert_eq!(a.mul_elem(&b), Vector::new(FX_ONE, -2 * FX_ONE, -FX_ONE / 2));
    assert_eq!(a.scale(2 * FX_ONE), Vector::new(2 * FX_ONE, 4 * FX_ONE, -2 * FX_ONE));
}

#[test]
fn dot_cross_and_norms() {
    let a = Vector::new(FX_ONE, 0, 0);
    let b = Vector::new(0, FX_ONE, 0);
    assert_eq!(a.dot(b), 0);
    assert_eq!(a.dot_ref(&a), FX_ONE);
    // The right-handed cross of x with y is z.
    assert_eq!(a.cross(&b), Vector::new(0, 0, FX_ONE));
    let v = Vector::new(3 * FX_ONE, 4 * FX_ONE, 0);
    assert_eq!(v.sq_norm(), 25 * FX_ONE);
    assert_eq!(v.norm(), 5 * FX_ONE);
    let u = v.normalize();
    // 3/5 and 4/5 are exact in fixed point.
    assert_eq!(u, Vector::new(39321, 52428, 0));
}

#[test]
fn interpolate_at_zero_and_one() {
    let r = Ray {
        origin: Vector::new(FX_ONE, 2 * FX_ONE, 3 * FX_ONE),
        dir: Vector::new(-FX_ONE, FX_ONE / 2, 4 * FX_ONE),
    };
    assert_eq!(r.interpolate(0), r.origin);
    assert_eq!(r.interpolate(FX_ONE), r.origin.add(&r.dir));
    assert_eq!(r.interpolate(FX_ONE / 2), Vector::new(32768, 147456, 327680));
}

#[test]
fn ray_from_points() {
    let r = Ray::from_pts(Vector::new(FX_ONE, 0, 0), Vector::new(0, FX_ONE, 0));
    assert_eq!(r.origin, Vector::new(FX_ONE, 0, 0));
    assert_eq!(r.dir, Vector::new(-FX_ONE, FX_ONE, 0));
}

#[test]
fn color_to_linear_vector() {
    let v = Vector::from_color(Color::new(255, 0, 51));
    assert_eq!(v.x, FX_ONE);
    assert_eq!(v.y, 0);
    // 51/255 = 1/5, truncated in fixed point.
    assert_eq!(v.z, 51 * 65536 / 255);
}

#[test]
fn componentwise_sqrt() {
    let v = Vector::new(4 * FX_ONE, FX_ONE, 0);
    let s = v.sqrt();
    assert_eq!(s, Vector::new(2 * FX_ONE, FX_ONE, 0));
}
