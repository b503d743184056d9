//! Shapes, materials, and the scene.
//!
//! A `World` is an ordered list of objects, each a shape paired with a
//! material. Intersection resolves the globally nearest hit whose ray
//! parameter exceeds the epsilon threshold; on an exact tie the earlier
//! object wins, a stable but otherwise arbitrary policy. Scattering maps an
//! incident ray, a surface normal and a hit distance to an attenuation color
//! and an outgoing ray; every step is an exact fixed-point computation.

use vstd::prelude::*;

verus! {

use crate::color::Color;
use crate::fixed::FX_ONE;
use crate::fixed::fx_mul;
use crate::fixed::fx_mul_spec;
use crate::fixed::isqrt;
use crate::fixed::lemma_mul_bound;
use crate::fixed::lemma_sqrt_floor_bounds;
use crate::fixed::sqrt_floor;
use crate::fixed::tdiv;
use crate::sampler::Sampler;
use crate::sampler::spec_next_sym;
use crate::vector::Ray;
use crate::vector::VR_MAX;
use crate::vector::VR_SUM;
use crate::vector::check_range;
use crate::vector::lemma_from_color_range;
use crate::vector::lemma_unit_interval_mul;
use crate::vector::Vector;
use crate::vector::in_range;
use crate::vector::lemma_fx_comp;
use crate::vector::lemma_fx_sq_nonneg;
use crate::vector::spec_add;
use crate::vector::spec_dot;
use crate::vector::spec_from_color;
use crate::vector::spec_interpolate;
use crate::vector::spec_mul_elem;
use crate::vector::spec_normalize;
use crate::vector::spec_scale;
use crate::vector::spec_sq_norm;
use crate::vector::spec_sub;

/// The bounce budget: rays still scattering after this many bounces go black.
pub const RAY_BOUNCE_DEPTH: usize = 50;

/// The hit-rejection threshold, about a thousandth of a unit: hits at or
/// below it are treated as self-intersections and discarded.
pub const EPSILON: i64 = 64;

/// Hits farther along the ray than this lie beyond the representable scene
/// volume; intersection still reports them, and the tracer treats them as
/// escaped to the background.
pub const T_CAP: i64 = 0x10000000;

/// Bound on scene coordinates: sphere centers and radii.
pub const COORD_MAX: i64 = 0x8000000;

/// Bound on the components of a traced ray's direction.
pub const DIR_MAX: i64 = 0x2000000;

/// Bound on the components of a traced ray's origin.
pub const ORIGIN_MAX: i64 = 0x200000000;

/// A traced ray's direction must have at least this squared norm — half a
/// unit of length — so that fixed-point normalization of the direction is
/// accurate to a few sixty-five-thousandths.
pub const DIR_SQ_MIN: i64 = 0x4000;

/// A ray the tracer can intersect: bounded origin and direction, and a
/// direction of at least half a unit of length.
pub open spec fn ray_wf(r: Ray) -> bool {
    &&& in_range(r.origin, ORIGIN_MAX as int)
    &&& in_range(r.dir, DIR_MAX as int)
    &&& spec_sq_norm(r.dir) >= DIR_SQ_MIN
}

/// A sphere: all points at `radius` from `center`.
pub struct Sphere {
    pub center: Vector,
    pub radius: i64,
}

impl Sphere {
    /// A sphere the tracer can work with: a bounded center and a positive,
    /// bounded radius. A non-positive radius is degenerate geometry.
    pub open spec fn wf(self) -> bool {
        &&& in_range(self.center, COORD_MAX as int)
        &&& 1 <= self.radius <= COORD_MAX
    }
}

/// The shapes of the scene, a closed set; the sphere is the sole variant.
pub enum Shape {
    Sphere(Sphere),
}

impl Shape {
    pub open spec fn wf(self) -> bool {
        match self {
            Shape::Sphere(s) => s.wf(),
        }
    }
}

/// The magnitude of an integer.
pub open spec fn iabs(x: int) -> int {
    if x >= 0 {
        x
    } else {
        -x
    }
}

/// The largest of three values.
pub open spec fn max3(x: int, y: int, z: int) -> int {
    if x >= y && x >= z {
        x
    } else if y >= z {
        y
    } else {
        z
    }
}

/// The power of two by which a magnitude must shrink to fit under the
/// working ceiling of the normal computation.
pub open spec fn shrink_pow(m: nat) -> nat
    decreases m,
{
    if m <= 0x2000000000 {
        1
    } else {
        2 * shrink_pow(m / 2)
    }
}

/// The power of two by which a magnitude below the working floor must grow
/// to reach it.
pub open spec fn grow_pow(m: nat) -> nat
    decreases 0x100000000 - m,
{
    if m == 0 {
        1
    } else if m >= 0x100000000 {
        1
    } else if 2 * m >= 0x100000000 {
        2
    } else {
        2 * grow_pow(2 * m)
    }
}

/// A nonzero offset rescaled by powers of two into the band where
/// normalization is accurate; halving truncates toward zero, doubling is
/// exact, and the direction is otherwise unchanged.
pub open spec fn spec_fit_dir(x: int, y: int, z: int) -> Vector {
    let m = max3(iabs(x), iabs(y), iabs(z));
    let p = shrink_pow(m as nat) as int;
    let q = grow_pow(tdiv(m, p) as nat) as int;
    Vector { x: (tdiv(x, p) * q) as i64, y: (tdiv(y, p) * q) as i64, z: (tdiv(z, p) * q) as i64 }
}

/// The outward unit normal at ray parameter `t`: the offset from the center
/// to the hit point, computed exactly at doubled scale, rescaled into the
/// accurate band and normalized; an offset indistinguishable from zero
/// (degenerate rounding) yields a fixed axis normal.
pub open spec fn spec_hit_normal(s: Sphere, ray: Ray, t: int) -> Vector {
    let rx = (ray.origin.x - s.center.x) * FX_ONE + ray.dir.x * t;
    let ry = (ray.origin.y - s.center.y) * FX_ONE + ray.dir.y * t;
    let rz = (ray.origin.z - s.center.z) * FX_ONE + ray.dir.z * t;
    if rx == 0 && ry == 0 && rz == 0 {
        Vector { x: 0i64, y: FX_ONE, z: 0i64 }
    } else {
        spec_normalize(spec_fit_dir(rx, ry, rz))
    }
}

/// What intersecting a sphere yields: whenever the discriminant of
/// `|d|^2 t^2 + 2 t (d . (o - c)) + |o - c|^2 - r^2 = 0` is non-negative,
/// the nearer root — possibly negative or far away; epsilon and scene-range
/// filtering are the tracer's job — with the outward unit normal at that
/// point; otherwise a miss.
#[verifier::opaque]
pub open spec fn spec_sphere_intersect(s: Sphere, ray: Ray) -> Option<(i64, Vector)> {
    let oc = spec_sub(ray.origin, s.center);
    let a = spec_sq_norm(ray.dir);
    let b = 2 * spec_dot(ray.dir, oc);
    let c = spec_sq_norm(oc) - fx_mul_spec(s.radius as int, s.radius as int);
    let disc = b * b - 4 * a * c;
    if disc >= 0 {
        let root = sqrt_floor(disc as nat) as int;
        let t = tdiv((-b - root) * FX_ONE, 2 * a);
        Some((t as i64, spec_hit_normal(s, ray, t)))
    } else {
        None
    }
}

/// The shrink power brings any magnitude under the working ceiling without
/// losing it entirely.
proof fn lemma_shrink_pow(m: nat)
    ensures
        shrink_pow(m) >= 1,
        m as int / (shrink_pow(m) as int) <= 0x2000000000,
        m >= 1 ==> m as int / (shrink_pow(m) as int) >= 1,
    decreases m,
{
    if m <= 0x2000000000 {
        vstd::arithmetic::div_mod::lemma_div_basics(m as int);
    } else {
        lemma_shrink_pow(m / 2);
        let p2 = shrink_pow(m / 2) as int;
        vstd::arithmetic::div_mod::lemma_div_denominator(m as int, 2, p2);
        assert(shrink_pow(m) as int == 2 * p2);
        assert((m / 2) as int == m as int / 2);
    }
}

/// The grow power lifts a magnitude within the ceiling to the working floor
/// without passing the ceiling.
proof fn lemma_grow_pow(m: nat)
    requires
        1 <= m <= 0x2000000000,
    ensures
        grow_pow(m) >= 1,
        0x100000000 <= m * grow_pow(m) <= 0x2000000000,
    decreases 0x100000000 - m,
{
    if m >= 0x100000000 {
        assert(m * 1 == m) by (nonlinear_arith);
    } else if 2 * m >= 0x100000000 {
        assert(m * 2 == 2 * m) by (nonlinear_arith);
    } else {
        lemma_grow_pow(2 * m);
        let q2 = grow_pow(2 * m);
        assert(m * (2 * q2) == (2 * m) * q2) by (nonlinear_arith);
    }
}

/// One rescaled component stays within the rescaled maximum magnitude.
proof fn lemma_fit_comp(c: int, m: int, p: int, q: int)
    requires
        iabs(c) <= m,
        p >= 1,
        q >= 1,
        0 <= m,
        tdiv(m, p) * q <= 0x2000000000,
    ensures
        -(tdiv(m, p) * q) <= tdiv(c, p) * q <= tdiv(m, p) * q,
        -0x2000000000 <= tdiv(c, p) * q <= 0x2000000000,
{
    crate::fixed::lemma_tdiv_bound(c, p, m);
    assert(-(tdiv(m, p) * q) <= tdiv(c, p) * q <= tdiv(m, p) * q) by (nonlinear_arith)
        requires
            -tdiv(m, p) <= tdiv(c, p) <= tdiv(m, p),
            q >= 1,
    ;
}

/// The component holding the maximum magnitude keeps it exactly through the
/// rescaling.
proof fn lemma_fit_max_comp(c: int, m: int, p: int, q: int)
    requires
        iabs(c) == m,
        p >= 1,
        q >= 1,
        0 <= m,
    ensures
        iabs(tdiv(c, p) * q) == tdiv(m, p) * q,
{
    if c >= 0 {
        assert(tdiv(c, p) * q >= 0) by (nonlinear_arith)
            requires
                tdiv(c, p) >= 0,
                q >= 1,
        ;
    } else {
        assert(tdiv(c, p) == -tdiv(m, p));
        assert((-tdiv(m, p)) * q == -(tdiv(m, p) * q)) by (nonlinear_arith);
        assert(tdiv(m, p) * q >= 0) by (nonlinear_arith)
            requires
                tdiv(m, p) >= 0,
                q >= 1,
        ;
    }
}

/// A vector with one component of at least the working floor has a squared
/// norm of at least a quarter unit.
proof fn lemma_big_comp_sq(v: Vector)
    requires
        iabs(v.x as int) >= 0x100000000 || iabs(v.y as int) >= 0x100000000 || iabs(
            v.z as int,
        ) >= 0x100000000,
    ensures
        spec_sq_norm(v) >= FX_ONE / 4,
{
    lemma_fx_sq_nonneg(v.x as int);
    lemma_fx_sq_nonneg(v.y as int);
    lemma_fx_sq_nonneg(v.z as int);
    if iabs(v.x as int) >= 0x100000000 {
        lemma_big_sq(v.x as int);
    } else if iabs(v.y as int) >= 0x100000000 {
        lemma_big_sq(v.y as int);
    } else {
        lemma_big_sq(v.z as int);
    }
}

/// The rescaled square of a floor-sized component alone clears the
/// quarter-unit bound.
proof fn lemma_big_sq(c: int)
    requires
        iabs(c) >= 0x100000000,
    ensures
        fx_mul_spec(c, c) >= 0x1000000000000,
{
    assert(c * c >= 0x100000000 * 0x100000000) by (nonlinear_arith)
        requires
            iabs(c) >= 0x100000000,
    ;
    vstd::arithmetic::div_mod::lemma_div_is_ordered(
        0x100000000 as int * 0x100000000,
        c * c,
        FX_ONE as int,
    );
    lemma_fx_sq_nonneg(c);
}

/// The fitted offset of a nonzero vector lies in the accurate band: within
/// the working ceiling, with a squared norm of at least a quarter unit.
proof fn lemma_fit_dir(x: int, y: int, z: int)
    requires
        iabs(x) <= 0x100000000000000000000,
        iabs(y) <= 0x100000000000000000000,
        iabs(z) <= 0x100000000000000000000,
        max3(iabs(x), iabs(y), iabs(z)) >= 1,
    ensures
        in_range(spec_fit_dir(x, y, z), 0x2000000000),
        spec_sq_norm(spec_fit_dir(x, y, z)) >= FX_ONE / 4,
{
    let m = max3(iabs(x), iabs(y), iabs(z));
    lemma_shrink_pow(m as nat);
    let p = shrink_pow(m as nat) as int;
    let m2 = tdiv(m, p);
    lemma_grow_pow(m2 as nat);
    let q = grow_pow(m2 as nat) as int;
    lemma_fit_comp(x, m, p, q);
    lemma_fit_comp(y, m, p, q);
    lemma_fit_comp(z, m, p, q);
    let fit = spec_fit_dir(x, y, z);
    if iabs(x) == m {
        lemma_fit_max_comp(x, m, p, q);
    } else if iabs(y) == m {
        lemma_fit_max_comp(y, m, p, q);
    } else {
        lemma_fit_max_comp(z, m, p, q);
    }
    lemma_big_comp_sq(fit);
}

/// The absolute value of a wide integer that is not the minimum value.
fn abs_i128(a: i128) -> (r: u128)
    requires
        a > i128::MIN,
    ensures
        r == iabs(a as int),
{
    if a >= 0 {
        a as u128
    } else {
        (-a) as u128
    }
}

/// Truncating division of a wide integer by a positive divisor.
fn tdiv_i128(a: i128, b: u128) -> (r: i128)
    requires
        1 <= b,
        -0x100000000000000000000 <= a <= 0x100000000000000000000,
    ensures
        r == tdiv(a as int, b as int),
{
    let neg = a < 0;
    let m: u128 = if neg {
        (-a) as u128
    } else {
        a as u128
    };
    let q = m / b;
    proof {
        vstd::arithmetic::div_mod::lemma_div_is_ordered_by_denominator(m as int, 1, b as int);
        vstd::arithmetic::div_mod::lemma_div_basics(m as int);
        vstd::arithmetic::div_mod::lemma_div_pos_is_pos(m as int, b as int);
    }
    if neg {
        -(q as i128)
    } else {
        q as i128
    }
}

/// Rescales a nonzero offset by powers of two into the band where
/// normalization is accurate.
fn fit_dir(x: i128, y: i128, z: i128) -> (r: Vector)
    requires
        -0x100000000000000000000 <= x <= 0x100000000000000000000,
        -0x100000000000000000000 <= y <= 0x100000000000000000000,
        -0x100000000000000000000 <= z <= 0x100000000000000000000,
        !(x == 0 && y == 0 && z == 0),
    ensures
        r == spec_fit_dir(x as int, y as int, z as int),
        in_range(r, 0x2000000000),
        spec_sq_norm(r) >= FX_ONE / 4,
{
    proof {
        lemma_fit_dir(x as int, y as int, z as int);
    }
    let ax = abs_i128(x);
    let ay = abs_i128(y);
    let az = abs_i128(z);
    let m: u128 = if ax >= ay && ax >= az {
        ax
    } else if ay >= az {
        ay
    } else {
        az
    };
    let ghost mi = m as int;
    proof {
        assert(mi == max3(iabs(x as int), iabs(y as int), iabs(z as int)));
        lemma_shrink_pow(m as nat);
        vstd::arithmetic::div_mod::lemma_div_basics(mi);
        assert(shrink_pow(m as nat) == 1nat * shrink_pow(m as nat)) by (nonlinear_arith);
    }
    let mut p: u128 = 1;
    let mut mm: u128 = m;
    while mm > 0x2000000000
        invariant
            1 <= p <= 0x200000000000000000000,
            0 <= mi <= 0x100000000000000000000,
            mm as int == mi / (p as int),
            shrink_pow(mi as nat) == p as nat * shrink_pow(mm as nat),
        decreases mm,
    {
        proof {
            if p as int > mi {
                vstd::arithmetic::div_mod::lemma_basic_div(mi, p as int);
            }
            vstd::arithmetic::div_mod::lemma_div_denominator(mi, p as int, 2);
            assert(shrink_pow(mm as nat) == 2 * shrink_pow((mm as nat) / 2));
            assert(p as nat * (2 * shrink_pow((mm as nat) / 2)) == (2 * p as nat) * shrink_pow(
                (mm as nat) / 2,
            )) by (nonlinear_arith);
            assert((mm / 2) as nat == (mm as nat) / 2);
        }
        mm = mm / 2;
        p = p * 2;
    }
    proof {
        assert(shrink_pow(mm as nat) == 1);
        assert(p as nat * 1nat == p as nat) by (nonlinear_arith);
        assert(p as nat == shrink_pow(mi as nat));
        assert(mm as int == tdiv(mi, p as int));
    }
    let xs = tdiv_i128(x, p);
    let ys = tdiv_i128(y, p);
    let zs = tdiv_i128(z, p);
    let m2: u128 = mm;
    proof {
        lemma_grow_pow(m2 as nat);
        assert(grow_pow(m2 as nat) == 1nat * grow_pow(m2 as nat)) by (nonlinear_arith);
        crate::fixed::lemma_tdiv_bound(x as int, p as int, mi);
        crate::fixed::lemma_tdiv_bound(y as int, p as int, mi);
        crate::fixed::lemma_tdiv_bound(z as int, p as int, mi);
    }
    let mut q: u128 = 1;
    let mut mg: u128 = m2;
    while mg < 0x100000000
        invariant
            1 <= q <= 0x200000000,
            1 <= m2 <= 0x2000000000,
            1 <= mg <= 0x2000000000,
            mg as int == m2 as int * q as int,
            grow_pow(m2 as nat) == q as nat * grow_pow(mg as nat),
        decreases 0x200000000 - mg,
    {
        proof {
            assert(grow_pow(mg as nat) == 2 * grow_pow(2 * (mg as nat)));
            assert(q as nat * (2 * grow_pow(2 * (mg as nat))) == (2 * q as nat) * grow_pow(
                2 * (mg as nat),
            )) by (nonlinear_arith);
            assert(m2 as int * (2 * q as int) == 2 * (m2 as int * q as int)) by (nonlinear_arith);
            assert(q as int <= mg as int) by (nonlinear_arith)
                requires
                    mg as int == m2 as int * q as int,
                    m2 >= 1,
                    q >= 1,
            ;
        }
        mg = mg * 2;
        q = q * 2;
    }
    proof {
        assert(grow_pow(mg as nat) == 1);
        assert(q as nat * 1nat == q as nat) by (nonlinear_arith);
        assert(q as nat == grow_pow(m2 as nat));
        assert(m2 as int * q as int <= 0x2000000000);
        lemma_fit_comp(x as int, mi, p as int, q as int);
        lemma_fit_comp(y as int, mi, p as int, q as int);
        lemma_fit_comp(z as int, mi, p as int, q as int);
    }
    let fx_x: i128 = xs * (q as i128);
    let fx_y: i128 = ys * (q as i128);
    let fx_z: i128 = zs * (q as i128);
    Vector::new(fx_x as i64, fx_y as i64, fx_z as i64)
}

pub open spec fn spec_shape_intersect(s: Shape, ray: Ray) -> Option<(i64, Vector)> {
    match s {
        Shape::Sphere(sp) => spec_sphere_intersect(sp, ray),
    }
}

impl Sphere {
    /// The nearer intersection of the ray with the sphere, from the
    /// discriminant of `|d|^2 t^2 + 2 t (d . (o - c)) + |o - c|^2 - r^2 = 0`,
    /// with the outward unit normal at the hit point. Every non-negative
    /// discriminant yields a hit; epsilon and scene-range filtering are left
    /// to the callers.
    pub fn intersect(&self, ray: &Ray) -> (r: Option<(i64, Vector)>)
        requires
            self.wf(),
            ray_wf(*ray),
        ensures
            r == spec_sphere_intersect(*self, *ray),
            r is Some ==> in_range(r->Some_0.1, FX_ONE as int + 4),
    {
        proof {
            reveal(spec_sphere_intersect);
        }
        let oc = ray.origin.sub(&self.center);
        proof {
            lemma_sphere_terms(*self, *ray, oc);
        }
        let a: i64 = ray.dir.sq_norm();
        let b: i64 = 2 * ray.dir.dot_ref(&oc);
        proof {
            lemma_fx_comp(self.radius as int, self.radius as int, COORD_MAX as int,
                COORD_MAX as int);
        }
        let c: i64 = oc.sq_norm() - fx_mul(self.radius, self.radius);
        proof {
            lemma_mul_bound(b as int, b as int, 0x200000000000, 0x200000000000);
            lemma_mul_bound(a as int, c as int, 0xc00000000, 0x10000000000000);
        }
        let ac: i128 = (a as i128) * (c as i128);
        let disc: i128 = (b as i128) * (b as i128) - 4 * ac;
        proof {
            assert(oc == spec_sub(ray.origin, self.center));
            assert(a as int == spec_sq_norm(ray.dir));
            assert(b as int == 2 * spec_dot(ray.dir, oc));
            assert(c as int == spec_sq_norm(oc) - fx_mul_spec(
                self.radius as int,
                self.radius as int,
            ));
            assert(4 * ((a as int) * (c as int)) == 4 * (a as int) * (c as int))
                by (nonlinear_arith);
            assert(disc as int == (b as int) * (b as int) - 4 * (a as int) * (c as int));
        }
        if disc >= 0 {
            let root: u64 = isqrt(disc as u128);
            proof {
                lemma_sqrt_in_range(disc as int);
            }
            let num: i128 = -(b as i128) - (root as i128);
            let t: i64 = crate::fixed::fx_div_wide(num, 2 * a);
            proof {
                assert((disc as u128) as nat == disc as nat);
                assert(root == sqrt_floor(disc as nat));
                assert(t as int == tdiv(
                    (-(b as int) - (root as int)) * (FX_ONE as int),
                    2 * (a as int),
                ));
                lemma_root_param_range(num as int, a as int);
            }
            let n = self.hit_normal(ray, t);
            Some((t, n))
        } else {
            None
        }
    }

    /// The outward unit normal at ray parameter `t`, from the exactly
    /// computed doubled-scale offset of the hit point from the center.
    fn hit_normal(&self, ray: &Ray, t: i64) -> (n: Vector)
        requires
            self.wf(),
            ray_wf(*ray),
            -0xc00000000000 <= t <= 0xc00000000000,
        ensures
            n == spec_hit_normal(*self, *ray, t as int),
            in_range(n, FX_ONE as int + 4),
    {
        proof {
            lemma_mul_bound(ray.dir.x as int, t as int, DIR_MAX as int, 0xc00000000000);
            lemma_mul_bound(ray.dir.y as int, t as int, DIR_MAX as int, 0xc00000000000);
            lemma_mul_bound(ray.dir.z as int, t as int, DIR_MAX as int, 0xc00000000000);
        }
        let rx: i128 = ((ray.origin.x - self.center.x) as i128) * 65536 + (ray.dir.x as i128) * (
        t as i128);
        let ry: i128 = ((ray.origin.y - self.center.y) as i128) * 65536 + (ray.dir.y as i128) * (
        t as i128);
        let rz: i128 = ((ray.origin.z - self.center.z) as i128) * 65536 + (ray.dir.z as i128) * (
        t as i128);
        if rx == 0 && ry == 0 && rz == 0 {
            Vector::new(0, FX_ONE, 0)
        } else {
            let f = fit_dir(rx, ry, rz);
            f.normalize()
        }
    }
}

/// The root parameter computed by the intersection stays within the range
/// the normal computation can represent.
proof fn lemma_root_param_range(num: int, a: int)
    requires
        -0x600000000000 <= num <= 0x600000000000,
        a >= DIR_SQ_MIN,
    ensures
        -0xc00000000000 <= tdiv(num * FX_ONE, 2 * a) <= 0xc00000000000,
{
    lemma_mul_bound(num, FX_ONE as int, 0x600000000000, FX_ONE as int);
    crate::fixed::lemma_tdiv_bound(num * FX_ONE, 2 * a, 0x600000000000 as int * 0x10000);
    vstd::arithmetic::div_mod::lemma_div_is_ordered_by_denominator(
        0x600000000000 as int * 0x10000,
        0x8000,
        2 * a,
    );
}

/// Ranges of the quadratic's coefficients for a well-formed sphere and ray.
proof fn lemma_sphere_terms(s: Sphere, ray: Ray, oc: Vector)
    requires
        s.wf(),
        ray_wf(ray),
        oc == spec_sub(ray.origin, s.center),
    ensures
        in_range(oc, 0x210000000),
        -0x200000000000 <= 2 * spec_dot(ray.dir, oc) <= 0x200000000000,
        0 <= spec_sq_norm(ray.dir) <= 0xc00000000,
        -0x10000000000000 <= spec_sq_norm(oc) - fx_mul_spec(s.radius as int, s.radius as int)
            <= 0x10000000000000,
{
    lemma_fx_comp(ray.dir.x as int, oc.x as int, DIR_MAX as int, 0x210000000);
    lemma_fx_comp(ray.dir.y as int, oc.y as int, DIR_MAX as int, 0x210000000);
    lemma_fx_comp(ray.dir.z as int, oc.z as int, DIR_MAX as int, 0x210000000);
    lemma_fx_comp(ray.dir.x as int, ray.dir.x as int, DIR_MAX as int, DIR_MAX as int);
    lemma_fx_comp(ray.dir.y as int, ray.dir.y as int, DIR_MAX as int, DIR_MAX as int);
    lemma_fx_comp(ray.dir.z as int, ray.dir.z as int, DIR_MAX as int, DIR_MAX as int);
    lemma_fx_comp(oc.x as int, oc.x as int, 0x210000000, 0x210000000);
    lemma_fx_comp(oc.y as int, oc.y as int, 0x210000000, 0x210000000);
    lemma_fx_comp(oc.z as int, oc.z as int, 0x210000000, 0x210000000);
    lemma_fx_comp(s.radius as int, s.radius as int, COORD_MAX as int, COORD_MAX as int);
    lemma_fx_sq_nonneg(ray.dir.x as int);
    lemma_fx_sq_nonneg(ray.dir.y as int);
    lemma_fx_sq_nonneg(ray.dir.z as int);
    lemma_fx_sq_nonneg(oc.x as int);
    lemma_fx_sq_nonneg(oc.y as int);
    lemma_fx_sq_nonneg(oc.z as int);
}

/// A Lambertian surface tinted by its albedo.
pub struct DiffuseMaterial {
    pub color: Color,
}

/// A reflective surface; `fuzz` in `[0, FX_ONE]` perturbs the mirror
/// direction for a glossy look.
pub struct MetalMaterial {
    pub attenuation: Color,
    pub fuzz: i64,
}

/// A refractive surface; `eta_ratio` is the fixed-point ratio of the
/// incident to the transmitted refractive index, signed to express entering
/// versus exiting a medium.
pub struct DielectricMaterial {
    pub eta_ratio: i64,
}

/// The materials of the scene, a closed set; each maps an incident ray, a
/// surface normal and a hit distance to an attenuation and an outgoing ray.
pub enum Material {
    Diffuse(DiffuseMaterial),
    Metal(MetalMaterial),
    Dielectric(DielectricMaterial),
}

impl Material {
    pub open spec fn wf(self) -> bool {
        match self {
            Material::Diffuse(_) => true,
            Material::Metal(m) => 0 <= m.fuzz <= FX_ONE,
            Material::Dielectric(m) => -4 * FX_ONE <= m.eta_ratio <= 4 * FX_ONE,
        }
    }

    /// Whether the material's parameters are in range, decided at run time.
    pub fn is_well_formed(&self) -> (b: bool)
        ensures
            b == self.wf(),
    {
        match self {
            Material::Diffuse(_) => true,
            Material::Metal(m) => 0 <= m.fuzz && m.fuzz <= FX_ONE,
            Material::Dielectric(m) => -4 * FX_ONE <= m.eta_ratio && m.eta_ratio <= 4 * FX_ONE,
        }
    }
}

impl Shape {
    /// Whether the tracer can work with this shape, decided at run time.
    pub fn is_well_formed(&self) -> (b: bool)
        ensures
            b == self.wf(),
    {
        match self {
            Shape::Sphere(sp) => check_range(&sp.center, COORD_MAX) && 1 <= sp.radius && sp.radius
                <= COORD_MAX,
        }
    }
}

/// One scene element: a shape paired with the material on its surface.
pub struct Object {
    pub shape: Shape,
    pub material: Material,
}

impl Object {
    pub open spec fn wf(self) -> bool {
        self.shape.wf() && self.material.wf()
    }
}

/// The scene: an ordered collection of objects, immutable during a render.
pub struct World {
    pub objects: Vec<Object>,
}

impl World {
    pub open spec fn wf(self) -> bool {
        forall|i: int| 0 <= i < self.objects@.len() ==> self.objects@[i].wf()
    }

    /// Whether every object is within the tracer's ranges, decided at run
    /// time, so that unverified callers can test the renderer's
    /// preconditions before asking for work.
    pub fn is_well_formed(&self) -> (b: bool)
        ensures
            b == self.wf(),
    {
        let mut i: usize = 0;
        while i < self.objects.len()
            invariant
                i <= self.objects@.len(),
                forall|k: int| 0 <= k < i ==> self.objects@[k].wf(),
            decreases self.objects@.len() - i,
        {
            let obj = &self.objects[i];
            if !obj.shape.is_well_formed() || !obj.material.is_well_formed() {
                proof {
                    assert(!self.objects@[i as int].wf());
                }
                return false;
            }
            i = i + 1;
        }
        true
    }
}

impl Shape {
    /// The intersection of the ray with this shape.
    pub fn intersect(&self, ray: &Ray) -> (r: Option<(i64, Vector)>)
        requires
            self.wf(),
            ray_wf(*ray),
        ensures
            r == spec_shape_intersect(*self, *ray),
            r is Some ==> in_range(r->Some_0.1, FX_ONE as int + 4),
    {
        match self {
            Shape::Sphere(s) => s.intersect(ray),
        }
    }
}

/// What intersecting the whole scene yields: among the objects whose hit
/// parameter exceeds `EPSILON`, the one with the least parameter, together
/// with its normal and its index; on an exact tie the earliest object wins.
#[verifier::opaque]
pub open spec fn spec_world_intersect(objs: Seq<Object>, ray: Ray) -> Option<(i64, Vector, usize)>
    decreases objs.len(),
{
    if objs.len() == 0 {
        None
    } else {
        let prefix = spec_world_intersect(objs.drop_last(), ray);
        match spec_shape_intersect(objs.last().shape, ray) {
            Option::None => prefix,
            Option::Some((t, n)) => {
                if t <= EPSILON {
                    prefix
                } else {
                    match prefix {
                        Option::None => Some((t, n, (objs.len() - 1) as usize)),
                        Option::Some((tp, np, ip)) => {
                            if tp <= t {
                                prefix
                            } else {
                                Some((t, n, (objs.len() - 1) as usize))
                            }
                        },
                    }
                }
            },
        }
    }
}

/// What a scene intersection carries when it hits: a parameter in
/// beyond `EPSILON`, a near-unit normal, and the index of the hit object,
/// which reports exactly that parameter and normal.
pub proof fn lemma_world_intersect_facts(objs: Seq<Object>, ray: Ray)
    requires
        forall|i: int| 0 <= i < objs.len() ==> objs[i].wf(),
        ray_wf(ray),
        objs.len() <= usize::MAX,
    ensures
        spec_world_intersect(objs, ray) matches Some((t, n, idx)) ==> {
            &&& EPSILON < t
            &&& in_range(n, FX_ONE as int + 4)
            &&& idx < objs.len()
            &&& spec_shape_intersect(objs[idx as int].shape, ray) == Some((t, n))
        },
    decreases objs.len(),
{
    reveal(spec_world_intersect);
    if objs.len() > 0 {
        lemma_world_intersect_facts(objs.drop_last(), ray);
        if spec_world_intersect(objs, ray) matches Some((t, n, idx)) {
            match spec_shape_intersect(objs.last().shape, ray) {
                Option::None => {},
                Option::Some((tl, nl)) => {
                    if tl > EPSILON && (spec_world_intersect(objs.drop_last(), ray) is None
                        || spec_world_intersect(objs, ray) != spec_world_intersect(
                        objs.drop_last(),
                        ray,
                    )) {
                        lemma_shape_intersect_bounds(objs.last().shape, ray);
                    }
                },
            }
        }
    }
}

/// Bounds that any shape intersection observes, at the spec level.
pub proof fn lemma_shape_intersect_bounds(s: Shape, ray: Ray)
    requires
        s.wf(),
        ray_wf(ray),
    ensures
        spec_shape_intersect(s, ray) matches Some((t, n)) ==> in_range(n, FX_ONE as int + 4),
{
    match s {
        Shape::Sphere(sp) => {
            lemma_sphere_intersect_bounds(sp, ray);
        },
    }
}

/// The sphere intersection stays within the scene range and returns a
/// near-unit normal.
proof fn lemma_sphere_intersect_bounds(s: Sphere, ray: Ray)
    requires
        s.wf(),
        ray_wf(ray),
    ensures
        spec_sphere_intersect(s, ray) matches Some((t, n)) ==> in_range(n, FX_ONE as int + 4),
{
    reveal(spec_sphere_intersect);
    if spec_sphere_intersect(s, ray) is Some {
        let oc = spec_sub(ray.origin, s.center);
        let a = spec_sq_norm(ray.dir);
        let b = 2 * spec_dot(ray.dir, oc);
        let c = spec_sq_norm(oc) - fx_mul_spec(s.radius as int, s.radius as int);
        let disc = b * b - 4 * a * c;
        let root = sqrt_floor(disc as nat) as int;
        let t = tdiv((-b - root) * FX_ONE, 2 * a);
        lemma_sphere_terms(s, ray, oc);
        lemma_mul_bound(b, b, 0x200000000000, 0x200000000000);
        lemma_mul_bound(a, c, 0xc00000000, 0x10000000000000);
        assert(4 * (a * c) == 4 * a * c) by (nonlinear_arith);
        lemma_sqrt_in_range(disc);
        lemma_root_param_range(-b - root, a);
        lemma_hit_normal_range(s, ray, t);
    }
}

/// The hit normal is near-unit for any representable root parameter.
proof fn lemma_hit_normal_range(s: Sphere, ray: Ray, t: int)
    requires
        s.wf(),
        ray_wf(ray),
        -0xc00000000000 <= t <= 0xc00000000000,
    ensures
        in_range(spec_hit_normal(s, ray, t), FX_ONE as int + 4),
{
    let rx = (ray.origin.x - s.center.x) * FX_ONE + ray.dir.x * t;
    let ry = (ray.origin.y - s.center.y) * FX_ONE + ray.dir.y * t;
    let rz = (ray.origin.z - s.center.z) * FX_ONE + ray.dir.z * t;
    lemma_mul_bound(ray.dir.x as int, t, DIR_MAX as int, 0xc00000000000);
    lemma_mul_bound(ray.dir.y as int, t, DIR_MAX as int, 0xc00000000000);
    lemma_mul_bound(ray.dir.z as int, t, DIR_MAX as int, 0xc00000000000);
    if rx == 0 && ry == 0 && rz == 0 {
    } else {
        assert(max3(iabs(rx), iabs(ry), iabs(rz)) >= 1);
        lemma_fit_dir(rx, ry, rz);
        crate::vector::lemma_normalize_near_unit(spec_fit_dir(rx, ry, rz));
    }
}

impl World {
    /// The globally nearest valid hit across all objects: its parameter, its
    /// outward unit normal, and the index of the object hit.
    pub fn intersect(&self, ray: &Ray) -> (r: Option<(i64, Vector, usize)>)
        requires
            self.wf(),
            ray_wf(*ray),
        ensures
            r == spec_world_intersect(self.objects@, *ray),
    {
        let mut acc: Option<(i64, Vector, usize)> = None;
        let mut i: usize = 0;
        proof {
            reveal(spec_world_intersect);
            assert(self.objects@.take(0) =~= Seq::<Object>::empty());
        }
        while i < self.objects.len()
            invariant
                i <= self.objects@.len(),
                self.wf(),
                ray_wf(*ray),
                acc == spec_world_intersect(self.objects@.take(i as int), *ray),
            decreases self.objects@.len() - i,
        {
            let obj = &self.objects[i];
            let hit = obj.shape.intersect(ray);
            match hit {
                Option::None => {},
                Option::Some((t, n)) => {
                    if t > EPSILON {
                        match acc {
                            Option::None => {
                                acc = Some((t, n, i));
                            },
                            Option::Some((tp, _, _)) => {
                                if !(tp <= t) {
                                    acc = Some((t, n, i));
                                }
                            },
                        }
                    }
                },
            }
            proof {
                reveal(spec_world_intersect);
                assert(self.objects@.take(i as int + 1).drop_last() =~= self.objects@.take(
                    i as int,
                ));
                assert(self.objects@.take(i as int + 1).last() == self.objects@[i as int]);
            }
            i = i + 1;
        }
        proof {
            assert(self.objects@.take(self.objects@.len() as int) =~= self.objects@);
        }
        acc
    }
}

/// The scene intersection is the globally nearest valid hit: any object the
/// ray hits beyond `EPSILON` is at least as far as the hit returned.
pub proof fn lemma_world_intersect_nearest(objs: Seq<Object>, ray: Ray, i: int, ti: i64, ni: Vector)
    requires
        0 <= i < objs.len(),
        spec_shape_intersect(objs[i].shape, ray) == Some((ti, ni)),
        ti > EPSILON,
    ensures
        spec_world_intersect(objs, ray) is Some,
        spec_world_intersect(objs, ray)->Some_0.0 <= ti,
    decreases objs.len(),
{
    reveal(spec_world_intersect);
    if objs.len() > 0 {
        if i == objs.len() - 1 {
            assert(objs.last() == objs[i]);
        } else {
            lemma_world_intersect_nearest(objs.drop_last(), ray, i, ti, ni);
        }
    }
}

/// What the unit-sphere sampler yields: up to `tries` rejection rounds of
/// three symmetric draws, accepting a vector whose raw squared norm lies
/// between just over a quarter of a square unit and a full square unit,
/// normalized to the sphere; if every round rejects, a fixed axis vector.
/// The lower cutoff keeps normalization accurate and, by radial symmetry,
/// leaves the distribution over directions unbiased.
#[verifier::opaque]
pub open spec fn spec_unit_sample(s: Sampler, tries: nat) -> (Vector, Sampler)
    decreases tries,
{
    if tries == 0 {
        (Vector { x: 0, y: FX_ONE, z: 0 }, s)
    } else {
        let (x, s1) = spec_next_sym(s);
        let (y, s2) = spec_next_sym(s1);
        let (z, s3) = spec_next_sym(s2);
        let v = Vector { x, y, z };
        let q = x * x + y * y + z * z;
        if 0x40030000 <= q < 0x100000000 {
            (spec_normalize(v), s3)
        } else {
            spec_unit_sample(s3, (tries - 1) as nat)
        }
    }
}

/// The raw sum of squared components brackets the rescaled squared norm.
proof fn lemma_raw_sq(v: Vector)
    ensures
        FX_ONE as int * spec_sq_norm(v) <= v.x * v.x + v.y * v.y + v.z * v.z,
        v.x * v.x + v.y * v.y + v.z * v.z < FX_ONE as int * spec_sq_norm(v) + 3 * FX_ONE,
{
    lemma_raw_sq_comp(v.x as int);
    lemma_raw_sq_comp(v.y as int);
    lemma_raw_sq_comp(v.z as int);
    assert(FX_ONE as int * (fx_mul_spec(v.x as int, v.x as int) + fx_mul_spec(
        v.y as int,
        v.y as int,
    ) + fx_mul_spec(v.z as int, v.z as int)) == FX_ONE as int * fx_mul_spec(v.x as int, v.x as int)
        + FX_ONE as int * fx_mul_spec(v.y as int, v.y as int) + FX_ONE as int * fx_mul_spec(
        v.z as int,
        v.z as int,
    )) by (nonlinear_arith);
}

/// One squared component sits within one unit of its rescaling.
proof fn lemma_raw_sq_comp(c: int)
    ensures
        FX_ONE as int * fx_mul_spec(c, c) <= c * c,
        c * c < FX_ONE as int * fx_mul_spec(c, c) + FX_ONE,
{
    lemma_fx_sq_nonneg(c);
    vstd::arithmetic::div_mod::lemma_fundamental_div_mod(c * c, FX_ONE as int);
}

/// The shape every unit-sphere sample has, whatever the sampler: the fixed
/// fallback axis vector, or the normalization of some cube point whose raw
/// squared norm lies in the acceptance band.
pub open spec fn unit_sample_shape(r: Vector) -> bool {
    ||| r == (Vector { x: 0i64, y: FX_ONE, z: 0i64 })
    ||| exists|v: Vector|
        {
            &&& in_range(v, FX_ONE as int)
            &&& 0x40030000 <= v.x * v.x + v.y * v.y + v.z * v.z < 0x100000000
            &&& r == #[trigger] spec_normalize(v)
        }
}

/// A point picked uniformly on the unit sphere: rejection sampling over the
/// cube, normalized; the draws come from the given sampler.
pub fn random_in_unit_sphere(s: &mut Sampler) -> (r: Vector)
    ensures
        in_range(r, FX_ONE as int + 4),
        unit_sample_shape(r),
        old(s).deterministic() ==> r == spec_unit_sample(*old(s), 64).0,
        old(s).deterministic() ==> *final(s) == spec_unit_sample(*old(s), 64).1,
        !old(s).deterministic() ==> *final(s) == *old(s),
        final(s).deterministic() == old(s).deterministic(),
{
    let mut k: usize = 0;
    while k < 64
        invariant
            k <= 64,
            s.deterministic() == old(s).deterministic(),
            old(s).deterministic() ==> spec_unit_sample(*old(s), 64) == spec_unit_sample(
                *s,
                (64 - k) as nat,
            ),
            !old(s).deterministic() ==> *s == *old(s),
        decreases 64 - k,
    {
        proof {
            reveal_with_fuel(spec_unit_sample, 1);
        }
        let ghost pre = *s;
        let x = s.next_sym();
        let y = s.next_sym();
        let z = s.next_sym();
        proof {
            lemma_mul_bound(x as int, x as int, FX_ONE as int, FX_ONE as int);
            lemma_mul_bound(y as int, y as int, FX_ONE as int, FX_ONE as int);
            lemma_mul_bound(z as int, z as int, FX_ONE as int, FX_ONE as int);
            crate::vector::lemma_fx_sq_nonneg(x as int);
            crate::vector::lemma_fx_sq_nonneg(y as int);
            crate::vector::lemma_fx_sq_nonneg(z as int);
        }
        let q: i64 = x * x + y * y + z * z;
        if 0x40030000 <= q && q < 0x100000000 {
            let v = Vector::new(x, y, z);
            proof {
                lemma_raw_sq(v);
                assert(spec_sq_norm(v) >= FX_ONE / 4);
            }
            let r = v.normalize();
            proof {
                assert(unit_sample_shape(r)) by {
                    assert(in_range(v, FX_ONE as int) && 0x40030000 <= v.x * v.x + v.y * v.y + v.z
                        * v.z < 0x100000000 && r == spec_normalize(v));
                }
            }
            return r;
        }
        k = k + 1;
    }
    proof {
        reveal_with_fuel(spec_unit_sample, 1);
    }
    Vector::new(0, FX_ONE, 0)
}

/// The mirror reflection of the ray about the surface normal, leaving from
/// the hit point: `d' = d - 2 (d . n) n`.
pub open spec fn spec_reflect(ray: Ray, n: Vector, t: int) -> Ray {
    Ray { origin: spec_interpolate(ray, t), dir: spec_sub(ray.dir, spec_scale(n, 2 * spec_dot(ray.dir, n))) }
}

/// Inputs every scatter function accepts: a traceable ray, a bounded normal,
/// and a hit parameter within the scene range.
pub open spec fn scatter_pre(ray: Ray, n: Vector, t: int) -> bool {
    &&& ray_wf(ray)
    &&& in_range(n, 3 * FX_ONE as int)
    &&& -T_CAP <= t <= T_CAP
}

/// The mirror reflection of the ray about the normal, from the hit point.
pub fn reflect(ray: &Ray, normal: &Vector, t: i64) -> (r: Ray)
    requires
        scatter_pre(*ray, *normal, t as int),
    ensures
        r == spec_reflect(*ray, *normal, t as int),
        in_range(r.dir, 0x70000000),
{
    let origin = ray.interpolate(t);
    proof {
        lemma_reflect_ranges(*ray, *normal);
    }
    let d = ray.dir.dot_ref(normal);
    let k = 2 * d;
    let dir = ray.dir.sub(&normal.scale(k));
    Ray { origin, dir }
}

/// Ranges of the reflection arithmetic for a traceable ray and a bounded
/// normal: the dot product and the scaled normal stay well inside an `i64`.
proof fn lemma_reflect_ranges(ray: Ray, n: Vector)
    requires
        in_range(ray.dir, DIR_MAX as int),
        in_range(n, 3 * FX_ONE as int),
    ensures
        -0x12000000 <= spec_dot(ray.dir, n) <= 0x12000000,
        in_range(spec_scale(n, 2 * spec_dot(ray.dir, n)), 0x6c000000),
        in_range(spec_sub(ray.dir, spec_scale(n, 2 * spec_dot(ray.dir, n))), 0x6e000000),
{
    assert(DIR_MAX as int * (3 * FX_ONE as int) == 0x60000000000) by (nonlinear_arith);
    assert(3 * FX_ONE as int * 0x24000000 == 0x6c0000000000) by (nonlinear_arith);
    lemma_fx_comp(ray.dir.x as int, n.x as int, DIR_MAX as int, 3 * FX_ONE as int);
    lemma_fx_comp(ray.dir.y as int, n.y as int, DIR_MAX as int, 3 * FX_ONE as int);
    lemma_fx_comp(ray.dir.z as int, n.z as int, DIR_MAX as int, 3 * FX_ONE as int);
    let k = 2 * spec_dot(ray.dir, n);
    lemma_fx_comp(n.x as int, k, 3 * FX_ONE as int, 0x24000000);
    lemma_fx_comp(n.y as int, k, 3 * FX_ONE as int, 0x24000000);
    lemma_fx_comp(n.z as int, k, 3 * FX_ONE as int, 0x24000000);
}

/// A hit point along a traceable ray, for a parameter within the scene
/// range, has bounded components.
pub proof fn lemma_hit_point_range(ray: Ray, t: int)
    requires
        ray_wf(ray),
        -T_CAP <= t <= T_CAP,
    ensures
        in_range(spec_interpolate(ray, t), 0x2200000000),
{
    lemma_fx_comp(ray.dir.x as int, t, DIR_MAX as int, T_CAP as int);
    lemma_fx_comp(ray.dir.y as int, t, DIR_MAX as int, T_CAP as int);
    lemma_fx_comp(ray.dir.z as int, t, DIR_MAX as int, T_CAP as int);
}

/// The attenuation each material applies, independent of any random draw.
pub open spec fn spec_attenuation(m: Material) -> Vector {
    match m {
        Material::Diffuse(d) => spec_from_color(d.color),
        Material::Metal(mm) => spec_from_color(mm.attenuation),
        Material::Dielectric(_) => spec_from_color(Color { red: 255, green: 255, blue: 255 }),
    }
}

/// The cosine term of the dielectric: the negated dot of the normalized
/// incident direction with the normal, the dot saturated at one unit.
pub open spec fn spec_dielectric_cos(ray: Ray, n: Vector) -> int {
    let d = spec_dot(spec_normalize(ray.dir), n);
    if d > FX_ONE {
        -(FX_ONE as int)
    } else {
        -d
    }
}

/// The sine term of the dielectric, from the cosine by the Pythagorean
/// identity; a cosine beyond one unit (possible through rounding) yields zero.
pub open spec fn spec_dielectric_sin(ray: Ray, n: Vector) -> int {
    let cos = spec_dielectric_cos(ray, n);
    let s2 = FX_ONE as int * FX_ONE - cos * cos;
    if s2 >= 0 {
        sqrt_floor(s2 as nat) as int
    } else {
        0
    }
}

/// Whether the dielectric falls back to mirror reflection: total internal
/// reflection holds exactly when `eta_ratio * sin` exceeds one unit.
pub open spec fn spec_dielectric_reflects(m: DielectricMaterial, ray: Ray, n: Vector) -> bool {
    fx_mul_spec(m.eta_ratio as int, spec_dielectric_sin(ray, n)) > FX_ONE
}

/// The refracted direction: the perpendicular part `eta * (u + cos * n)`
/// plus the parallel part `-sqrt(1 - |perp|^2) * n`; a perpendicular part
/// longer than one unit (possible through rounding) gets no parallel part.
pub open spec fn spec_refract_dir(n: Vector, u: Vector, cos: int, eta: int) -> Vector {
    let r_perp = spec_scale(spec_add(spec_scale(n, cos), u), eta);
    let k = FX_ONE as int - spec_sq_norm(r_perp);
    let root = if k >= 0 {
        sqrt_floor((k * FX_ONE) as nat) as int
    } else {
        0
    };
    spec_add(spec_scale(n, -root), r_perp)
}

/// What the dielectric scatters: white attenuation, and either the mirror
/// reflection (total internal reflection) or the refracted direction from the
/// perpendicular/parallel decomposition of Snell's law.
pub open spec fn spec_scatter_dielectric(m: DielectricMaterial, ray: Ray, n: Vector, t: int) -> (
    Vector,
    Ray,
) {
    let white = spec_from_color(Color { red: 255, green: 255, blue: 255 });
    if spec_dielectric_reflects(m, ray, n) {
        (white, spec_reflect(ray, n, t))
    } else {
        let ip = spec_interpolate(ray, t);
        let u = spec_normalize(ray.dir);
        let cos = spec_dielectric_cos(ray, n);
        (white, Ray { origin: ip, dir: spec_refract_dir(n, u, cos, m.eta_ratio as int) })
    }
}

/// The refracted direction, computed from the normal, the normalized
/// incident direction, the saturated cosine, and the index ratio.
fn refract_dir(normal: &Vector, u: &Vector, cos: i64, eta: i64) -> (r: Vector)
    requires
        in_range(*normal, 3 * FX_ONE as int),
        in_range(*u, 3 * FX_ONE as int),
        -0x1b0000 <= cos <= 0x1b0000,
        -4 * FX_ONE <= eta <= 4 * FX_ONE,
    ensures
        r == spec_refract_dir(*normal, *u, cos as int, eta as int),
        in_range(r, 0x80000000),
{
    proof {
        lemma_refract_ranges(*normal, *u, cos as int, eta as int);
    }
    let r_perp = normal.scale(cos).add(u).scale(eta);
    proof {
        lemma_fx_sq_nonneg(r_perp.x as int);
        lemma_fx_sq_nonneg(r_perp.y as int);
        lemma_fx_sq_nonneg(r_perp.z as int);
    }
    let k: i64 = FX_ONE - r_perp.sq_norm();
    let root: i64 = if k >= 0 {
        proof {
            lemma_mul_bound(k as int, 65536, FX_ONE as int, 65536);
            assert(FX_ONE as int * FX_ONE == 0x100000000) by (nonlinear_arith);
            lemma_sin_small(k as int * 65536);
        }
        isqrt((k as u128) * 65536) as i64
    } else {
        0
    };
    let r_par = normal.scale(-root);
    proof {
        lemma_fx_comp(normal.x as int, -root as int, 3 * FX_ONE as int, FX_ONE as int);
        lemma_fx_comp(normal.y as int, -root as int, 3 * FX_ONE as int, FX_ONE as int);
        lemma_fx_comp(normal.z as int, -root as int, 3 * FX_ONE as int, FX_ONE as int);
    }
    r_par.add(&r_perp)
}

/// Ranges of the refraction arithmetic: the scaled normal and the
/// perpendicular part stay well inside an `i64`.
proof fn lemma_refract_ranges(n: Vector, u: Vector, cos: int, eta: int)
    requires
        in_range(n, 3 * FX_ONE as int),
        in_range(u, 3 * FX_ONE as int),
        -0x1b0000 <= cos <= 0x1b0000,
        -4 * FX_ONE <= eta <= 4 * FX_ONE,
    ensures
        in_range(spec_scale(n, cos), 0x510000),
        in_range(spec_add(spec_scale(n, cos), u), 0x540000),
        in_range(spec_scale(spec_add(spec_scale(n, cos), u), eta), 0x1500000),
{
    assert(3 * FX_ONE as int * 0x1b0000 == 0x5100000000) by (nonlinear_arith);
    assert(0x540000 as int * (4 * FX_ONE as int) == 0x15000000000) by (nonlinear_arith);
    lemma_fx_comp(n.x as int, cos, 3 * FX_ONE as int, 0x1b0000);
    lemma_fx_comp(n.y as int, cos, 3 * FX_ONE as int, 0x1b0000);
    lemma_fx_comp(n.z as int, cos, 3 * FX_ONE as int, 0x1b0000);
    let w = spec_add(spec_scale(n, cos), u);
    lemma_fx_comp(w.x as int, eta, 0x540000, 4 * FX_ONE as int);
    lemma_fx_comp(w.y as int, eta, 0x540000, 4 * FX_ONE as int);
    lemma_fx_comp(w.z as int, eta, 0x540000, 4 * FX_ONE as int);
}

/// The structure every scattered direction has, whatever the sampler: with
/// sampling disabled a diffuse surface passes the ray straight through and
/// metal reflects unperturbed; otherwise the direction is the normal (for
/// diffuse) or the reflection (for metal) translated by a unit-sphere
/// sample, the sample scaled by the fuzz for metal; a dielectric's direction
/// is its deterministic reflect-or-refract result.
pub open spec fn scatter_dir_shape(
    m: Material,
    ray: Ray,
    n: Vector,
    t: int,
    disabled: bool,
    dir: Vector,
) -> bool {
    match m {
        Material::Diffuse(_) => {
            if disabled {
                dir == ray.dir
            } else {
                exists|smp: Vector|
                    {
                        &&& unit_sample_shape(smp)
                        &&& in_range(smp, FX_ONE as int + 4)
                        &&& dir == #[trigger] spec_add(n, smp)
                    }
            }
        },
        Material::Metal(mm) => {
            if disabled {
                dir == spec_reflect(ray, n, t).dir
            } else {
                exists|smp: Vector|
                    {
                        &&& unit_sample_shape(smp)
                        &&& in_range(smp, FX_ONE as int + 4)
                        &&& dir == spec_add(
                            spec_reflect(ray, n, t).dir,
                            #[trigger] spec_scale(smp, mm.fuzz as int),
                        )
                    }
            }
        },
        Material::Dielectric(dm) => dir == spec_scatter_dielectric(dm, ray, n, t).1.dir,
    }
}

/// What a material scatters, and the sampler it leaves behind: the
/// attenuation, and the outgoing ray from the hit point. With sampling
/// disabled, diffuse surfaces pass the ray straight through and metal
/// reflects without fuzz.
#[verifier::opaque]
pub open spec fn spec_scatter(m: Material, ray: Ray, n: Vector, t: int, s: Sampler) -> (
    (Vector, Ray),
    Sampler,
) {
    match m {
        Material::Diffuse(d) => {
            let ip = spec_interpolate(ray, t);
            if s is Disabled {
                ((spec_from_color(d.color), Ray { origin: ip, dir: ray.dir }), s)
            } else {
                let (smp, s1) = spec_unit_sample(s, 64);
                ((spec_from_color(d.color), Ray { origin: ip, dir: spec_add(n, smp) }), s1)
            }
        },
        Material::Metal(mm) => {
            let refl = spec_reflect(ray, n, t);
            if s is Disabled {
                ((spec_from_color(mm.attenuation), refl), s)
            } else {
                let (smp, s1) = spec_unit_sample(s, 64);
                ((
                    spec_from_color(mm.attenuation),
                    Ray {
                        origin: refl.origin,
                        dir: spec_add(refl.dir, spec_scale(smp, mm.fuzz as int)),
                    },
                ), s1)
            }
        },
        Material::Dielectric(dm) => (spec_scatter_dielectric(dm, ray, n, t), s),
    }
}

impl DiffuseMaterial {
    /// Lambertian scatter: from the hit point toward a point on the unit
    /// sphere tangent at the normal; the attenuation is the albedo. With
    /// sampling disabled, the ray passes straight through.
    pub fn scatter(&self, ray: &Ray, normal: &Vector, t: i64, s: &mut Sampler) -> (r: (
        Vector,
        Ray,
    ))
        requires
            scatter_pre(*ray, *normal, t as int),
        ensures
            old(s).deterministic() ==> (r, *final(s)) == spec_scatter(
                Material::Diffuse(*self),
                *ray,
                *normal,
                t as int,
                *old(s),
            ),
            scatter_dir_shape(
                Material::Diffuse(*self),
                *ray,
                *normal,
                t as int,
                *old(s) is Disabled,
                r.1.dir,
            ),
            r.0 == spec_attenuation(Material::Diffuse(*self)),
            r.1.origin == spec_interpolate(*ray, t as int),
            in_range(r.1.dir, 0x80000000),
            !old(s).deterministic() ==> *final(s) == *old(s),
            final(s).deterministic() == old(s).deterministic(),
    {
        proof {
            reveal(spec_scatter);
        }
        let ip = ray.interpolate(t);
        proof {
            lemma_hit_point_range(*ray, t as int);
        }
        let att = Vector::from_color(self.color);
        match *s {
            Sampler::Disabled => (att, Ray { origin: ip, dir: ray.dir }),
            _ => {
                let smp = random_in_unit_sphere(s);
                let lambertian_center = ip.add(normal);
                let target = lambertian_center.add(&smp);
                let out = Ray::from_pts(ip, target);
                proof {
                    assert(out.dir == spec_add(*normal, smp));
                    assert(scatter_dir_shape(
                        Material::Diffuse(*self),
                        *ray,
                        *normal,
                        t as int,
                        false,
                        out.dir,
                    )) by {
                        assert(unit_sample_shape(smp) && in_range(smp, FX_ONE as int + 4)
                            && out.dir == spec_add(*normal, smp));
                    }
                }
                (att, out)
            },
        }
    }
}

impl MetalMaterial {
    /// Mirror reflection about the normal, perturbed by `fuzz` times a unit
    /// sphere sample; the attenuation is the base color. With sampling
    /// disabled, the reflection is unperturbed.
    pub fn scatter(&self, ray: &Ray, normal: &Vector, t: i64, s: &mut Sampler) -> (r: (
        Vector,
        Ray,
    ))
        requires
            scatter_pre(*ray, *normal, t as int),
            0 <= self.fuzz <= FX_ONE,
        ensures
            old(s).deterministic() ==> (r, *final(s)) == spec_scatter(
                Material::Metal(*self),
                *ray,
                *normal,
                t as int,
                *old(s),
            ),
            scatter_dir_shape(
                Material::Metal(*self),
                *ray,
                *normal,
                t as int,
                *old(s) is Disabled,
                r.1.dir,
            ),
            r.0 == spec_attenuation(Material::Metal(*self)),
            r.1.origin == spec_interpolate(*ray, t as int),
            in_range(r.1.dir, 0x80000000),
            !old(s).deterministic() ==> *final(s) == *old(s),
            final(s).deterministic() == old(s).deterministic(),
    {
        proof {
            reveal(spec_scatter);
        }
        let reflected = reflect(ray, normal, t);
        let att = Vector::from_color(self.attenuation);
        match *s {
            Sampler::Disabled => (att, reflected),
            _ => {
                let smp = random_in_unit_sphere(s);
                let fuzzed = smp.scale(self.fuzz);
                proof {
                    lemma_fx_comp(smp.x as int, self.fuzz as int, 3 * FX_ONE as int, FX_ONE as int);
                    lemma_fx_comp(smp.y as int, self.fuzz as int, 3 * FX_ONE as int, FX_ONE as int);
                    lemma_fx_comp(smp.z as int, self.fuzz as int, 3 * FX_ONE as int, FX_ONE as int);
                }
                let dir = reflected.dir.add(&fuzzed);
                proof {
                    assert(scatter_dir_shape(
                        Material::Metal(*self),
                        *ray,
                        *normal,
                        t as int,
                        false,
                        dir,
                    )) by {
                        assert(unit_sample_shape(smp) && in_range(smp, FX_ONE as int + 4) && dir
                            == spec_add(
                            spec_reflect(*ray, *normal, t as int).dir,
                            spec_scale(smp, self.fuzz as int),
                        ));
                    }
                }
                (att, Ray { origin: reflected.origin, dir })
            },
        }
    }
}

impl DielectricMaterial {
    /// Refractive scatter: if `eta_ratio * sin` exceeds one unit the surface
    /// reflects (total internal reflection); otherwise the ray refracts by
    /// the perpendicular/parallel decomposition of Snell's law. Attenuation
    /// is white; no randomness is drawn.
    #[verifier::rlimit(100)]
    pub fn scatter(&self, ray: &Ray, normal: &Vector, t: i64, s: &mut Sampler) -> (r: (
        Vector,
        Ray,
    ))
        requires
            scatter_pre(*ray, *normal, t as int),
            -4 * FX_ONE <= self.eta_ratio <= 4 * FX_ONE,
        ensures
            (r, *final(s)) == spec_scatter(
                Material::Dielectric(*self),
                *ray,
                *normal,
                t as int,
                *old(s),
            ),
            scatter_dir_shape(
                Material::Dielectric(*self),
                *ray,
                *normal,
                t as int,
                *old(s) is Disabled,
                r.1.dir,
            ),
            r.0 == spec_attenuation(Material::Dielectric(*self)),
            r.1.origin == spec_interpolate(*ray, t as int),
            in_range(r.1.dir, 0x80000000),
            *final(s) == *old(s),
            final(s).deterministic() == old(s).deterministic(),
    {
        proof {
            reveal(spec_scatter);
        }
        let ip = ray.interpolate(t);
        let u = ray.dir.normalize();
        proof {
            lemma_dielectric_ranges(*ray, *normal, self.eta_ratio as int);
        }
        let d = u.dot_ref(normal);
        let dm = if d > FX_ONE {
            FX_ONE
        } else {
            d
        };
        let cos: i64 = -dm;
        proof {
            assert(cos as int == spec_dielectric_cos(*ray, *normal));
            assert(FX_ONE as int * FX_ONE == 0x100000000) by (nonlinear_arith);
            lemma_mul_bound(cos as int, cos as int, 0x1b0000, 0x1b0000);
            lemma_fx_sq_nonneg(cos as int);
        }
        let s2: i64 = FX_ONE * FX_ONE - cos * cos;
        let sin: i64 = if s2 >= 0 {
            proof {
                lemma_sin_small(s2 as int);
            }
            isqrt(s2 as u128) as i64
        } else {
            0
        };
        proof {
            assert(sin as int == spec_dielectric_sin(*ray, *normal));
            lemma_fx_comp(self.eta_ratio as int, sin as int, 4 * FX_ONE as int, FX_ONE as int);
        }
        let white = Vector::from_color(Color::new(255, 255, 255));
        if fx_mul(self.eta_ratio, sin) > FX_ONE {
            proof {
                assert(spec_dielectric_reflects(*self, *ray, *normal));
            }
            (white, reflect(ray, normal, t))
        } else {
            let dir = refract_dir(normal, &u, cos, self.eta_ratio);
            (white, Ray { origin: ip, dir })
        }
    }
}

/// A square root of a quantity at most a square unit is at most a unit.
proof fn lemma_sin_small(s2: int)
    requires
        0 <= s2 <= FX_ONE as int * FX_ONE,
    ensures
        sqrt_floor(s2 as nat) <= FX_ONE,
        s2 < 0x8000000000000000 * 0x8000000000000000,
{
    lemma_sqrt_floor_bounds(s2 as nat);
    let r = sqrt_floor(s2 as nat);
    if r > FX_ONE {
        assert(r * r > FX_ONE as int * FX_ONE) by (nonlinear_arith)
            requires
                r > FX_ONE,
        ;
    }
}

/// Ranges of the dielectric arithmetic: the saturated cosine is within 27
/// units, its square within a bounded band, and the refracted components
/// stay well inside an `i64`.
proof fn lemma_dielectric_ranges(ray: Ray, n: Vector, eta: int)
    requires
        ray_wf(ray),
        in_range(n, 3 * FX_ONE as int),
        -4 * FX_ONE <= eta <= 4 * FX_ONE,
    ensures
        in_range(spec_normalize(ray.dir), 3 * FX_ONE as int),
        -0x1b0000 <= spec_dot(spec_normalize(ray.dir), n) <= 0x1b0000,
        -0x1b0000 * 0x1b0000 <= spec_dielectric_cos(ray, n) * spec_dielectric_cos(ray, n)
            <= 0x1b0000 as int * 0x1b0000,
{
    crate::vector::lemma_normalize_in_range(ray.dir);
    let u = spec_normalize(ray.dir);
    assert(3 * FX_ONE as int * (3 * FX_ONE as int) == 0x900000000) by (nonlinear_arith);
    lemma_fx_comp(u.x as int, n.x as int, 3 * FX_ONE as int, 3 * FX_ONE as int);
    lemma_fx_comp(u.y as int, n.y as int, 3 * FX_ONE as int, 3 * FX_ONE as int);
    lemma_fx_comp(u.z as int, n.z as int, 3 * FX_ONE as int, 3 * FX_ONE as int);
    let cos = spec_dielectric_cos(ray, n);
    lemma_mul_bound(cos, cos, 0x1b0000, 0x1b0000);
}

impl Material {
    /// What the hit surface does to the ray: the attenuation to apply and
    /// the outgoing ray, by the variant's scatter rule.
    pub fn scatter(&self, ray: &Ray, normal: &Vector, t: i64, s: &mut Sampler) -> (r: (
        Vector,
        Ray,
    ))
        requires
            self.wf(),
            scatter_pre(*ray, *normal, t as int),
        ensures
            old(s).deterministic() ==> (r, *final(s)) == spec_scatter(
                *self,
                *ray,
                *normal,
                t as int,
                *old(s),
            ),
            scatter_dir_shape(*self, *ray, *normal, t as int, *old(s) is Disabled, r.1.dir),
            r.0 == spec_attenuation(*self),
            r.1.origin == spec_interpolate(*ray, t as int),
            in_range(r.1.dir, 0x80000000),
            !old(s).deterministic() ==> *final(s) == *old(s),
            final(s).deterministic() == old(s).deterministic(),
    {
        match self {
            Material::Diffuse(d) => d.scatter(ray, normal, t, s),
            Material::Metal(m) => m.scatter(ray, normal, t, s),
            Material::Dielectric(m) => m.scatter(ray, normal, t, s),
        }
    }
}

/// Whatever the sampler, the unit-sphere sample has near-unit components
/// and the sample shape.
pub proof fn lemma_unit_sample_range(s: Sampler, tries: nat)
    ensures
        in_range(spec_unit_sample(s, tries).0, FX_ONE as int + 4),
        unit_sample_shape(spec_unit_sample(s, tries).0),
    decreases tries,
{
    reveal_with_fuel(spec_unit_sample, 1);
    if tries != 0 {
        let (x, s1) = spec_next_sym(s);
        let (y, s2) = spec_next_sym(s1);
        let (z, s3) = spec_next_sym(s2);
        let v = Vector { x, y, z };
        let q = x * x + y * y + z * z;
        if 0x40030000 <= q < 0x100000000 {
            lemma_raw_sq(v);
            lemma_next_sym_range(s);
            lemma_next_sym_range(s1);
            lemma_next_sym_range(s2);
            assert(spec_sq_norm(v) >= FX_ONE / 4);
            crate::vector::lemma_normalize_near_unit(v);
            assert(unit_sample_shape(spec_unit_sample(s, tries).0)) by {
                assert(in_range(v, FX_ONE as int) && 0x40030000 <= v.x * v.x + v.y * v.y + v.z
                    * v.z < 0x100000000 && spec_unit_sample(s, tries).0 == spec_normalize(v));
            }
        } else {
            lemma_unit_sample_range(s3, (tries - 1) as nat);
        }
    }
}

/// A symmetric draw stays within one unit either way.
proof fn lemma_next_sym_range(s: Sampler)
    ensures
        -FX_ONE <= spec_next_sym(s).0 < FX_ONE,
{
}

/// A translated direction is zero only when the translation exactly cancels
/// the base. With the scatter shape facts this gives the nonzero-direction
/// property for every sampler: a diffuse or metal scatter direction is
/// nonzero unless the drawn sample exactly cancels the normal or the
/// reflection.
pub proof fn lemma_shape_sum_nonzero(base: Vector, q: Vector)
    requires
        in_range(base, 0x70000000),
        in_range(q, 3 * FX_ONE as int),
        q != (Vector { x: (-base.x) as i64, y: (-base.y) as i64, z: (-base.z) as i64 }),
    ensures
        spec_add(base, q) != (Vector { x: 0i64, y: 0i64, z: 0i64 }),
{
    if spec_add(base, q) == (Vector { x: 0i64, y: 0i64, z: 0i64 }) {
        assert(q.x == -base.x && q.y == -base.y && q.z == -base.z);
    }
}

/// A diffuse surface scatters a nonzero direction unless the drawn sample is
/// exactly the negated normal — the one degenerate input.
pub proof fn lemma_diffuse_scatter_nonzero(
    m: DiffuseMaterial,
    ray: Ray,
    n: Vector,
    t: int,
    s: Sampler,
)
    requires
        scatter_pre(ray, n, t),
        !(s is Disabled),
        spec_unit_sample(s, 64).0 != (Vector { x: (-n.x) as i64, y: (-n.y) as i64, z: (-n.z) as i64 }),
    ensures
        spec_scatter(Material::Diffuse(m), ray, n, t, s).0.1.dir != (Vector {
            x: 0i64,
            y: 0i64,
            z: 0i64,
        }),
{
    reveal(spec_scatter);
    lemma_unit_sample_range(s, 64);
    let smp = spec_unit_sample(s, 64).0;
    let dir = spec_add(n, smp);
    if dir == (Vector { x: 0i64, y: 0i64, z: 0i64 }) {
        assert(smp.x == -n.x && smp.y == -n.y && smp.z == -n.z);
    }
}

/// With sampling disabled, a diffuse surface passes the ray straight
/// through, so the scattered direction is the incident one and nonzero.
pub proof fn lemma_diffuse_disabled_straight(m: DiffuseMaterial, ray: Ray, n: Vector, t: int)
    requires
        scatter_pre(ray, n, t),
    ensures
        spec_scatter(Material::Diffuse(m), ray, n, t, Sampler::Disabled).0.1.dir == ray.dir,
        spec_scatter(Material::Diffuse(m), ray, n, t, Sampler::Disabled).0.1.dir != (Vector {
            x: 0i64,
            y: 0i64,
            z: 0i64,
        }),
{
    reveal(spec_scatter);
    if ray.dir == (Vector { x: 0i64, y: 0i64, z: 0i64 }) {
        assert(spec_sq_norm(ray.dir) == 0) by {
            lemma_fx_sq_nonneg(0);
            assert(0int * 0 == 0) by (nonlinear_arith);
        }
    }
}

/// A metal surface scatters a nonzero direction unless the fuzz perturbation
/// exactly cancels the reflection — the one degenerate input; with zero
/// fuzz the scattered direction is the mirror reflection itself.
pub proof fn lemma_metal_scatter_nonzero(m: MetalMaterial, ray: Ray, n: Vector, t: int, s: Sampler)
    requires
        scatter_pre(ray, n, t),
        0 <= m.fuzz <= FX_ONE,
        !(s is Disabled),
        spec_scale(spec_unit_sample(s, 64).0, m.fuzz as int) != (Vector {
            x: (-spec_reflect(ray, n, t).dir.x) as i64,
            y: (-spec_reflect(ray, n, t).dir.y) as i64,
            z: (-spec_reflect(ray, n, t).dir.z) as i64,
        }),
    ensures
        spec_scatter(Material::Metal(m), ray, n, t, s).0.1.dir != (Vector {
            x: 0i64,
            y: 0i64,
            z: 0i64,
        }),
{
    reveal(spec_scatter);
    lemma_unit_sample_range(s, 64);
    lemma_reflect_ranges(ray, n);
    let smp = spec_unit_sample(s, 64).0;
    let refl = spec_reflect(ray, n, t);
    lemma_fx_comp(smp.x as int, m.fuzz as int, 3 * FX_ONE as int, FX_ONE as int);
    lemma_fx_comp(smp.y as int, m.fuzz as int, 3 * FX_ONE as int, FX_ONE as int);
    lemma_fx_comp(smp.z as int, m.fuzz as int, 3 * FX_ONE as int, FX_ONE as int);
    let pert = spec_scale(smp, m.fuzz as int);
    let dir = spec_add(refl.dir, pert);
    if dir == (Vector { x: 0i64, y: 0i64, z: 0i64 }) {
        assert(pert.x == -refl.dir.x && pert.y == -refl.dir.y && pert.z == -refl.dir.z);
    }
}

/// The dielectric's choice is governed exactly by `eta_ratio * sin` against
/// one unit: beyond it the surface reflects, otherwise it refracts.
pub proof fn lemma_dielectric_decision(
    m: DielectricMaterial,
    ray: Ray,
    n: Vector,
    t: int,
    s: Sampler,
)
    ensures
        spec_dielectric_reflects(m, ray, n) <==> fx_mul_spec(
            m.eta_ratio as int,
            spec_dielectric_sin(ray, n),
        ) > FX_ONE,
        spec_dielectric_reflects(m, ray, n) ==> spec_scatter(
            Material::Dielectric(m),
            ray,
            n,
            t,
            s,
        ).0.1 == spec_reflect(ray, n, t),
        !spec_dielectric_reflects(m, ray, n) ==> spec_scatter(
            Material::Dielectric(m),
            ray,
            n,
            t,
            s,
        ).0.1 == (Ray {
            origin: spec_interpolate(ray, t),
            dir: spec_refract_dir(
                n,
                spec_normalize(ray.dir),
                spec_dielectric_cos(ray, n),
                m.eta_ratio as int,
            ),
        }),
{
    reveal(spec_scatter);
}

/// A refracting dielectric scatters a nonzero direction unless the parallel
/// part exactly cancels the perpendicular part — the one degenerate input.
pub proof fn lemma_dielectric_refract_nonzero(
    m: DielectricMaterial,
    ray: Ray,
    n: Vector,
    t: int,
    s: Sampler,
)
    requires
        scatter_pre(ray, n, t),
        -4 * FX_ONE <= m.eta_ratio <= 4 * FX_ONE,
        !spec_dielectric_reflects(m, ray, n),
        ({
            let u = spec_normalize(ray.dir);
            let cos = spec_dielectric_cos(ray, n);
            let r_perp = spec_scale(spec_add(spec_scale(n, cos), u), m.eta_ratio as int);
            let k = FX_ONE as int - spec_sq_norm(r_perp);
            let root = if k >= 0 {
                sqrt_floor((k * FX_ONE) as nat) as int
            } else {
                0
            };
            spec_scale(n, -root) != (Vector {
                x: (-r_perp.x) as i64,
                y: (-r_perp.y) as i64,
                z: (-r_perp.z) as i64,
            })
        }),
    ensures
        spec_scatter(Material::Dielectric(m), ray, n, t, s).0.1.dir != (Vector {
            x: 0i64,
            y: 0i64,
            z: 0i64,
        }),
{
    reveal(spec_scatter);
    crate::vector::lemma_normalize_in_range(ray.dir);
    lemma_dielectric_ranges(ray, n, m.eta_ratio as int);
    let u = spec_normalize(ray.dir);
    let cos = spec_dielectric_cos(ray, n);
    lemma_refract_ranges(n, u, cos, m.eta_ratio as int);
    let r_perp = spec_scale(spec_add(spec_scale(n, cos), u), m.eta_ratio as int);
    let k = FX_ONE as int - spec_sq_norm(r_perp);
    let root = if k >= 0 {
        sqrt_floor((k * FX_ONE) as nat) as int
    } else {
        0
    };
    if k >= 0 {
        lemma_fx_sq_nonneg(r_perp.x as int);
        lemma_fx_sq_nonneg(r_perp.y as int);
        lemma_fx_sq_nonneg(r_perp.z as int);
        lemma_sin_small(k * FX_ONE);
    }
    lemma_fx_comp(n.x as int, -root, 3 * FX_ONE as int, FX_ONE as int);
    lemma_fx_comp(n.y as int, -root, 3 * FX_ONE as int, FX_ONE as int);
    lemma_fx_comp(n.z as int, -root, 3 * FX_ONE as int, FX_ONE as int);
    let r_par = spec_scale(n, -root);
    let dir = spec_add(r_par, r_perp);
    if dir == (Vector { x: 0i64, y: 0i64, z: 0i64 }) {
        assert(r_par.x == -r_perp.x && r_par.y == -r_perp.y && r_par.z == -r_perp.z);
    }
}

/// The background gradient: a vertical blend between white at the horizon
/// and a pale blue at the zenith, read off the ray direction's vertical
/// component after normalization; the hit point plays no part. The blend
/// parameter is clamped to the unit interval, which only absorbs the few
/// sixty-five-thousandths by which fixed-point normalization can overshoot,
/// and keeps the gradient inside the unit color cube.
#[verifier::opaque]
pub open spec fn spec_background(r: Ray) -> Vector {
    let u = spec_normalize(r.dir);
    let t0 = tdiv(u.y + FX_ONE, 2);
    let t = if t0 < 0 {
        0
    } else if t0 > FX_ONE {
        FX_ONE as int
    } else {
        t0
    };
    spec_add(
        spec_scale(Vector { x: FX_ONE, y: FX_ONE, z: FX_ONE }, FX_ONE as int - t),
        spec_scale(Vector { x: 32768, y: 45875, z: 65536 }, t),
    )
}

/// The background gradient at the ray's direction, inside the unit cube.
pub fn background(ray: &Ray) -> (r: Vector)
    requires
        in_range(ray.dir, VR_MAX as int),
        spec_sq_norm(ray.dir) >= FX_ONE / 4,
    ensures
        r == spec_background(*ray),
        r.x >= 0 && r.y >= 0 && r.z >= 0,
        in_range(r, FX_ONE as int),
{
    proof {
        reveal(spec_background);
    }
    let u = ray.dir.normalize();
    let shifted: i64 = u.y + FX_ONE;
    let t0: i64 = if shifted >= 0 {
        crate::fixed::div_nonneg(shifted, 2)
    } else {
        -crate::fixed::div_nonneg(-shifted, 2)
    };
    let t: i64 = if t0 < 0 {
        0
    } else if t0 > FX_ONE {
        FX_ONE
    } else {
        t0
    };
    let white = Vector::new(FX_ONE, FX_ONE, FX_ONE);
    let sky = Vector::new(32768, 45875, 65536);
    proof {
        crate::fixed::lemma_tdiv_exact(FX_ONE as int - t, FX_ONE as int);
        assert((FX_ONE as int - t) * FX_ONE == FX_ONE as int * (FX_ONE as int - t))
            by (nonlinear_arith);
        lemma_unit_scale(32768, t as int);
        lemma_unit_scale(45875, t as int);
        lemma_unit_scale(FX_ONE as int, t as int);
    }
    white.scale(FX_ONE - t).add(&sky.scale(t))
}

/// Scaling a unit-interval value by a unit-interval factor yields at most
/// the factor.
proof fn lemma_unit_scale(a: int, t: int)
    requires
        0 <= a <= FX_ONE,
        0 <= t <= FX_ONE,
    ensures
        0 <= fx_mul_spec(a, t) <= t,
        -0x7fffffffffffffff * 0x10000 <= a * t <= 0x7fffffffffffffff as int * 0x10000,
{
    lemma_mul_bound(a, t, FX_ONE as int, FX_ONE as int);
    assert(a * t <= FX_ONE as int * t) by (nonlinear_arith)
        requires
            0 <= a <= FX_ONE,
            0 <= t,
    ;
    assert(a * t >= 0) by (nonlinear_arith)
        requires
            0 <= a,
            0 <= t,
    ;
    vstd::arithmetic::div_mod::lemma_div_is_ordered(a * t, FX_ONE as int * t, FX_ONE as int);
    crate::fixed::lemma_tdiv_exact(t, FX_ONE as int);
    assert(t * FX_ONE == FX_ONE as int * t) by (nonlinear_arith);
    vstd::arithmetic::div_mod::lemma_div_pos_is_pos(a * t, FX_ONE as int);
}

/// Whether the ray can be traced further: the well-formedness of `ray_wf`,
/// decided at run time.
pub(crate) fn ray_ok(r: &Ray) -> (b: bool)
    requires
        in_range(r.origin, VR_SUM as int),
        in_range(r.dir, VR_MAX as int),
    ensures
        b == ray_wf(*r),
{
    if !check_range(&r.origin, ORIGIN_MAX) {
        return false;
    }
    if !check_range(&r.dir, DIR_MAX) {
        return false;
    }
    r.dir.sq_norm() >= DIR_SQ_MIN
}

/// The attenuation any material applies stays in the unit cube.
pub proof fn lemma_attenuation_range(m: Material)
    ensures
        in_range(spec_attenuation(m), FX_ONE as int),
        spec_attenuation(m).x >= 0,
        spec_attenuation(m).y >= 0,
        spec_attenuation(m).z >= 0,
{
    match m {
        Material::Diffuse(d) => lemma_from_color_range(d.color),
        Material::Metal(mm) => lemma_from_color_range(mm.attenuation),
        Material::Dielectric(_) => lemma_from_color_range(
            Color { red: 255, green: 255, blue: 255 },
        ),
    }
}

/// The state machine of one traced ray, from the current ray and the
/// attenuation accumulated so far: on a miss, the background at the current
/// direction times the accumulation; on a hit, scatter, attenuate, and
/// recurse with one bounce fewer; with the budget exhausted, black. A hit
/// beyond the representable scene range, and a scattered ray that
/// degenerates or leaves the representable scene volume, are treated as
/// escaped to the background.
#[verifier::opaque]
pub open spec fn spec_trace(objs: Seq<Object>, r: Ray, color: Vector, s: Sampler, fuel: nat) -> (
    Vector,
    Sampler,
)
    decreases fuel,
{
    if fuel == 0 {
        (Vector { x: 0, y: 0, z: 0 }, s)
    } else {
        match spec_world_intersect(objs, r) {
            Option::None => (spec_mul_elem(spec_background(r), color), s),
            Option::Some((t, n, idx)) => {
                if t > T_CAP {
                    (spec_mul_elem(spec_background(r), color), s)
                } else {
                    let scat = spec_scatter(objs[idx as int].material, r, n, t as int, s);
                    let att = scat.0.0;
                    let r2 = scat.0.1;
                    let s2 = scat.1;
                    let color2 = spec_mul_elem(color, att);
                    if ray_wf(r2) {
                        spec_trace(objs, r2, color2, s2, (fuel - 1) as nat)
                    } else {
                        (spec_mul_elem(spec_background(r), color2), s2)
                    }
                }
            },
        }
    }
}

/// One unfolding of the trace on a miss: the background at the current
/// direction, times the accumulated attenuation.
proof fn lemma_trace_miss(objs: Seq<Object>, r: Ray, color: Vector, s: Sampler, fuel: nat)
    requires
        fuel >= 1,
        spec_world_intersect(objs, r) is None,
    ensures
        spec_trace(objs, r, color, s, fuel) == (spec_mul_elem(spec_background(r), color), s),
{
    reveal_with_fuel(spec_trace, 1);
}

/// One unfolding of the trace on a hit beyond the scene range: the
/// background at the current direction, times the accumulated attenuation.
proof fn lemma_trace_far(
    objs: Seq<Object>,
    r: Ray,
    color: Vector,
    s: Sampler,
    fuel: nat,
    t: i64,
    n: Vector,
    idx: usize,
)
    requires
        fuel >= 1,
        spec_world_intersect(objs, r) == Some((t, n, idx)),
        t > T_CAP,
    ensures
        spec_trace(objs, r, color, s, fuel) == (spec_mul_elem(spec_background(r), color), s),
{
    reveal_with_fuel(spec_trace, 1);
}

/// One unfolding of the trace on a hit: scatter, attenuate, and either
/// recurse on the outgoing ray or escape to the background at the incoming
/// direction.
proof fn lemma_trace_step(
    objs: Seq<Object>,
    prev: Ray,
    color0: Vector,
    s_prev: Sampler,
    fuel: nat,
    att: Vector,
    out_ray: Ray,
    s_next: Sampler,
    t: i64,
    n: Vector,
    idx: usize,
)
    requires
        fuel >= 1,
        t <= T_CAP,
        spec_world_intersect(objs, prev) == Some((t, n, idx)),
        ((att, out_ray), s_next) == spec_scatter(
            objs[idx as int].material,
            prev,
            n,
            t as int,
            s_prev,
        ),
    ensures
        ray_wf(out_ray) ==> spec_trace(objs, prev, color0, s_prev, fuel) == spec_trace(
            objs,
            out_ray,
            spec_mul_elem(color0, att),
            s_next,
            (fuel - 1) as nat,
        ),
        !ray_wf(out_ray) ==> spec_trace(objs, prev, color0, s_prev, fuel) == (
            spec_mul_elem(spec_background(prev), spec_mul_elem(color0, att)),
            s_next,
        ),
{
    reveal_with_fuel(spec_trace, 1);
}

/// The trace with no fuel left is black.
proof fn lemma_trace_spent(objs: Seq<Object>, r: Ray, color: Vector, s: Sampler)
    ensures
        spec_trace(objs, r, color, s, 0) == (Vector { x: 0i64, y: 0i64, z: 0i64 }, s),
{
    reveal_with_fuel(spec_trace, 1);
}

impl World {
    /// The color a traced ray brings back: the product of the attenuations
    /// along its bounce chain times the background where it escapes, black
    /// if the bounce budget runs out. With a deterministic sampler the
    /// result is exactly the `spec_trace` state machine.
    #[verifier::rlimit(100)]
    pub fn color_at(&self, ray: &Ray, s: &mut Sampler) -> (c: Vector)
        requires
            self.wf(),
            ray_wf(*ray),
        ensures
            old(s).deterministic() ==> c == spec_trace(
                self.objects@,
                *ray,
                Vector { x: FX_ONE, y: FX_ONE, z: FX_ONE },
                *old(s),
                RAY_BOUNCE_DEPTH as nat,
            ).0,
            old(s).deterministic() ==> *final(s) == spec_trace(
                self.objects@,
                *ray,
                Vector { x: FX_ONE, y: FX_ONE, z: FX_ONE },
                *old(s),
                RAY_BOUNCE_DEPTH as nat,
            ).1,
            0 <= c.x <= FX_ONE && 0 <= c.y <= FX_ONE && 0 <= c.z <= FX_ONE,
            !old(s).deterministic() ==> *final(s) == *old(s),
            final(s).deterministic() == old(s).deterministic(),
    {
        let ghost objs = self.objects@;
        let ghost s0 = *s;
        proof {
            assert(objs.len() <= usize::MAX) by {
                assert(self.objects@.len() == self.objects.len());
            }
        }
        let mut r: Ray = *ray;
        let mut color = Vector::new(FX_ONE, FX_ONE, FX_ONE);
        let mut j: usize = 0;
        let mut finished = false;
        let mut result = Vector::new(0, 0, 0);
        while !finished && j < RAY_BOUNCE_DEPTH
            invariant
                j <= RAY_BOUNCE_DEPTH,
                self.wf(),
                objs == self.objects@,
                objs.len() <= usize::MAX,
                s.deterministic() == s0.deterministic(),
                !s0.deterministic() ==> *s == s0,
                !finished ==> {
                    &&& ray_wf(r)
                    &&& in_range(color, FX_ONE as int)
                    &&& color.x >= 0 && color.y >= 0 && color.z >= 0
                },
                !finished && s0.deterministic() ==> spec_trace(
                    objs,
                    *ray,
                    Vector { x: FX_ONE, y: FX_ONE, z: FX_ONE },
                    s0,
                    RAY_BOUNCE_DEPTH as nat,
                ) == spec_trace(objs, r, color, *s, (RAY_BOUNCE_DEPTH - j) as nat),
                finished && s0.deterministic() ==> (result, *s) == spec_trace(
                    objs,
                    *ray,
                    Vector { x: FX_ONE, y: FX_ONE, z: FX_ONE },
                    s0,
                    RAY_BOUNCE_DEPTH as nat,
                ),
                finished ==> 0 <= result.x <= FX_ONE && 0 <= result.y <= FX_ONE && 0
                    <= result.z <= FX_ONE,
            decreases RAY_BOUNCE_DEPTH - j, if finished {
                0int
            } else {
                1int
            },
        {
            match self.intersect(&r) {
                Option::None => {
                    let base = background(&r);
                    proof {
                        lemma_unit_interval_mul(base.x as int, color.x as int);
                        lemma_unit_interval_mul(base.y as int, color.y as int);
                        lemma_unit_interval_mul(base.z as int, color.z as int);
                        if s0.deterministic() {
                            lemma_trace_miss(objs, r, color, *s, (RAY_BOUNCE_DEPTH - j) as nat);
                        }
                    }
                    result = base.mul_elem(&color);
                    finished = true;
                },
                Option::Some((t, n, idx)) => {
                    proof {
                        lemma_world_intersect_facts(objs, r);
                    }
                    if t > T_CAP {
                        let base = background(&r);
                        proof {
                            lemma_unit_interval_mul(base.x as int, color.x as int);
                            lemma_unit_interval_mul(base.y as int, color.y as int);
                            lemma_unit_interval_mul(base.z as int, color.z as int);
                            if s0.deterministic() {
                                lemma_trace_far(
                                    objs,
                                    r,
                                    color,
                                    *s,
                                    (RAY_BOUNCE_DEPTH - j) as nat,
                                    t,
                                    n,
                                    idx,
                                );
                            }
                        }
                        result = base.mul_elem(&color);
                        finished = true;
                    } else {
                        let prev = r;
                        let ghost s_prev = *s;
                        let ghost color0 = color;
                        let obj = &self.objects[idx];
                        let scat = obj.material.scatter(&prev, &n, t, s);
                        let att = scat.0;
                        let out_ray = scat.1;
                        proof {
                            lemma_attenuation_range(obj.material);
                            lemma_unit_interval_mul(color.x as int, att.x as int);
                            lemma_unit_interval_mul(color.y as int, att.y as int);
                            lemma_unit_interval_mul(color.z as int, att.z as int);
                        }
                        color = color.mul_elem(&att);
                        proof {
                            lemma_hit_point_range(prev, t as int);
                            if s0.deterministic() {
                                lemma_trace_step(
                                    objs,
                                    prev,
                                    color0,
                                    s_prev,
                                    (RAY_BOUNCE_DEPTH - j) as nat,
                                    att,
                                    out_ray,
                                    *s,
                                    t,
                                    n,
                                    idx,
                                );
                            }
                        }
                        if ray_ok(&out_ray) {
                            r = out_ray;
                            j = j + 1;
                        } else {
                            let base = background(&prev);
                            proof {
                                lemma_unit_interval_mul(base.x as int, color.x as int);
                                lemma_unit_interval_mul(base.y as int, color.y as int);
                                lemma_unit_interval_mul(base.z as int, color.z as int);
                            }
                            result = base.mul_elem(&color);
                            finished = true;
                        }
                    }
                },
            }
        }
        if finished {
            result
        } else {
            proof {
                if s0.deterministic() {
                    lemma_trace_spent(objs, r, color, *s);
                }
            }
            Vector::new(0, 0, 0)
        }
    }
}

/// The square root of a bounded discriminant fits well inside an `i64`.
proof fn lemma_sqrt_in_range(disc: int)
    requires
        0 <= disc <= 0x200000000000 * 0x200000000000 + 4 * (0xc00000000 * 0x10000000000000),
    ensures
        sqrt_floor(disc as nat) <= 0x400000000000,
        disc < 0x8000000000000000 * 0x8000000000000000,
{
    lemma_sqrt_floor_bounds(disc as nat);
    let r = sqrt_floor(disc as nat);
    if r > 0x400000000000 {
        assert(r * r > 0x400000000000 as int * 0x400000000000) by (nonlinear_arith)
            requires
                r > 0x400000000000,
        ;
    }
}

} // verus!
