//! 3-D vectors and rays over fixed-point scalars.
//!
//! A `Vector` serves as a point, a direction, and a linear color whose
//! components stand for reals via the 16.16 scale of `fixed`. Every
//! operation has an exact integer specification, so contracts downstream
//! can pin results down to the bit.

use vstd::prelude::*;

verus! {

use crate::color::Color;
use crate::fixed::FX_ONE;
use crate::fixed::fx_div;
use crate::fixed::fx_div_spec;
use crate::fixed::fx_mul;
use crate::fixed::fx_mul_spec;
use crate::fixed::isqrt;
use crate::fixed::lemma_mul_bound;
use crate::fixed::lemma_sqrt_floor_bounds;
use crate::fixed::lemma_tdiv_bound;
use crate::fixed::lemma_tdiv_exact;
use crate::fixed::sqrt_floor;
use crate::fixed::tdiv;

/// Component bound under which the products taken by `dot`, `cross`,
/// `sq_norm` and the elementwise operations stay well inside an `i64`.
pub const VR_MAX: i64 = 0x4000000000;

/// Component bound under which sums and differences stay inside an `i64`.
pub const VR_SUM: i64 = 0x2000000000000000;

#[derive(Clone, Copy, Debug, PartialEq, Eq, Structural)]
pub struct Vector {
    pub x: i64,
    pub y: i64,
    pub z: i64,
}

/// Every component of `v` lies within `b` of zero.
pub open spec fn in_range(v: Vector, b: int) -> bool {
    &&& -b <= v.x <= b
    &&& -b <= v.y <= b
    &&& -b <= v.z <= b
}

pub open spec fn spec_add(a: Vector, b: Vector) -> Vector {
    Vector { x: (a.x + b.x) as i64, y: (a.y + b.y) as i64, z: (a.z + b.z) as i64 }
}

pub open spec fn spec_sub(a: Vector, b: Vector) -> Vector {
    Vector { x: (a.x - b.x) as i64, y: (a.y - b.y) as i64, z: (a.z - b.z) as i64 }
}

pub open spec fn spec_mul_elem(a: Vector, b: Vector) -> Vector {
    Vector {
        x: fx_mul_spec(a.x as int, b.x as int) as i64,
        y: fx_mul_spec(a.y as int, b.y as int) as i64,
        z: fx_mul_spec(a.z as int, b.z as int) as i64,
    }
}

pub open spec fn spec_scale(v: Vector, t: int) -> Vector {
    Vector {
        x: fx_mul_spec(v.x as int, t) as i64,
        y: fx_mul_spec(v.y as int, t) as i64,
        z: fx_mul_spec(v.z as int, t) as i64,
    }
}

pub open spec fn spec_dot(a: Vector, b: Vector) -> int {
    fx_mul_spec(a.x as int, b.x as int) + fx_mul_spec(a.y as int, b.y as int) + fx_mul_spec(
        a.z as int,
        b.z as int,
    )
}

pub open spec fn spec_cross(a: Vector, b: Vector) -> Vector {
    Vector {
        x: (fx_mul_spec(a.y as int, b.z as int) - fx_mul_spec(a.z as int, b.y as int)) as i64,
        y: (fx_mul_spec(a.z as int, b.x as int) - fx_mul_spec(a.x as int, b.z as int)) as i64,
        z: (fx_mul_spec(a.x as int, b.y as int) - fx_mul_spec(a.y as int, b.x as int)) as i64,
    }
}

pub open spec fn spec_sq_norm(v: Vector) -> int {
    spec_dot(v, v)
}

/// The fixed-point length of `v`: the square root of the squared norm,
/// rescaled so that a unit vector has norm `FX_ONE`.
pub open spec fn spec_norm(v: Vector) -> int {
    sqrt_floor((spec_sq_norm(v) * FX_ONE) as nat) as int
}

/// A color read as a linear vector with components in `[0, FX_ONE]`.
pub open spec fn spec_from_color(c: Color) -> Vector {
    Vector {
        x: tdiv(c.red as int * FX_ONE, 255) as i64,
        y: tdiv(c.green as int * FX_ONE, 255) as i64,
        z: tdiv(c.blue as int * FX_ONE, 255) as i64,
    }
}

pub open spec fn spec_normalize(v: Vector) -> Vector {
    Vector {
        x: fx_div_spec(v.x as int, spec_norm(v)) as i64,
        y: fx_div_spec(v.y as int, spec_norm(v)) as i64,
        z: fx_div_spec(v.z as int, spec_norm(v)) as i64,
    }
}

/// The fixed-point product of two components in `VR_MAX` range both fits the
/// machine and stays within the product of the bounds, rescaled.
pub proof fn lemma_fx_comp(a: int, b: int, ma: int, mb: int)
    requires
        -ma <= a <= ma,
        -mb <= b <= mb,
        0 <= ma <= VR_MAX as int,
        0 <= mb <= VR_MAX as int,
    ensures
        -0x7fffffffffffffff * 0x10000 <= a * b <= 0x7fffffffffffffff as int * 0x10000,
        -((ma * mb) / (FX_ONE as int)) <= fx_mul_spec(a, b) <= (ma * mb) / (FX_ONE as int),
        -0x1000000000000000 <= fx_mul_spec(a, b) <= 0x1000000000000000,
{
    lemma_mul_bound(a, b, ma, mb);
    lemma_mul_bound(ma, mb, VR_MAX as int, VR_MAX as int);
    lemma_tdiv_bound(a * b, FX_ONE as int, ma * mb);
    lemma_tdiv_bound(a * b, FX_ONE as int, 0x4000000000 as int * 0x4000000000);
    vstd::arithmetic::div_mod::lemma_div_is_ordered(
        ma * mb,
        0x4000000000 as int * 0x4000000000,
        FX_ONE as int,
    );
}

/// A square is never negative, so neither is its rescaling.
pub proof fn lemma_fx_sq_nonneg(a: int)
    ensures
        fx_mul_spec(a, a) >= 0,
        a * a >= 0,
{
    assert(a * a >= 0) by (nonlinear_arith);
    if a * a >= 0 {
        vstd::arithmetic::div_mod::lemma_div_pos_is_pos(a * a, FX_ONE as int);
    }
}

impl Vector {
    pub fn new(x: i64, y: i64, z: i64) -> (r: Vector)
        ensures
            r == (Vector { x, y, z }),
    {
        Vector { x, y, z }
    }

    pub fn add(&self, other: &Vector) -> (r: Vector)
        requires
            in_range(*self, VR_SUM as int),
            in_range(*other, VR_SUM as int),
        ensures
            r == spec_add(*self, *other),
            r.x == self.x + other.x,
            r.y == self.y + other.y,
            r.z == self.z + other.z,
    {
        Vector { x: self.x + other.x, y: self.y + other.y, z: self.z + other.z }
    }

    pub fn sub(&self, other: &Vector) -> (r: Vector)
        requires
            in_range(*self, VR_SUM as int),
            in_range(*other, VR_SUM as int),
        ensures
            r == spec_sub(*self, *other),
            r.x == self.x - other.x,
            r.y == self.y - other.y,
            r.z == self.z - other.z,
    {
        Vector { x: self.x - other.x, y: self.y - other.y, z: self.z - other.z }
    }

    /// The componentwise fixed-point product; colors attenuate this way.
    pub fn mul_elem(&self, other: &Vector) -> (r: Vector)
        requires
            in_range(*self, VR_MAX as int),
            in_range(*other, VR_MAX as int),
        ensures
            r == spec_mul_elem(*self, *other),
            r.x == fx_mul_spec(self.x as int, other.x as int),
            r.y == fx_mul_spec(self.y as int, other.y as int),
            r.z == fx_mul_spec(self.z as int, other.z as int),
    {
        proof {
            lemma_fx_comp(self.x as int, other.x as int, VR_MAX as int, VR_MAX as int);
            lemma_fx_comp(self.y as int, other.y as int, VR_MAX as int, VR_MAX as int);
            lemma_fx_comp(self.z as int, other.z as int, VR_MAX as int, VR_MAX as int);
        }
        Vector {
            x: fx_mul(self.x, other.x),
            y: fx_mul(self.y, other.y),
            z: fx_mul(self.z, other.z),
        }
    }

    /// The vector scaled by the fixed-point factor `t`.
    pub fn scale(&self, t: i64) -> (r: Vector)
        requires
            in_range(*self, VR_MAX as int),
            -VR_MAX <= t <= VR_MAX,
        ensures
            r == spec_scale(*self, t as int),
            r.x == fx_mul_spec(self.x as int, t as int),
            r.y == fx_mul_spec(self.y as int, t as int),
            r.z == fx_mul_spec(self.z as int, t as int),
    {
        proof {
            lemma_fx_comp(self.x as int, t as int, VR_MAX as int, VR_MAX as int);
            lemma_fx_comp(self.y as int, t as int, VR_MAX as int, VR_MAX as int);
            lemma_fx_comp(self.z as int, t as int, VR_MAX as int, VR_MAX as int);
        }
        Vector { x: fx_mul(self.x, t), y: fx_mul(self.y, t), z: fx_mul(self.z, t) }
    }

    pub fn dot(self, other: Vector) -> (r: i64)
        requires
            in_range(self, VR_MAX as int),
            in_range(other, VR_MAX as int),
        ensures
            r == spec_dot(self, other),
    {
        self.dot_ref(&other)
    }

    pub fn dot_ref(&self, other: &Vector) -> (r: i64)
        requires
            in_range(*self, VR_MAX as int),
            in_range(*other, VR_MAX as int),
        ensures
            r == spec_dot(*self, *other),
    {
        proof {
            lemma_fx_comp(self.x as int, other.x as int, VR_MAX as int, VR_MAX as int);
            lemma_fx_comp(self.y as int, other.y as int, VR_MAX as int, VR_MAX as int);
            lemma_fx_comp(self.z as int, other.z as int, VR_MAX as int, VR_MAX as int);
        }
        fx_mul(self.x, other.x) + fx_mul(self.y, other.y) + fx_mul(self.z, other.z)
    }

    pub fn cross(&self, other: &Vector) -> (r: Vector)
        requires
            in_range(*self, VR_MAX as int),
            in_range(*other, VR_MAX as int),
        ensures
            r == spec_cross(*self, *other),
    {
        proof {
            lemma_fx_comp(self.y as int, other.z as int, VR_MAX as int, VR_MAX as int);
            lemma_fx_comp(self.z as int, other.y as int, VR_MAX as int, VR_MAX as int);
            lemma_fx_comp(self.z as int, other.x as int, VR_MAX as int, VR_MAX as int);
            lemma_fx_comp(self.x as int, other.z as int, VR_MAX as int, VR_MAX as int);
            lemma_fx_comp(self.x as int, other.y as int, VR_MAX as int, VR_MAX as int);
            lemma_fx_comp(self.y as int, other.x as int, VR_MAX as int, VR_MAX as int);
        }
        Vector {
            x: fx_mul(self.y, other.z) - fx_mul(self.z, other.y),
            y: fx_mul(self.z, other.x) - fx_mul(self.x, other.z),
            z: fx_mul(self.x, other.y) - fx_mul(self.y, other.x),
        }
    }

    /// The squared norm, in fixed-point scale; never negative.
    pub fn sq_norm(&self) -> (r: i64)
        requires
            in_range(*self, VR_MAX as int),
        ensures
            r == spec_sq_norm(*self),
            r >= 0,
    {
        proof {
            lemma_fx_sq_nonneg(self.x as int);
            lemma_fx_sq_nonneg(self.y as int);
            lemma_fx_sq_nonneg(self.z as int);
        }
        self.dot_ref(self)
    }

    /// The fixed-point length of the vector.
    pub fn norm(&self) -> (r: i64)
        requires
            in_range(*self, VR_MAX as int),
        ensures
            r == spec_norm(*self),
            r >= 0,
    {
        let sq: i64 = self.sq_norm();
        let m: u64 = isqrt((sq as u128) * 65536);
        proof {
            lemma_fx_sq_nonneg(self.x as int);
            lemma_fx_sq_nonneg(self.y as int);
            lemma_fx_sq_nonneg(self.z as int);
            lemma_sqrt_isqrt_fits(sq as int);
        }
        m as i64
    }

    /// The vector rescaled to (nearly) unit length. The result is exact as an
    /// integer computation; its components stay within three units, and for a
    /// vector of at least half a unit of length they stay within four
    /// sixty-five-thousandths of one unit.
    pub fn normalize(&self) -> (r: Vector)
        requires
            in_range(*self, VR_MAX as int),
            spec_sq_norm(*self) >= 1,
        ensures
            r == spec_normalize(*self),
            in_range(r, 3 * FX_ONE as int),
            spec_sq_norm(*self) >= FX_ONE / 4 ==> in_range(r, FX_ONE as int + 4),
    {
        proof {
            if spec_sq_norm(*self) >= FX_ONE / 4 {
                lemma_normalize_near_unit(*self);
            }
        }
        let m: i64 = self.norm();
        proof {
            lemma_norm_positive(*self);
            lemma_normalize_in_range(*self);
        }
        Vector { x: fx_div(self.x, m), y: fx_div(self.y, m), z: fx_div(self.z, m) }
    }

    /// The color read as a linear vector with components in `[0, FX_ONE]`.
    pub fn from_color(color: Color) -> (r: Vector)
        ensures
            r == spec_from_color(color),
            r.x == tdiv(color.red as int * FX_ONE, 255),
            r.y == tdiv(color.green as int * FX_ONE, 255),
            r.z == tdiv(color.blue as int * FX_ONE, 255),
            in_range(r, FX_ONE as int),
            r.x >= 0 && r.y >= 0 && r.z >= 0,
    {
        proof {
            lemma_from_color_comp(color.red as int);
            lemma_from_color_comp(color.green as int);
            lemma_from_color_comp(color.blue as int);
        }
        Vector {
            x: ((color.red as u64) * 65536 / 255) as i64,
            y: ((color.green as u64) * 65536 / 255) as i64,
            z: ((color.blue as u64) * 65536 / 255) as i64,
        }
    }

    /// The componentwise fixed-point square root, for nonnegative components.
    pub fn sqrt(&self) -> (r: Vector)
        requires
            0 <= self.x <= VR_MAX,
            0 <= self.y <= VR_MAX,
            0 <= self.z <= VR_MAX,
        ensures
            r.x == sqrt_floor((self.x * FX_ONE) as nat),
            r.y == sqrt_floor((self.y * FX_ONE) as nat),
            r.z == sqrt_floor((self.z * FX_ONE) as nat),
    {
        proof {
            lemma_sqrt_isqrt_fits(self.x as int);
            lemma_sqrt_isqrt_fits(self.y as int);
            lemma_sqrt_isqrt_fits(self.z as int);
        }
        Vector {
            x: isqrt((self.x as u128) * 65536) as i64,
            y: isqrt((self.y as u128) * 65536) as i64,
            z: isqrt((self.z as u128) * 65536) as i64,
        }
    }
}

/// Whether every component of `v` lies within `b` of zero.
pub fn check_range(v: &Vector, b: i64) -> (r: bool)
    requires
        b >= 0,
    ensures
        r == in_range(*v, b as int),
{
    -b <= v.x && v.x <= b && -b <= v.y && v.y <= b && -b <= v.z && v.z <= b
}

/// A color read as a vector has components between zero and one unit.
pub proof fn lemma_from_color_range(c: Color)
    ensures
        in_range(spec_from_color(c), FX_ONE as int),
        spec_from_color(c).x >= 0,
        spec_from_color(c).y >= 0,
        spec_from_color(c).z >= 0,
{
    lemma_from_color_comp(c.red as int);
    lemma_from_color_comp(c.green as int);
    lemma_from_color_comp(c.blue as int);
}

/// The fixed-point product of two values in the unit interval stays there.
pub proof fn lemma_unit_interval_mul(a: int, b: int)
    requires
        0 <= a <= FX_ONE,
        0 <= b <= FX_ONE,
    ensures
        0 <= fx_mul_spec(a, b) <= FX_ONE,
{
    lemma_mul_bound(a, b, FX_ONE as int, FX_ONE as int);
    assert(FX_ONE as int * FX_ONE == 0x100000000) by (nonlinear_arith);
    lemma_tdiv_bound(a * b, FX_ONE as int, 0x100000000);
    assert(a * b >= 0) by (nonlinear_arith)
        requires
            a >= 0,
            b >= 0,
    ;
    vstd::arithmetic::div_mod::lemma_div_pos_is_pos(a * b, FX_ONE as int);
}

/// A scaled square root of an `i64` quantity fits back into an `i64`.
proof fn lemma_sqrt_isqrt_fits(sq: int)
    requires
        0 <= sq <= i64::MAX,
    ensures
        sq * 65536 < 0x8000000000000000 * 0x8000000000000000,
        sqrt_floor((sq * 65536) as nat) <= i64::MAX,
{
    lemma_mul_bound(sq, 65536, i64::MAX as int, 65536);
    lemma_sqrt_floor_bounds((sq * 65536) as nat);
    let s = sqrt_floor((sq * 65536) as nat);
    if s > i64::MAX {
        assert(s * s > (i64::MAX as int) * 65536) by (nonlinear_arith)
            requires
                s > i64::MAX as int,
        ;
    }
}

/// A vector with squared norm at least one has a positive norm.
proof fn lemma_norm_positive(v: Vector)
    requires
        spec_sq_norm(v) >= 1,
    ensures
        spec_norm(v) >= 256,
{
    lemma_sqrt_floor_bounds((spec_sq_norm(v) * FX_ONE) as nat);
    let s = sqrt_floor((spec_sq_norm(v) * FX_ONE) as nat);
    assert(spec_sq_norm(v) * FX_ONE >= 65536) by (nonlinear_arith)
        requires
            spec_sq_norm(v) >= 1,
    ;
    if s < 256 {
        assert((s + 1) * (s + 1) <= 65536) by (nonlinear_arith)
            requires
                0 <= s < 256,
        ;
    }
}

/// Rescaling by the norm leaves every component within three units: each
/// component is at most a fixed multiple of the computed norm.
pub proof fn lemma_normalize_in_range(v: Vector)
    requires
        in_range(v, VR_MAX as int),
        spec_sq_norm(v) >= 1,
    ensures
        in_range(spec_normalize(v), 3 * FX_ONE as int),
        -0x7fffffffffff <= v.x <= 0x7fffffffffff,
        -0x7fffffffffff <= v.y <= 0x7fffffffffff,
        -0x7fffffffffff <= v.z <= 0x7fffffffffff,
        spec_norm(v) >= 256,
{
    lemma_norm_positive(v);
    lemma_normalize_comp_bound(v, v.x as int);
    lemma_normalize_comp_bound(v, v.y as int);
    lemma_normalize_comp_bound(v, v.z as int);
}

/// For a vector of at least half a unit of length, rescaling by the norm
/// leaves every component within four sixty-five-thousandths of one unit.
pub proof fn lemma_normalize_near_unit(v: Vector)
    requires
        in_range(v, VR_MAX as int),
        spec_sq_norm(v) >= FX_ONE / 4,
    ensures
        in_range(spec_normalize(v), FX_ONE as int + 4),
{
    lemma_normalize_comp_near_unit(v, v.x as int);
    lemma_normalize_comp_near_unit(v, v.y as int);
    lemma_normalize_comp_near_unit(v, v.z as int);
}

/// One component of a half-unit-or-longer vector divided by the vector's
/// norm stays within four sixty-five-thousandths of one unit: the component
/// is at most two above the computed norm, which is at least half a unit.
proof fn lemma_normalize_comp_near_unit(v: Vector, c: int)
    requires
        in_range(v, VR_MAX as int),
        spec_sq_norm(v) >= FX_ONE / 4,
        c == v.x || c == v.y || c == v.z,
    ensures
        -(FX_ONE as int + 4) <= fx_div_spec(c, spec_norm(v)) <= FX_ONE as int + 4,
{
    let m = spec_norm(v);
    let sq = spec_sq_norm(v);
    lemma_sqrt_floor_bounds((sq * FX_ONE) as nat);
    // The norm is at least half a unit: its square reaches sq * FX_ONE.
    assert(sq * FX_ONE >= 0x40000000) by (nonlinear_arith)
        requires
            sq >= FX_ONE / 4,
    ;
    assert(m >= 0x8000) by (nonlinear_arith)
        requires
            (m + 1) * (m + 1) > 0x40000000,
            m >= 0,
    ;
    // The component squared is under (m + 1)^2 + FX_ONE.
    lemma_fx_sq_nonneg(v.x as int);
    lemma_fx_sq_nonneg(v.y as int);
    lemma_fx_sq_nonneg(v.z as int);
    assert(fx_mul_spec(c, c) <= sq);
    assert(c * c < (fx_mul_spec(c, c) + 1) * FX_ONE) by {
        vstd::arithmetic::div_mod::lemma_fundamental_div_mod(c * c, FX_ONE as int);
        assert(c * c >= 0) by (nonlinear_arith);
    };
    assert(c * c < (m + 1) * (m + 1) + FX_ONE) by (nonlinear_arith)
        requires
            c * c < (fx_mul_spec(c, c) + 1) * FX_ONE,
            fx_mul_spec(c, c) <= sq,
            sq * FX_ONE < (m + 1) * (m + 1),
            m >= 0,
    ;
    // So the component is at most m + 2 in magnitude.
    assert(-(m + 2) <= c <= m + 2) by (nonlinear_arith)
        requires
            c * c < (m + 1) * (m + 1) + FX_ONE,
            m >= 0x8000,
    ;
    // And (m + 2) * FX_ONE / m is at most FX_ONE + 4 once m >= FX_ONE / 2.
    lemma_mul_bound(c, FX_ONE as int, m + 2, FX_ONE as int);
    lemma_tdiv_bound(c * FX_ONE, m, (m + 2) * FX_ONE);
    assert(((m + 2) * FX_ONE) / m <= FX_ONE as int + 4) by (nonlinear_arith)
        requires
            m >= 0x8000,
    ;
}

/// One component of a vector divided by the vector's norm is below three
/// units: the component squared is under four times the squared norm scale.
proof fn lemma_normalize_comp_bound(v: Vector, c: int)
    requires
        in_range(v, VR_MAX as int),
        spec_sq_norm(v) >= 1,
        c == v.x || c == v.y || c == v.z,
    ensures
        -(3 * FX_ONE as int) <= fx_div_spec(c, spec_norm(v)) <= 3 * FX_ONE as int,
{
    let m = spec_norm(v);
    let sq = spec_sq_norm(v);
    lemma_norm_positive(v);
    lemma_sqrt_floor_bounds((sq * FX_ONE) as nat);
    // The rescaled square of one component is within one of the squared norm's
    // share, so `c * c` is under `(sq + 3) * FX_ONE <= 4 * sq * FX_ONE`.
    lemma_fx_sq_nonneg(v.x as int);
    lemma_fx_sq_nonneg(v.y as int);
    lemma_fx_sq_nonneg(v.z as int);
    assert(fx_mul_spec(c, c) <= sq);
    assert(c * c < (fx_mul_spec(c, c) + 1) * FX_ONE) by {
        vstd::arithmetic::div_mod::lemma_fundamental_div_mod(c * c, FX_ONE as int);
        assert(c * c >= 0) by (nonlinear_arith);
    };
    assert(c * c < (sq + 1) * FX_ONE) by (nonlinear_arith)
        requires
            c * c < (fx_mul_spec(c, c) + 1) * FX_ONE,
            fx_mul_spec(c, c) <= sq,
    ;
    assert((sq + 1) * FX_ONE <= 2 * (sq * FX_ONE)) by (nonlinear_arith)
        requires
            sq >= 1,
    ;
    // So |c| < 2 * (m + 1) <= 2 * m + 2, because (m + 1)^2 > sq * FX_ONE.
    assert(c * c < 4 * ((m + 1) * (m + 1))) by (nonlinear_arith)
        requires
            c * c < 2 * (sq * FX_ONE),
            sq * FX_ONE < (m + 1) * (m + 1),
            0 <= sq * FX_ONE,
    ;
    assert(-(2 * m + 2) <= c <= 2 * m + 2) by (nonlinear_arith)
        requires
            c * c < 4 * ((m + 1) * (m + 1)),
            m >= 0,
    ;
    // Finally, (2m + 2) * FX_ONE / m <= 3 * FX_ONE once m >= 256.
    lemma_mul_bound(c, FX_ONE as int, 2 * m + 2, FX_ONE as int);
    lemma_tdiv_bound(c * FX_ONE, m, (2 * m + 2) * FX_ONE);
    assert(((2 * m + 2) * FX_ONE) / m <= 3 * FX_ONE as int) by (nonlinear_arith)
        requires
            m >= 256,
    ;
}

/// One color channel scaled to `[0, FX_ONE]` in fixed point.
proof fn lemma_from_color_comp(c: int)
    requires
        0 <= c <= 255,
    ensures
        0 <= (c * 65536) / 255 <= 65536,
        tdiv(c * 65536, 255) == (c * 65536) / 255,
{
    lemma_mul_bound(c, 65536, 255, 65536);
    vstd::arithmetic::div_mod::lemma_div_pos_is_pos(c * 65536, 255);
    vstd::arithmetic::div_mod::lemma_div_is_ordered(c * 65536, 255 as int * 65536, 255);
    lemma_tdiv_exact(65536, 255);
}

/// A ray `origin + t * dir`, immutable once constructed.
#[derive(Clone, Copy, Debug, PartialEq, Eq, Structural)]
pub struct Ray {
    pub origin: Vector,
    pub dir: Vector,
}

pub open spec fn spec_interpolate(r: Ray, t: int) -> Vector {
    spec_add(r.origin, spec_scale(r.dir, t))
}

impl Ray {
    /// The point `origin + t * dir` along the ray.
    pub fn interpolate(&self, t: i64) -> (p: Vector)
        requires
            in_range(self.origin, VR_SUM as int - 0x1000000000000),
            in_range(self.dir, VR_MAX as int),
            -VR_MAX <= t <= VR_MAX,
        ensures
            p == spec_interpolate(*self, t as int),
    {
        let d = self.dir.scale(t);
        proof {
            lemma_fx_comp(self.dir.x as int, t as int, VR_MAX as int, VR_MAX as int);
            lemma_fx_comp(self.dir.y as int, t as int, VR_MAX as int, VR_MAX as int);
            lemma_fx_comp(self.dir.z as int, t as int, VR_MAX as int, VR_MAX as int);
        }
        self.origin.add(&d)
    }

    /// The ray from `v1` toward `v2`.
    pub fn from_pts(v1: Vector, v2: Vector) -> (r: Ray)
        requires
            in_range(v1, VR_SUM as int),
            in_range(v2, VR_SUM as int),
        ensures
            r.origin == v1,
            r.dir == spec_sub(v2, v1),
    {
        let dir = v2.sub(&v1);
        Ray { origin: v1, dir }
    }
}

/// Interpolation at parameter zero is the origin, and at parameter one it is
/// the origin translated by the direction.
pub proof fn lemma_interpolate_endpoints(r: Ray)
    requires
        in_range(r.origin, VR_SUM as int - 0x1000000000000),
        in_range(r.dir, VR_MAX as int),
    ensures
        spec_interpolate(r, 0) == r.origin,
        spec_interpolate(r, FX_ONE as int) == spec_add(r.origin, r.dir),
{
    assert(r.dir.x as int * 0 == 0) by (nonlinear_arith);
    assert(r.dir.y as int * 0 == 0) by (nonlinear_arith);
    assert(r.dir.z as int * 0 == 0) by (nonlinear_arith);
    lemma_tdiv_exact(r.dir.x as int, FX_ONE as int);
    lemma_tdiv_exact(r.dir.y as int, FX_ONE as int);
    lemma_tdiv_exact(r.dir.z as int, FX_ONE as int);
}

} // verus!
