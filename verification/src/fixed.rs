//! Signed 16.16 fixed-point scalars.
//!
//! A scalar `x` stands for the real number `x / FX_ONE`. Products and
//! quotients are rescaled with truncation toward zero, which `tdiv` makes
//! precise, so every operation here has an exact integer specification.

use vstd::prelude::*;

verus! {

use vstd::arithmetic::div_mod::lemma_div_is_ordered;
use vstd::arithmetic::div_mod::lemma_div_multiples_vanish;
use vstd::arithmetic::div_mod::lemma_div_pos_is_pos;

/// The fixed-point unit: this many integer steps stand for the real number 1.
pub const FX_ONE: i64 = 65536;

/// Division truncated toward zero, for a positive divisor; this is what the
/// executable operations below compute, while `/` on `int` is Euclidean.
pub open spec fn tdiv(n: int, d: int) -> int
    recommends
        d > 0,
{
    if n >= 0 {
        n / d
    } else {
        -((-n) / d)
    }
}

/// The fixed-point product: `a * b` rescaled back by the unit.
pub open spec fn fx_mul_spec(a: int, b: int) -> int {
    tdiv(a * b, FX_ONE as int)
}

/// The fixed-point quotient for a positive divisor: `a / b` scaled up by the
/// unit before dividing.
pub open spec fn fx_div_spec(a: int, b: int) -> int
    recommends
        b > 0,
{
    tdiv(a * FX_ONE, b)
}

/// `tdiv` stays within the bound of its dividend.
pub proof fn lemma_tdiv_bound(n: int, d: int, m: int)
    requires
        d >= 1,
        -m <= n <= m,
        0 <= m,
    ensures
        -(m / d) <= tdiv(n, d) <= m / d,
{
    if n >= 0 {
        lemma_div_is_ordered(n, m, d);
        lemma_div_pos_is_pos(n, d);
    } else {
        lemma_div_is_ordered(-n, m, d);
        lemma_div_pos_is_pos(-n, d);
    }
}

/// `tdiv` undoes an exact multiple.
pub proof fn lemma_tdiv_exact(n: int, d: int)
    requires
        d >= 1,
    ensures
        tdiv(n * d, d) == n,
{
    if n >= 0 {
        lemma_div_multiples_vanish(n, d);
        assert(n * d == d * n) by (nonlinear_arith);
    } else {
        lemma_div_multiples_vanish(-n, d);
        assert(-(n * d) == d * (-n)) by (nonlinear_arith);
    }
}

/// Bound a product by the bounds of its factors.
pub proof fn lemma_mul_bound(a: int, b: int, ma: int, mb: int)
    by (nonlinear_arith)
    requires
        -ma <= a <= ma,
        -mb <= b <= mb,
        0 <= ma,
        0 <= mb,
    ensures
        -(ma * mb) <= a * b <= ma * mb,
{
}

/// The absolute value of an `i64` that is not the minimum value.
fn abs_i64(a: i64) -> (r: u64)
    requires
        a > i64::MIN,
    ensures
        r == if a >= 0 { a as int } else { -a as int },
{
    if a >= 0 {
        a as u64
    } else {
        (-a) as u64
    }
}

/// The fixed-point product. The bound on `a * b` is what lets the rescaled
/// result fit in an `i64`.
pub fn fx_mul(a: i64, b: i64) -> (r: i64)
    requires
        -0x7fffffffffffffff * 0x10000 <= a * b <= 0x7fffffffffffffff as int * 0x10000,
    ensures
        r == fx_mul_spec(a as int, b as int),
{
    proof {
        assert(-0x40000000000000000000000000000000 <= (a as int) * (b as int)
            <= 0x40000000000000000000000000000000) by (nonlinear_arith);
    }
    let p: i128 = (a as i128) * (b as i128);
    if p >= 0 {
        let q: u128 = (p as u128) / 65536;
        proof {
            lemma_div_is_ordered(p as int, 0x7fffffffffffffff as int * 0x10000, 65536);
            lemma_div_multiples_vanish(0x7fffffffffffffff, 65536);
            lemma_div_pos_is_pos(p as int, 65536);
        }
        (q as u64) as i64
    } else {
        let q: u128 = ((-p) as u128) / 65536;
        proof {
            lemma_div_is_ordered(-p as int, 0x7fffffffffffffff as int * 0x10000, 65536);
            lemma_div_multiples_vanish(0x7fffffffffffffff, 65536);
            lemma_div_pos_is_pos(-p as int, 65536);
        }
        -((q as u64) as i64)
    }
}

/// The fixed-point quotient, truncated toward zero, for a positive divisor.
pub fn fx_div(a: i64, b: i64) -> (r: i64)
    requires
        b >= 1,
        -0x7fffffffffff <= a <= 0x7fffffffffff,
    ensures
        r == fx_div_spec(a as int, b as int),
{
    let m: u128 = (abs_i64(a) as u128) * 65536;
    let q: u128 = m / (b as u128);
    proof {
        lemma_div_is_ordered(m as int, 0x7fffffffffff as int * 0x10000, b as int);
        lemma_div_ordered_by_denominator(0x7fffffffffff as int * 0x10000, 1, b as int);
        lemma_div_pos_is_pos(m as int, b as int);
        if a < 0 {
            assert(-((a as int) * 0x10000) == ((-a) as int) * 0x10000) by (nonlinear_arith);
        }
    }
    if a >= 0 {
        (q as u64) as i64
    } else {
        -((q as u64) as i64)
    }
}

/// Dividing a nonnegative value by a smaller positive divisor cannot grow it.
proof fn lemma_div_ordered_by_denominator(x: int, y: int, z: int)
    requires
        0 <= x,
        1 <= y <= z,
    ensures
        x / y >= x / z,
{
    vstd::arithmetic::div_mod::lemma_div_is_ordered_by_denominator(x, y, z);
}

/// The fixed-point quotient of a wide dividend by a divisor of at least half
/// a square unit, truncated toward zero.
pub fn fx_div_wide(a: i128, b: i64) -> (r: i64)
    requires
        0x8000 <= b,
        -0x8000000000000 <= a <= 0x8000000000000,
    ensures
        r == fx_div_spec(a as int, b as int),
{
    let neg = a < 0;
    let m: u128 = if neg {
        (-a) as u128
    } else {
        a as u128
    };
    let q: u128 = (m * 65536) / (b as u128);
    proof {
        lemma_div_is_ordered(m as int * 65536, 0x8000000000000 as int * 0x10000, b as int);
        lemma_div_ordered_by_denominator(0x8000000000000 as int * 0x10000, 0x8000, b as int);
        lemma_div_pos_is_pos(m as int * 65536, b as int);
        if a < 0 {
            assert(-((a as int) * 0x10000) == ((-a) as int) * 0x10000) by (nonlinear_arith);
        }
    }
    if neg {
        -((q as u64) as i64)
    } else {
        (q as u64) as i64
    }
}

/// Plain truncating division of a nonnegative value.
pub fn div_nonneg(a: i64, b: i64) -> (r: i64)
    requires
        a >= 0,
        b >= 1,
    ensures
        r == tdiv(a as int, b as int),
{
    proof {
        lemma_div_is_ordered(a as int, i64::MAX as int, b as int);
        lemma_div_ordered_by_denominator(i64::MAX as int, 1, b as int);
        lemma_div_pos_is_pos(a as int, b as int);
    }
    ((a as u64) / (b as u64)) as i64
}

/// Plain division truncated toward zero.
pub fn div_trunc(a: i64, b: i64) -> (r: i64)
    requires
        a > i64::MIN,
        b >= 1,
    ensures
        r == tdiv(a as int, b as int),
{
    if a >= 0 {
        div_nonneg(a, b)
    } else {
        -div_nonneg(-a, b)
    }
}

/// The integer square root, floor of the real square root.
pub open spec fn sqrt_floor(n: nat) -> nat
    decreases n,
{
    if n == 0 {
        0
    } else {
        let p = sqrt_floor((n - 1) as nat);
        if (p + 1) * (p + 1) <= n {
            p + 1
        } else {
            p
        }
    }
}

/// `sqrt_floor` is characterized by the two-sided square bound.
pub proof fn lemma_sqrt_floor_bounds(n: nat)
    ensures
        sqrt_floor(n) * sqrt_floor(n) <= n,
        n < (sqrt_floor(n) + 1) * (sqrt_floor(n) + 1),
    decreases n,
{
    if n > 0 {
        lemma_sqrt_floor_bounds((n - 1) as nat);
        let p = sqrt_floor((n - 1) as nat);
        if (p + 1) * (p + 1) <= n {
            assert(sqrt_floor(n) == p + 1);
            assert(n < ((p + 1) + 1) * ((p + 1) + 1)) by (nonlinear_arith)
                requires
                    n <= (p + 1) * (p + 1),
            ;
        } else {
            assert(sqrt_floor(n) == p);
            assert(n < (sqrt_floor(n) + 1) * (sqrt_floor(n) + 1));
        }
    } else {
        assert(sqrt_floor(0) == 0);
        assert(n < (sqrt_floor(n) + 1) * (sqrt_floor(n) + 1)) by (nonlinear_arith)
            requires
                n == 0,
                sqrt_floor(n) == 0,
        ;
    }
}

/// Only one integer satisfies the two-sided square bound.
pub proof fn lemma_sqrt_unique(n: nat, r: nat)
    requires
        r * r <= n,
        n < (r + 1) * (r + 1),
    ensures
        r == sqrt_floor(n),
{
    lemma_sqrt_floor_bounds(n);
    let s = sqrt_floor(n);
    if r < s {
        assert((r + 1) * (r + 1) <= s * s) by (nonlinear_arith)
            requires
                r + 1 <= s,
        ;
    }
    if s < r {
        assert((s + 1) * (s + 1) <= r * r) by (nonlinear_arith)
            requires
                s + 1 <= r,
        ;
    }
}

/// The integer square root, by bisection on the bracket `lo * lo <= n < hi * hi`.
pub fn isqrt(n: u128) -> (r: u64)
    requires
        n < 0x8000000000000000 * 0x8000000000000000,
    ensures
        r == sqrt_floor(n as nat),
        r * r <= n,
        n < (r + 1) * (r + 1),
{
    let mut lo: u128 = 0;
    let mut hi: u128 = 0x8000000000000000;
    while lo + 1 < hi
        invariant
            lo < hi <= 0x8000000000000000,
            lo * lo <= n,
            n < hi * hi,
        decreases hi - lo,
    {
        let mid: u128 = lo + (hi - lo) / 2;
        proof {
            assert(lo < mid < hi);
            assert(mid * mid <= 0x8000000000000000 * 0x8000000000000000) by (nonlinear_arith)
                requires
                    0 <= mid <= 0x8000000000000000,
            ;
        }
        if mid * mid <= n {
            lo = mid;
        } else {
            hi = mid;
        }
    }
    proof {
        assert(lo + 1 == hi);
        lemma_sqrt_unique(n as nat, lo as nat);
    }
    lo as u64
}

} // verus!
