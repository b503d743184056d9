use raytracer::fixed::{div_nonneg, div_trunc, fx_div, fx_mul, isqrt, FX_ONE};

#[test]
fn fx_mul_exact_products() {
    assert_eq!(fx_mul(FX_ONE, FX_ONE), FX_ONE);
    assert_eq!(fx_mul(2 * FX_ONE, 3 * FX_ONE), 6 * FX_ONE);
    assert_eq!(fx_mul(-2 * FX_ONE, 3 * FX_ONE), -6 * FX_ONE);
    assert_eq!(fx_mul(FX_ONE / 2, FX_ONE / 2), FX_ONE / 4);
    assert_eq!(fx_mul(0, 12345), 0);
}

#[test]
fn fx_mul_truncates_toward_zero() {
    // 1/65536 * 1/65536 rounds down to zero, on both signs.
    assert_eq!(fx_mul(1, 1), 0);
    assert_eq!(fx_mul(-1, 1), 0);
    // 1.5 * 1.5 = 2.25 exactly representable.
    assert_eq!(fx_mul(98304, 98304), 147456);
    // -3 * one third of a unit truncates toward zero.
    assert_eq!(fx_mul(-3 * FX_ONE, 21845), -65535);
}

#[test]
fn fx_div_exact_quotients() {
    assert_eq!(fx_div(FX_ONE, FX_ONE), FX_ONE);
    assert_eq!(fx_div(6 * FX_ONE, 3 * FX_ONE), 2 * FX_ONE);
    assert_eq!(fx_div(-6 * FX_ONE, 3 * FX_ONE), -2 * FX_ONE);
    assert_eq!(fx_div(FX_ONE, 2 * FX_ONE), FX_ONE / 2);
    // 1 / 3 in fixed point truncates.
    assert_eq!(fx_div(FX_ONE, 3 * FX_ONE), 21845);
}

#[test]
fn isqrt_exact_and_floor() {
    assert_eq!(isqrt(0), 0);
    assert_eq!(isqrt(1), 1);
    assert_eq!(isqrt(4), 2);
    assert_eq!(isqrt(15), 3);
    assert_eq!(isqrt(16), 4);
    assert_eq!(isqrt(1 << 30), 1 << 15);
    assert_eq!(isqrt((1u128 << 60) - 1), (1 << 30) - 1);
    assert_eq!(isqrt(4294967296), 65536);
}

#[test]
fn truncating_division() {
    assert_eq!(div_nonneg(7, 2), 3);
    assert_eq!(div_trunc(7, 2), 3);
    assert_eq!(div_trunc(-7, 2), -3);
    assert_eq!(div_trunc(0, 5), 0);
}
