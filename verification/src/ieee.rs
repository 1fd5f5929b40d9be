//! The real values denoted by single-precision bit patterns, decoded field
//! by field (sign, 8-bit exponent, 23-bit fraction), and the facts that tie
//! the library's integer comparisons on patterns to the order of those values.
use vstd::arithmetic::div_mod::{lemma_div_is_ordered, lemma_fundamental_div_mod};
use vstd::arithmetic::mul::{lemma_mul_inequality, lemma_mul_strict_inequality};
use vstd::arithmetic::power2::{lemma_pow2_pos, lemma_pow2_strictly_increases, lemma_pow2_unfold, pow2};
use vstd::prelude::*;

verus! {

/// The biased exponent field (bits 23..30).
pub open spec fn exponent_field(b: u32) -> nat {
    ((b / 0x80_0000) % 256) as nat
}

/// The fraction field (bits 0..22).
pub open spec fn fraction_field(b: u32) -> nat {
    (b % 0x80_0000) as nat
}

/// The sign bit is set.
pub open spec fn sign_set(b: u32) -> bool {
    b >= 0x8000_0000
}

/// The pattern denotes a NaN: all-ones exponent, non-zero fraction.
pub open spec fn denotes_nan(b: u32) -> bool {
    exponent_field(b) == 255 && fraction_field(b) != 0
}

/// The absolute value denoted by `b`, times 2^150 (an integer for every
/// pattern): `fraction * 2^-149` for subnormals, `(1 + fraction / 2^23) *
/// 2^(exponent - 127)` otherwise. Infinity (exponent 255, fraction 0) comes
/// out above every finite value.
pub open spec fn scaled_magnitude(b: u32) -> nat {
    let e = exponent_field(b);
    let f = fraction_field(b);
    if e == 0 { f * 2 } else { (f + 0x80_0000) * pow2(e) }
}

/// The value denoted by `b`, times 2^150, with its sign.
pub open spec fn scaled_value(b: u32) -> int {
    if sign_set(b) { -(scaled_magnitude(b) as int) } else { scaled_magnitude(b) as int }
}

/// Clearing the sign bit keeps the exponent and the fraction.
pub proof fn lemma_sign_bit_only(b: u32)
    ensures
        exponent_field(b % 0x8000_0000) == exponent_field(b),
        fraction_field(b % 0x8000_0000) == fraction_field(b),
        scaled_magnitude(b % 0x8000_0000) == scaled_magnitude(b),
        !sign_set(b % 0x8000_0000),
{
    assert(((b % 0x8000_0000) / 0x80_0000) % 256 == (b / 0x80_0000) % 256) by (bit_vector);
    assert((b % 0x8000_0000) % 0x80_0000 == b % 0x80_0000) by (bit_vector);
}

/// On patterns without the sign bit, the pattern order is the order of the
/// denoted magnitudes.
pub proof fn lemma_magnitude_strictly_increasing(x: u32, y: u32)
    requires
        x < y < 0x8000_0000,
    ensures
        scaled_magnitude(x) < scaled_magnitude(y),
{
    let c: int = 0x80_0000;
    let xi = x as int;
    let yi = y as int;
    lemma_fundamental_div_mod(xi, c);
    lemma_fundamental_div_mod(yi, c);
    lemma_div_is_ordered(xi, yi, c);
    let ex = xi / c;
    let ey = yi / c;
    let fx = xi % c;
    let fy = yi % c;
    assert(ey < 256) by (nonlinear_arith)
        requires yi < 0x8000_0000, ey == yi / c, c == 0x80_0000;
    assert(exponent_field(x) == ex);
    assert(exponent_field(y) == ey);
    assert(fraction_field(x) == fx);
    assert(fraction_field(y) == fy);
    if ex == ey {
        assert(fx < fy);
        if ex != 0 {
            let p = pow2(ex as nat) as int;
            lemma_pow2_pos(ex as nat);
            lemma_mul_strict_inequality(fx + c, fy + c, p);
        }
    } else {
        assert(ex < ey);
        let py = pow2(ey as nat) as int;
        lemma_pow2_pos(ey as nat);
        lemma_mul_inequality(c, fy + c, py);
        assert(scaled_magnitude(y) >= c * py);
        lemma_pow2_unfold(ey as nat);
        lemma_pow2_pos((ey - 1) as nat);
        if ex == 0 {
            assert(c * py >= c * 2) by (nonlinear_arith)
                requires py >= 2, c > 0;
        } else {
            let px = pow2(ex as nat) as int;
            lemma_pow2_pos(ex as nat);
            if ex < ey - 1 {
                lemma_pow2_strictly_increases(ex as nat, (ey - 1) as nat);
            }
            assert(py >= 2 * px);
            lemma_mul_strict_inequality(fx + c, 2 * c, px);
            assert(c * py >= (2 * c) * px) by (nonlinear_arith)
                requires py >= 2 * px, c > 0;
        }
    }
}

/// A pattern's magnitude is 0 exactly when the pattern, sign bit cleared, is 0.
pub proof fn lemma_zero_magnitude(x: u32)
    requires
        x < 0x8000_0000,
    ensures
        scaled_magnitude(x) == 0 <==> x == 0,
{
    if x > 0 {
        lemma_magnitude_strictly_increasing(0, x);
    }
}

/// The library's NaN test on patterns is the IEEE-754 one.
pub proof fn lemma_nan_test(b: u32)
    ensures
        (b % 0x8000_0000 > 0x7f80_0000) == denotes_nan(b),
{
    assert((b % 0x8000_0000 > 0x7f80_0000) == ((b / 0x80_0000) % 256 == 255 && b % 0x80_0000 != 0))
        by (bit_vector);
}

} // verus!
