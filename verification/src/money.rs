//! Fixed-point amounts and the one shared rounding rule.
//!
//! An amount is an `i64` holding `units * SCALE`, i.e. four decimal places.
//! Every multiply-then-divide in the crate goes through [`mul_div`], which
//! truncates toward zero, so all derived figures (change percentages, gains,
//! currency conversions) round the same way.

use vstd::prelude::*;

verus! {

/// Number of fixed-point steps per currency unit (four decimal places).
pub const SCALE: i64 = 10_000;

/// One percentage point in fixed-point form: `100 * SCALE`.
/// `change * PCT_SCALE / reference` yields a percentage in fixed-point form.
pub const PCT_SCALE: i64 = 1_000_000;

/// Largest accepted amount: one million units, in fixed-point form.
/// Keeping every parsed amount under this bound lets all derived products
/// fit comfortably in `i128`.
pub const MAX_AMOUNT: i64 = 10_000_000_000;

/// Largest number of holding lines the engine accepts in one aggregation
/// or summary, so that summed amounts stay within `i128`.
pub const MAX_HOLDINGS: usize = 10_000;

/// A well-formed amount: non-negative and within the accepted range.
pub open spec fn amount_ok(a: i64) -> bool {
    0 <= a <= MAX_AMOUNT
}

/// `a * b / d`, truncating toward zero, for `a >= 0` and `d > 0`.
/// `b` may be negative; the result carries `b`'s sign.
pub open spec fn mul_div_trunc(a: int, b: int, d: int) -> int
    recommends
        a >= 0,
        d > 0,
{
    if b >= 0 {
        (a * b) / d
    } else {
        -((a * -b) / d)
    }
}

/// Exact widening multiply-then-divide on `i128`, truncating toward zero.
pub fn mul_div(a: i128, b: i128, d: i128) -> (r: i128)
    requires
        a >= 0,
        d > 0,
        b > i128::MIN,
        a * (if b >= 0 { b as int } else { -b }) <= i128::MAX,
    ensures
        r == mul_div_trunc(a as int, b as int, d as int),
{
    let b_abs: i128 = if b >= 0 { b } else { -b };
    let prod: u128 = (a as u128) * (b_abs as u128);
    let q: u128 = prod / (d as u128);
    proof {
        lemma_div_shrinks(prod as int, d as int);
    }
    let qi: i128 = q as i128;
    if b >= 0 {
        qi
    } else {
        -qi
    }
}

/// For `x >= 0` and `d >= 1`, `x / d <= x`.
pub proof fn lemma_div_shrinks(x: int, d: int)
    requires
        x >= 0,
        d >= 1,
    ensures
        0 <= x / d <= x,
{
    vstd::arithmetic::div_mod::lemma_div_is_ordered_by_denominator(x, 1, d);
    vstd::arithmetic::div_mod::lemma_div_by_multiple(x, 1);
    vstd::arithmetic::div_mod::lemma_div_pos_is_pos(x, d);
}

/// The magnitude of `mul_div_trunc` never exceeds `hi_a * hi_b / d` when the
/// factors are bounded by `hi_a` and `hi_b`.
pub proof fn lemma_mul_div_trunc_bound(a: int, b: int, d: int, hi_a: int, hi_b: int)
    requires
        0 <= a <= hi_a,
        -hi_b <= b <= hi_b,
        d > 0,
    ensures
        -((hi_a * hi_b) / d) <= mul_div_trunc(a, b, d) <= (hi_a * hi_b) / d,
{
    let m = if b >= 0 { b } else { -b };
    assert(a * m <= hi_a * hi_b) by (nonlinear_arith)
        requires
            0 <= a <= hi_a,
            0 <= m <= hi_b,
    ;
    vstd::arithmetic::div_mod::lemma_div_pos_is_pos(a * m, d);
    vstd::arithmetic::div_mod::lemma_div_is_ordered(a * m, hi_a * hi_b, d);
}

} // verus!
