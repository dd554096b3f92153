//! Fixed-point numbers.
//!
//! A distance, a percentile, a confidence or a support is an integer that
//! counts parts of `UNIT` to one. Sums of distances are kept in `u128`, where a
//! sum over any route that fits in memory stays exact.

use vstd::prelude::*;

verus! {

/// The number that stands for one.
pub const UNIT: u64 = 1_000_000_000_000;

/// Two route scores closer than this count as equal.
pub const EPSILON: u64 = 1;

/// Decides whether a measure lies above a bound, which may lie below zero.
pub fn exceeds(measure: u64, bound: i64) -> (above: bool)
    ensures
        above == (measure > bound),
{
    bound < 0 || measure > bound as u64
}

/// `numerator / denominator` in units, rounded to the nearest unit.
pub open spec fn fraction(numerator: int, denominator: int) -> int {
    (2 * numerator * (UNIT as int) + denominator) / (2 * denominator)
}

/// A larger numerator never gives a smaller fraction.
pub proof fn fraction_is_monotone(smaller: int, larger: int, denominator: int)
    requires
        smaller <= larger,
        0 < denominator,
    ensures
        fraction(smaller, denominator) <= fraction(larger, denominator),
{
    assert(2 * smaller * (UNIT as int) <= 2 * larger * (UNIT as int));
    vstd::arithmetic::div_mod::lemma_div_is_ordered(
        2 * smaller * (UNIT as int) + denominator,
        2 * larger * (UNIT as int) + denominator,
        2 * denominator,
    );
}

/// A fraction of at most two stays within two units of one.
pub proof fn lemma_fraction_bound(numerator: int, denominator: int)
    requires
        0 <= numerator <= 2 * denominator,
        0 < denominator,
    ensures
        0 <= fraction(numerator, denominator) <= 2 * UNIT,
{
    let scaled = 2 * numerator * (UNIT as int) + denominator;
    let top = (2 * (UNIT as int) + 1) * (2 * denominator);
    assert(scaled < top) by (nonlinear_arith)
        requires
            scaled == 2 * numerator * (UNIT as int) + denominator,
            top == (2 * (UNIT as int) + 1) * (2 * denominator),
            0 <= numerator <= 2 * denominator,
            0 < denominator,
    ;
    assert(scaled >= 0);
    vstd::arithmetic::div_mod::lemma_div_pos_is_pos(scaled, 2 * denominator);
    assert(scaled / (2 * denominator) < 2 * (UNIT as int) + 1) by (nonlinear_arith)
        requires
            scaled < (2 * (UNIT as int) + 1) * (2 * denominator),
            0 < denominator,
    ;
}

/// Computes a fraction in units.
pub fn fraction_units(numerator: u128, denominator: u128) -> (units: u64)
    requires
        numerator <= 2 * denominator,
        0 < denominator <= 0xf_ffff_ffff_ffff_ffff_ffff,
    ensures
        units == fraction(numerator as int, denominator as int),
        units <= 2 * UNIT,
{
    proof {
        lemma_fraction_bound(numerator as int, denominator as int);
    }
    let scaled: u128 = 2 * numerator * (UNIT as u128) + denominator;
    let parts: u128 = scaled / (2 * denominator);
    parts as u64
}

/// Decides `left * denominator <= right * numerator` without forming the products.
pub fn at_most_ratio(left: u128, right: u128, numerator: u32, denominator: u32) -> (holds: bool)
    requires
        0 < numerator,
        0 < denominator,
    ensures
        holds == (left * denominator <= right * numerator),
{
    let n: u128 = numerator as u128;
    let d: u128 = denominator as u128;
    let left_whole: u128 = left / n;
    let left_rest: u128 = left % n;
    let right_whole: u128 = right / d;
    let right_rest: u128 = right % d;
    assert(left_rest * d < 0x1_0000_0000_0000_0000int && right_rest * n < 0x1_0000_0000_0000_0000int)
        by (nonlinear_arith)
        requires
            left_rest < n,
            right_rest < d,
            n < 0x1_0000_0000,
            d < 0x1_0000_0000,
    ;
    proof {
        vstd::arithmetic::div_mod::lemma_fundamental_div_mod(left as int, n as int);
        vstd::arithmetic::div_mod::lemma_fundamental_div_mod(right as int, d as int);
        let lw = left_whole as int;
        let lr = left_rest as int;
        let rw = right_whole as int;
        let rr = right_rest as int;
        let ni = n as int;
        let di = d as int;
        assert(left * denominator == ni * di * lw + lr * di) by (nonlinear_arith)
            requires
                left == ni * lw + lr,
                denominator == di,
        ;
        assert(right * numerator == ni * di * rw + rr * ni) by (nonlinear_arith)
            requires
                right == di * rw + rr,
                numerator == ni,
        ;
        assert(lr * di <= ni * di - di) by (nonlinear_arith)
            requires
                0 <= lr <= ni - 1,
                0 < di,
        ;
        assert(rr * ni <= ni * di - ni) by (nonlinear_arith)
            requires
                0 <= rr <= di - 1,
                0 < ni,
        ;
        assert(lr * di >= 0 && rr * ni >= 0) by (nonlinear_arith)
            requires
                0 <= lr,
                0 <= rr,
                0 < ni,
                0 < di,
        ;
        if lw < rw {
            assert(ni * di * lw + ni * di <= ni * di * rw) by (nonlinear_arith)
                requires
                    lw + 1 <= rw,
                    0 < ni,
                    0 < di,
            ;
        } else if lw > rw {
            assert(ni * di * rw + ni * di <= ni * di * lw) by (nonlinear_arith)
                requires
                    rw + 1 <= lw,
                    0 < ni,
                    0 < di,
            ;
        }
    }
    if left_whole != right_whole {
        left_whole < right_whole
    } else {
        left_rest * d <= right_rest * n
    }
}

} // verus!
