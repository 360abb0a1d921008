//! Fixed-point quantities and exact fractions.
//!
//! Skill ratings are whole numbers of rating units, of which 2^49 make a point.
//! That is the finest power of two with which ten thousand points fit a signed
//! number of sixty-four binary digits. It is also the step between neighbouring
//! double-precision numbers from 8 to 16, so every double-precision rating of 8
//! points or more is a whole number of units; smaller ones are within half a unit
//! of one.
//!
//! Times are whole numbers of billionths of a second. What is derived by division
//! is kept as an exact fraction. Where a tolerance is rounded down to whole units,
//! nothing is lost: ratings are a whole number of units apart, so they are within
//! the tolerance exactly if they are within the rounded one.

use vstd::prelude::*;

verus! {

/// One rating point, in rating units.
pub const MMR_POINT: u64 = 562_949_953_421_312;

/// One second.
pub const SECOND: u64 = 1_000_000_000;

/// The number `num / den`.
#[derive(Debug, Clone, Copy)]
pub struct Ratio {
    pub num: i128,
    pub den: u128,
}

impl Ratio {
    /// A fraction has a positive denominator.
    pub open spec fn wf(self) -> bool {
        self.den > 0
    }
}

/// The integer part of `v / d`: division that rounds towards zero.
pub open spec fn trunc_div(v: int, d: int) -> int
    recommends
        d > 0,
{
    if v >= 0 {
        v / d
    } else {
        -((-v) / d)
    }
}

/// `v`, or the end of the range of `i64` that it lies beyond.
pub open spec fn saturate_i64(v: int) -> int {
    if v > i64::MAX {
        i64::MAX as int
    } else if v < i64::MIN {
        i64::MIN as int
    } else {
        v
    }
}

/// Divides, rounding towards zero.
pub fn div_towards_zero(v: i128, d: u128) -> (q: i128)
    requires
        d > 0,
        v > i128::MIN,
    ensures
        q == trunc_div(v as int, d as int),
        v >= 0 ==> q * d <= v < q * d + d,
        v < 0 ==> q * d - d < v <= q * d,
{
    proof {
        lemma_trunc_div(v as int, d as int);
    }
    if v >= 0 {
        let m: u128 = v as u128;
        let q: u128 = m / d;
        proof {
            lemma_quotient_bounds(m as int, d as int);
        }
        q as i128
    } else {
        let m: u128 = (-v) as u128;
        let q: u128 = m / d;
        proof {
            lemma_quotient_bounds(m as int, d as int);
        }
        -(q as i128)
    }
}

/// Rounding towards zero leaves less than one divisor over, on the side away from
/// zero.
pub proof fn lemma_trunc_div(v: int, d: int)
    requires
        d > 0,
    ensures
        v >= 0 ==> trunc_div(v, d) * d <= v < trunc_div(v, d) * d + d,
        v < 0 ==> trunc_div(v, d) * d - d < v <= trunc_div(v, d) * d,
{
    let m = if v >= 0 {
        v
    } else {
        -v
    };
    let q = m / d;
    assert(q * d <= m < q * d + d) by (nonlinear_arith)
        requires
            q == m / d,
            d > 0,
    ;
    assert((-q) * d == -(q * d)) by (nonlinear_arith);
}

/// A quotient by a positive divisor is no larger than what was divided.
pub proof fn lemma_quotient_bounds(m: int, d: int)
    requires
        m >= 0,
        d > 0,
    ensures
        0 <= m / d <= m,
{
    vstd::arithmetic::div_mod::lemma_div_pos_is_pos(m, d);
    vstd::arithmetic::div_mod::lemma_div_is_ordered_by_denominator(m, 1, d);
}

/// Brings a value into the range of `i64`.
pub fn clamp_to_i64(v: i128) -> (r: i64)
    ensures
        r == saturate_i64(v as int),
        i64::MIN <= v <= i64::MAX ==> r == v,
        v > i64::MAX ==> r == i64::MAX,
        v < i64::MIN ==> r == i64::MIN,
{
    if v > 9_223_372_036_854_775_807 {
        i64::MAX
    } else if v < -9_223_372_036_854_775_808 {
        i64::MIN
    } else {
        v as i64
    }
}

} // verus!
