//! Truncating fixed-point arithmetic used by the placement engine:
//! lengths in font design units are scaled by a rational factor
//! `num / den` with the quotient truncated toward zero.

use vstd::arithmetic::div_mod::{
    lemma_div_is_ordered, lemma_div_is_ordered_by_denominator, lemma_div_nonincreasing,
    lemma_div_pos_is_pos,
};
use vstd::prelude::*;

verus! {

/// Division truncated toward zero (like machine division), `b > 0`.
pub open spec fn div_tz(a: int, b: int) -> int {
    if a >= 0 {
        a / b
    } else {
        -((-a) / b)
    }
}

/// A length `c` scaled by `num / den`, truncated toward zero.
pub open spec fn scale_tz(c: int, num: int, den: int) -> int {
    div_tz(c * num, den)
}

/// `|div_tz(a, b)|` is at most `|a| / b`, so at most `|a|`.
pub proof fn lemma_div_tz_bound(a: int, b: int, m: int)
    requires
        b >= 1,
        -m <= a <= m,
        0 <= m,
    ensures
        -m <= div_tz(a, b) <= m,
        b >= 1000 ==> -(m / 1000) <= div_tz(a, b) <= m / 1000,
{
    if a >= 0 {
        lemma_div_pos_is_pos(a, b);
        lemma_div_nonincreasing(a, b);
        lemma_div_is_ordered(a, m, b);
        if b >= 1000 {
            lemma_div_is_ordered_by_denominator(a, 1000, b);
            lemma_div_is_ordered(a, m, 1000);
            lemma_div_pos_is_pos(m, 1000);
        }
    } else {
        lemma_div_pos_is_pos(-a, b);
        lemma_div_nonincreasing(-a, b);
        lemma_div_is_ordered(-a, m, b);
        if b >= 1000 {
            lemma_div_is_ordered_by_denominator(-a, 1000, b);
            lemma_div_is_ordered(-a, m, 1000);
            lemma_div_pos_is_pos(m, 1000);
        }
    }
}

/// Bound on a scaled length from bounds on its parts.
pub proof fn lemma_scale_tz_bound(c: int, num: int, den: int, cm: int, nm: int)
    requires
        den >= 1,
        0 <= num <= nm,
        -cm <= c <= cm,
        0 <= cm,
    ensures
        -(cm * nm) <= scale_tz(c, num, den) <= cm * nm,
        den >= 1000 ==> -(cm * nm / 1000) <= scale_tz(c, num, den) <= cm * nm / 1000,
{
    assert(-(cm * nm) <= c * num <= cm * nm) by (nonlinear_arith)
        requires
            0 <= num <= nm,
            -cm <= c <= cm,
            0 <= cm,
    ;
    assert(cm * nm >= 0) by (nonlinear_arith)
        requires
            0 <= cm,
            0 <= nm,
    ;
    lemma_div_tz_bound(c * num, den, cm * nm);
}

/// Truncating division is monotone in the dividend.
pub proof fn lemma_div_tz_monotone(a1: int, a2: int, b: int)
    requires
        b >= 1,
        a1 <= a2,
    ensures
        div_tz(a1, b) <= div_tz(a2, b),
{
    if a1 >= 0 {
        lemma_div_is_ordered(a1, a2, b);
    } else if a2 >= 0 {
        lemma_div_pos_is_pos(-a1, b);
        lemma_div_pos_is_pos(a2, b);
    } else {
        lemma_div_is_ordered(-a2, -a1, b);
    }
}

/// Scaling by a positive factor is monotone in the length.
pub proof fn lemma_scale_tz_monotone(c1: int, c2: int, num: int, den: int)
    requires
        num >= 1,
        den >= 1,
        c1 <= c2,
    ensures
        scale_tz(c1, num, den) <= scale_tz(c2, num, den),
{
    assert(c1 * num <= c2 * num) by (nonlinear_arith)
        requires
            c1 <= c2,
            num >= 1,
    ;
    lemma_div_tz_monotone(c1 * num, c2 * num, den);
}

/// Exact truncating division, `b > 0`.
pub fn div_trunc(a: i64, b: i64) -> (r: i64)
    requires
        b > 0,
        a > i64::MIN,
    ensures
        r == div_tz(a as int, b as int),
{
    proof {
        if a < 0 {
            lemma_div_pos_is_pos(-(a as int), b as int);
            lemma_div_nonincreasing(-(a as int), b as int);
        }
    }
    if a >= 0 {
        a / b
    } else {
        -((-a) / b)
    }
}

} // verus!
