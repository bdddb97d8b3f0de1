//! Small integer helpers shared by the collision engine: absolute value,
//! per-axis clamping, and division that truncates toward zero (the rounding
//! the engine uses when scaling by fixed-point coefficients).

use vstd::prelude::*;

verus! {

/// Absolute value as a mathematical integer.
pub open spec fn abs_spec(a: int) -> int {
    if a >= 0 {
        a
    } else {
        -a
    }
}

/// Division truncating toward zero (like Rust's `/` on signed integers),
/// meaningful for `b > 0`.
pub open spec fn div_trunc(a: int, b: int) -> int {
    if a >= 0 {
        a / b
    } else {
        -((-a) / b)
    }
}

/// `a` clamped into `[lo, hi]`.
pub open spec fn clamp_spec(a: int, lo: int, hi: int) -> int {
    if a < lo {
        lo
    } else if a > hi {
        hi
    } else {
        a
    }
}

pub fn abs_i64(a: i64) -> (r: i64)
    requires
        a != i64::MIN,
    ensures
        r == abs_spec(a as int),
{
    if a >= 0 {
        a
    } else {
        -a
    }
}

pub fn clamp_i64(a: i64, lo: i64, hi: i64) -> (r: i64)
    requires
        lo <= hi,
    ensures
        r == clamp_spec(a as int, lo as int, hi as int),
{
    if a < lo {
        lo
    } else if a > hi {
        hi
    } else {
        a
    }
}

pub fn div_trunc_i64(a: i64, b: i64) -> (r: i64)
    requires
        a != i64::MIN,
        b > 0,
    ensures
        r == div_trunc(a as int, b as int),
{
    if a >= 0 {
        a / b
    } else {
        proof {
            lemma_div_nonneg(-(a as int), b as int);
            lemma_div_shrinks(-(a as int), b as int);
        }
        -((-a) / b)
    }
}

pub fn div_trunc_i128(a: i128, b: i128) -> (r: i128)
    requires
        a != i128::MIN,
        b > 0,
    ensures
        r == div_trunc(a as int, b as int),
{
    if a >= 0 {
        a / b
    } else {
        proof {
            lemma_div_nonneg(-(a as int), b as int);
            lemma_div_shrinks(-(a as int), b as int);
        }
        -((-a) / b)
    }
}

/// A nonnegative value divided by a positive one stays nonnegative.
pub proof fn lemma_div_nonneg(a: int, b: int)
    requires
        a >= 0,
        b > 0,
    ensures
        a / b >= 0,
{
    vstd::arithmetic::div_mod::lemma_div_pos_is_pos(a, b);
}

/// A nonnegative value divided by a positive one does not grow.
pub proof fn lemma_div_shrinks(a: int, b: int)
    requires
        a >= 0,
        b > 0,
    ensures
        a / b <= a,
{
    vstd::arithmetic::div_mod::lemma_div_nonincreasing(a, b);
}

/// Truncating division never exceeds the given magnitude bound:
/// `|a| <= m * b` gives `|a / b| <= m`.
pub proof fn lemma_div_trunc_bound(a: int, b: int, m: int)
    requires
        b > 0,
        m >= 0,
        abs_spec(a) <= m * b,
    ensures
        abs_spec(div_trunc(a, b)) <= m,
{
    vstd::arithmetic::mul::lemma_mul_is_commutative(m, b);
    vstd::arithmetic::div_mod::lemma_div_multiples_vanish(m, b);
    if a >= 0 {
        lemma_div_nonneg(a, b);
        vstd::arithmetic::div_mod::lemma_div_is_ordered(a, m * b, b);
    } else {
        lemma_div_nonneg(-a, b);
        vstd::arithmetic::div_mod::lemma_div_is_ordered(-a, m * b, b);
    }
}

/// Division truncating toward zero never grows the magnitude (for `b >= 1`).
pub proof fn lemma_div_trunc_shrinks(a: int, b: int)
    requires
        b > 0,
    ensures
        abs_spec(div_trunc(a, b)) <= abs_spec(a),
{
    if a >= 0 {
        lemma_div_nonneg(a, b);
        lemma_div_shrinks(a, b);
    } else {
        lemma_div_nonneg(-a, b);
        lemma_div_shrinks(-a, b);
    }
}

} // verus!
