//! Exact models of the machine arithmetic the simulator uses.
//!
//! Rust's `/` on signed integers rounds toward zero, while `/` in
//! specifications is Euclidean; [`tdiv`] is the spec-level image of the
//! executable operator, and every contract in the crate states divisions
//! through it. [`isqrt`] is the integer square root that stands in for the
//! real-valued square root of the underlying dynamics.

use vstd::prelude::*;
use vstd::arithmetic::div_mod::{
    lemma_multiply_divide_le, lemma_div_pos_is_pos, lemma_div_nonincreasing,
};

verus! {

/// Division rounding toward zero: what Rust's `/` computes on signed
/// integers with a positive divisor.
pub open spec fn tdiv(a: int, b: int) -> int
    recommends
        b >= 1,
{
    if a >= 0 {
        a / b
    } else {
        -((-a) / b)
    }
}

/// The executable `/` on `i64` agrees with `tdiv` for positive divisors.
pub fn div_trunc(a: i64, b: i64) -> (q: i64)
    requires
        b >= 1,
    ensures
        q == tdiv(a as int, b as int),
{
    a / b
}

/// The executable `/` on `i128` agrees with `tdiv` for positive divisors.
pub fn div_trunc_i128(a: i128, b: i128) -> (q: i128)
    requires
        b >= 1,
    ensures
        q == tdiv(a as int, b as int),
{
    a / b
}

/// A quotient is no larger in magnitude than any bound the dividend stays
/// under `d` times: if `|v| <= d * c` then `|tdiv(v, d)| <= c`.
pub proof fn lemma_tdiv_abs_bound(v: int, d: int, c: int)
    requires
        d >= 1,
        c >= 0,
        -(d * c) <= v <= d * c,
    ensures
        -c <= tdiv(v, d) <= c,
{
    assert(d * c == c * d) by (nonlinear_arith);
    if v >= 0 {
        lemma_multiply_divide_le(v, d, c);
        lemma_div_pos_is_pos(v, d);
    } else {
        lemma_multiply_divide_le(-v, d, c);
        lemma_div_pos_is_pos(-v, d);
    }
}

/// A quotient of non-negative operands lies between zero and the dividend.
pub proof fn lemma_div_nonneg_le(v: int, d: int)
    requires
        v >= 0,
        d >= 1,
    ensures
        0 <= v / d <= v,
{
    lemma_div_pos_is_pos(v, d);
    lemma_div_nonincreasing(v, d);
}

/// A square grows with the magnitude of its root: if `|a| <= c` then
/// `a * a <= c * c`.
pub proof fn lemma_square_bound(a: int, c: int)
    requires
        -c <= a <= c,
    ensures
        0 <= a * a <= c * c,
{
    assert(0 <= a * a <= c * c) by (nonlinear_arith)
        requires
            -c <= a <= c,
    {}
}

/// A product of non-negative factors is bounded by the product of bounds.
pub proof fn lemma_mul_le(a: int, amax: int, b: int, bmax: int)
    requires
        0 <= a <= amax,
        0 <= b <= bmax,
    ensures
        0 <= a * b <= amax * bmax,
{
    assert(0 <= a * b <= amax * bmax) by (nonlinear_arith)
        requires
            0 <= a <= amax,
            0 <= b <= bmax,
    {}
}

/// A product is bounded in magnitude by the product of magnitude bounds,
/// when the second factor is non-negative.
pub proof fn lemma_mul_abs_le(a: int, amax: int, b: int, bmax: int)
    requires
        -amax <= a <= amax,
        0 <= b <= bmax,
    ensures
        -(amax * bmax) <= a * b <= amax * bmax,
{
    assert(-(amax * bmax) <= a * b <= amax * bmax) by (nonlinear_arith)
        requires
            -amax <= a <= amax,
            0 <= b <= bmax,
    {}
}

/// The integer square root: the largest `r` with `r * r <= n`.
pub open spec fn isqrt(n: int) -> int
    decreases n,
{
    if n <= 0 {
        0
    } else {
        let r = isqrt(n - 1);
        if (r + 1) * (r + 1) <= n {
            r + 1
        } else {
            r
        }
    }
}

/// `isqrt(n)` is the unique non-negative root with
/// `isqrt(n)^2 <= n < (isqrt(n) + 1)^2`.
pub proof fn lemma_isqrt_bounds(n: int)
    requires
        n >= 0,
    ensures
        isqrt(n) >= 0,
        isqrt(n) * isqrt(n) <= n,
        n < (isqrt(n) + 1) * (isqrt(n) + 1),
    decreases n,
{
    if n > 0 {
        lemma_isqrt_bounds(n - 1);
        let r = isqrt(n - 1);
        if (r + 1) * (r + 1) <= n {
            assert(n < (r + 2) * (r + 2)) by (nonlinear_arith)
                requires
                    r >= 0,
                    n - 1 < (r + 1) * (r + 1),
            {}
        }
    }
}

/// Any `r` in the square-root window equals `isqrt(n)`.
pub proof fn lemma_isqrt_unique(n: int, r: int)
    requires
        n >= 0,
        r >= 0,
        r * r <= n,
        n < (r + 1) * (r + 1),
    ensures
        r == isqrt(n),
{
    lemma_isqrt_bounds(n);
    let s = isqrt(n);
    if r < s {
        assert((r + 1) * (r + 1) <= s * s) by (nonlinear_arith)
            requires
                0 <= r,
                r + 1 <= s,
        {}
    }
    if s < r {
        assert((s + 1) * (s + 1) <= r * r) by (nonlinear_arith)
            requires
                0 <= s,
                s + 1 <= r,
        {}
    }
}

/// Whatever squares to at most `n` is bounded in magnitude by `isqrt(n)`.
pub proof fn lemma_abs_le_isqrt(a: int, n: int)
    requires
        n >= 0,
        a * a <= n,
    ensures
        -isqrt(n) <= a <= isqrt(n),
{
    lemma_isqrt_bounds(n);
    let r = isqrt(n);
    if a > r {
        assert((r + 1) * (r + 1) <= a * a) by (nonlinear_arith)
            requires
                0 <= r,
                r + 1 <= a,
        {}
    }
    if a < -r {
        assert((r + 1) * (r + 1) <= a * a) by (nonlinear_arith)
            requires
                0 <= r,
                a <= -(r + 1),
        {}
    }
}

/// Computes the integer square root by bisection.
pub fn sqrt_i64(n: i64) -> (r: i64)
    requires
        0 <= n,
    ensures
        r == isqrt(n as int),
        r * r <= n,
        0 <= r < 0xB504_F334,
{
    let mut lo: i64 = 0;
    let mut hi: i64 = 0xB504_F334;
    proof {
        assert((0xB504_F334i64 as int) * (0xB504_F334i64 as int) > i64::MAX as int);
    }
    while lo + 1 < hi
        invariant
            0 <= lo < hi <= 0xB504_F334,
            lo * lo <= n,
            n < hi * hi,
        decreases hi - lo,
    {
        let mid = lo + (hi - lo) / 2;
        if mid <= 0xB504_F333 {
            proof {
                lemma_square_bound(mid as int, 0xB504_F333);
            }
            if mid * mid <= n {
                lo = mid;
            } else {
                hi = mid;
            }
        } else {
            proof {
                assert(n < mid * mid) by (nonlinear_arith)
                    requires
                        mid >= 0xB504_F334,
                        n <= i64::MAX,
                {}
            }
            hi = mid;
        }
    }
    proof {
        lemma_isqrt_unique(n as int, lo as int);
    }
    lo
}

} // verus!
