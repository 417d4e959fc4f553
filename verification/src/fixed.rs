//! Fixed-point helpers: floor division, scaled multiplication and
//! division, and an integer square root.
//!
//! A scalar is an `i64` holding `value * SCALE`; intermediates are
//! carried in `i128` so the contracts can speak of the mathematical
//! result exactly.  All rounding is toward negative infinity, which is
//! what `int` division by a positive divisor means in specifications.

use vstd::prelude::*;

verus! {

use vstd::arithmetic::div_mod::{
    lemma_fundamental_div_mod,
    lemma_fundamental_div_mod_converse_div,
};

/// Floor quotient of `a` by a positive `b`, as plain machine division
/// only computes it for non-negative dividends.
pub fn div_floor(a: i128, b: i128) -> (q: i128)
    requires
        b > 0,
        a > i128::MIN,
    ensures
        q == a as int / b as int,
{
    if a >= 0 {
        let q = (a as u128) / (b as u128);
        proof {
            lemma_fundamental_div_mod(a as int, b as int);
        }
        q as i128
    } else {
        let n = (-a) as u128;
        let d = b as u128;
        let q = n / d;
        let r = n % d;
        proof {
            lemma_fundamental_div_mod(n as int, d as int);
            assert(n as int == (b as int) * (q as int) + (r as int));
            if r == 0 {
                assert(a as int == (-(q as int)) * (b as int) + 0) by (nonlinear_arith)
                    requires
                        a as int == -(n as int),
                        n as int == (b as int) * (q as int) + (r as int),
                        r == 0,
                {}
                lemma_fundamental_div_mod_converse_div(a as int, b as int, -(q as int), 0);
            } else {
                assert(a as int == (-(q as int) - 1) * (b as int) + ((b as int) - (r as int)))
                    by (nonlinear_arith)
                    requires
                        a as int == -(n as int),
                        n as int == (b as int) * (q as int) + (r as int),
                {}
                lemma_fundamental_div_mod_converse_div(
                    a as int,
                    b as int,
                    -(q as int) - 1,
                    b - r,
                );
            }
        }
        if r == 0 {
            -(q as i128)
        } else {
            -(q as i128) - 1
        }
    }
}

/// Product of two fixed-point scalars, `a * b / SCALE` rounded down.
pub fn fmul(a: i64, b: i64) -> (r: i64)
    requires
        i64::MIN * (crate::SCALE as int) <= a * b <= i64::MAX * (crate::SCALE as int),
    ensures
        r == a * b / (crate::SCALE as int),
{
    let p = (a as i128) * (b as i128);
    let q = div_floor(p, crate::SCALE as i128);
    proof {
        lemma_fundamental_div_mod(p as int, crate::SCALE as int);
        assert(i64::MIN <= p as int / (crate::SCALE as int) <= i64::MAX) by {
            let s = crate::SCALE as int;
            let qq = p as int / s;
            let rr = p as int % s;
            assert(p as int == s * qq + rr && 0 <= rr < s);
            assert(qq >= i64::MIN) by (nonlinear_arith)
                requires
                    p == s * qq + rr,
                    0 <= rr < s,
                    s > 0,
                    p >= i64::MIN * s,
            {}
            assert(qq <= i64::MAX) by (nonlinear_arith)
                requires
                    p == s * qq + rr,
                    0 <= rr < s,
                    s > 0,
                    p <= i64::MAX * s,
            {}
        }
    }
    q as i64
}

/// Floor quotient of `p` by a non-zero `q`, stated with a positive
/// divisor in both cases so that `/` always means floor here.
pub open spec fn div_f(p: int, q: int) -> int {
    if q > 0 {
        p / q
    } else {
        (-p) / (-q)
    }
}

/// Floor quotient of two `i128` values with a non-zero divisor.
pub fn div_f_i128(p: i128, q: i128) -> (r: i128)
    requires
        q != 0,
        p > i128::MIN,
        q > i128::MIN,
    ensures
        r == div_f(p as int, q as int),
{
    if q > 0 {
        div_floor(p, q)
    } else {
        div_floor(-p, -q)
    }
}

/// `r` is the integer square root of `n` rounded down.
pub open spec fn is_isqrt(n: int, r: int) -> bool {
    0 <= r && r * r <= n && n < (r + 1) * (r + 1)
}

/// The integer square root as a function, for use in contracts.
pub open spec fn isqrt_spec(n: int) -> int {
    choose|r: int| is_isqrt(n, r)
}

/// Any two floor square roots of the same number coincide.
proof fn lemma_isqrt_unique(n: int, a: int, b: int)
    requires
        is_isqrt(n, a),
        is_isqrt(n, b),
    ensures
        a == b,
{
    if a < b {
        assert((a + 1) * (a + 1) <= b * b) by (nonlinear_arith)
            requires
                0 <= a,
                a < b,
        {}
    }
    if b < a {
        assert((b + 1) * (b + 1) <= a * a) by (nonlinear_arith)
            requires
                0 <= b,
                b < a,
        {}
    }
}

/// Every non-negative number has a floor square root.
pub proof fn lemma_isqrt_exists(n: int)
    requires
        n >= 0,
    ensures
        is_isqrt(n, isqrt_spec(n)),
    decreases n,
{
    if n == 0 {
        assert(is_isqrt(0, 0));
    } else {
        lemma_isqrt_exists(n - 1);
        let r = isqrt_spec(n - 1);
        assert(is_isqrt(n - 1, r));
        if n < (r + 1) * (r + 1) {
            assert(is_isqrt(n, r));
            lemma_isqrt_is(n, r);
        } else {
            assert(n == (r + 1) * (r + 1));
            assert((r + 2) * (r + 2) > (r + 1) * (r + 1)) by (nonlinear_arith)
                requires
                    r >= 0,
            {}
            assert(is_isqrt(n, r + 1));
            lemma_isqrt_is(n, r + 1);
        }
    }
}

/// A witness pins `isqrt_spec` down.
pub proof fn lemma_isqrt_is(n: int, r: int)
    requires
        is_isqrt(n, r),
    ensures
        isqrt_spec(n) == r,
{
    assert(is_isqrt(n, isqrt_spec(n))) by {
        assert(is_isqrt(n, r));
    }
    lemma_isqrt_unique(n, isqrt_spec(n), r);
}

/// Integer square root by bisection.
pub fn isqrt(n: i128) -> (r: i128)
    requires
        n >= 0,
    ensures
        is_isqrt(n as int, r as int),
        r == isqrt_spec(n as int),
{
    let mut lo: u128 = 0;
    let mut hi: u128 = 18446744073709551616;
    proof {
        assert((hi as int) * (hi as int) > n) by (nonlinear_arith)
            requires
                hi == 18446744073709551616,
                n <= i128::MAX,
        {}
    }
    while lo + 1 < hi
        invariant
            lo < hi,
            hi <= 18446744073709551616,
            (lo as int) * (lo as int) <= n,
            (hi as int) * (hi as int) > n,
        decreases hi - lo,
    {
        let mid = lo + (hi - lo) / 2;
        proof {
            assert(mid < 18446744073709551616);
            assert((mid as int) * (mid as int) < u128::MAX) by (nonlinear_arith)
                requires
                    mid < 18446744073709551616,
            {}
        }
        if mid * mid <= (n as u128) {
            lo = mid;
        } else {
            hi = mid;
        }
    }
    proof {
        lemma_isqrt_is(n as int, lo as int);
    }
    lo as i128
}

} // verus!
