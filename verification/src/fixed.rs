//! Fixed-point scalars.
//!
//! A quantity of one world unit is represented by the integer [`SCALE`];
//! fractions are the lower 32 bits.  The spec functions here are the
//! mathematical vocabulary the rest of the crate's contracts use:
//! truncating and flooring division, absolute value, clamping, and the
//! floor of a square root.

use vstd::prelude::*;

verus! {

use vstd::arithmetic::div_mod::{lemma_fundamental_div_mod, lemma_fundamental_div_mod_converse};

/// One world unit: 2^32.
pub const SCALE: i128 = 4294967296;

/// Absolute value of a mathematical integer.
pub open spec fn iabs(a: int) -> int {
    if a >= 0 {
        a
    } else {
        -a
    }
}

/// Division rounding toward zero, for a positive divisor.  `/` on `int`
/// is Euclidean (floor for a positive divisor), so the negative case is
/// routed through the negation.
pub open spec fn tdiv(a: int, b: int) -> int {
    if a >= 0 {
        a / b
    } else {
        -((-a) / b)
    }
}

/// Division rounding toward zero for any nonzero divisor, as `/`
/// computes it on machine integers: the magnitudes divide and the signs
/// multiply.
pub open spec fn tquot(a: int, b: int) -> int {
    if (a >= 0) == (b >= 0) {
        iabs(a) / iabs(b)
    } else {
        -(iabs(a) / iabs(b))
    }
}

/// The truncating remainder, as `%` computes it on machine integers:
/// its sign follows the dividend's.
pub open spec fn trem(a: int, b: int) -> int {
    a - b * tquot(a, b)
}

/// Clamp `x` into `[lo, hi]`.
pub open spec fn clamp(x: int, lo: int, hi: int) -> int {
    if x < lo {
        lo
    } else if x > hi {
        hi
    } else {
        x
    }
}

/// The floor of the square root of `n`: for `n >= 0` this is the unique
/// `r >= 0` with `r * r <= n < (r + 1) * (r + 1)`.
pub open spec fn sqrt_floor(n: int) -> int {
    choose|r: int| 0 <= r && #[trigger] (r * r) <= n && n < (r + 1) * (r + 1)
}

/// Squaring is monotone on nonnegative integers.
pub proof fn lemma_square_monotone(a: int, b: int)
    requires
        0 <= a <= b,
    ensures
        a * a <= b * b,
{
    assert(a * a <= b * b) by (nonlinear_arith)
        requires
            0 <= a <= b,
    ;
}

/// Any two integers that both satisfy the square-root-floor property of
/// the same `n` are equal; so `sqrt_floor` is pinned down wherever a
/// witness exists.
pub proof fn lemma_sqrt_floor_is(n: int, r: int)
    requires
        0 <= r,
        r * r <= n,
        n < (r + 1) * (r + 1),
    ensures
        sqrt_floor(n) == r,
{
    assert(exists|q: int| 0 <= q && #[trigger] (q * q) <= n && n < (q + 1) * (q + 1)) by {
        assert(0 <= r && r * r <= n && n < (r + 1) * (r + 1));
    }
    let c = sqrt_floor(n);
    assert(0 <= c && c * c <= n && n < (c + 1) * (c + 1));
    if c < r {
        lemma_square_monotone(c + 1, r);
        assert(false);
    }
    if r < c {
        lemma_square_monotone(r + 1, c);
        assert(false);
    }
}

/// A square-root floor exists for every nonnegative integer.
pub proof fn lemma_sqrt_floor_exists(n: int)
    requires
        0 <= n,
    ensures
        0 <= sqrt_floor(n),
        sqrt_floor(n) * sqrt_floor(n) <= n,
        n < (sqrt_floor(n) + 1) * (sqrt_floor(n) + 1),
    decreases n,
{
    if n == 0 {
        lemma_sqrt_floor_is(0, 0);
    } else {
        lemma_sqrt_floor_exists(n - 1);
        let r = sqrt_floor(n - 1);
        if n < (r + 1) * (r + 1) {
            lemma_sqrt_floor_is(n, r);
        } else {
            assert(n == (r + 1) * (r + 1));
            assert((r + 1) * (r + 1) < (r + 2) * (r + 2)) by (nonlinear_arith)
                requires
                    r >= 0,
            ;
            lemma_sqrt_floor_is(n, r + 1);
        }
    }
}

/// The quotient of a truncating division, scaled back up by the divisor,
/// does not exceed the dividend in magnitude, and misses it by less than
/// one divisor.
pub proof fn lemma_tdiv_bounds(a: int, b: int)
    requires
        b > 0,
    ensures
        iabs(tdiv(a, b)) * b <= iabs(a),
        iabs(a) < (iabs(tdiv(a, b)) + 1) * b,
        iabs(tdiv(a, b)) <= iabs(a),
{
    let m = iabs(a);
    let q = m / b;
    lemma_fundamental_div_mod(m, b);
    vstd::arithmetic::div_mod::lemma_mod_division_less_than_divisor(m, b);
    assert((q + 1) * b == q * b + b) by (nonlinear_arith);
    assert(q * b <= m);
    assert(m < (q + 1) * b);
    assert(q <= q * b) by (nonlinear_arith)
        requires
            b > 0,
            q >= 0,
    ;
    if a >= 0 {
        assert(tdiv(a, b) == q);
    } else {
        assert(tdiv(a, b) == -q);
        assert(iabs(tdiv(a, b)) == q);
    }
}

/// A truncating division's residue is smaller than the divisor.
pub proof fn lemma_tdiv_resid(a: int, b: int)
    requires
        b > 0,
    ensures
        iabs(a - b * tdiv(a, b)) < b,
{
    if a >= 0 {
        lemma_fundamental_div_mod(a, b);
        vstd::arithmetic::div_mod::lemma_mod_division_less_than_divisor(a, b);
    } else {
        lemma_fundamental_div_mod(-a, b);
        vstd::arithmetic::div_mod::lemma_mod_division_less_than_divisor(-a, b);
        assert(b * (-((-a) / b)) == -(b * ((-a) / b))) by (nonlinear_arith);
    }
}

/// Squaring is strictly monotone on nonnegative integers.
pub proof fn lemma_square_strict_monotone(a: int, b: int)
    by (nonlinear_arith)
    requires
        0 <= a < b,
    ensures
        a * a < b * b,
{
}

/// Multiplying both sides of an inequality by a nonnegative factor.
pub proof fn lemma_mul_le_mono(k: int, a: int, b: int)
    by (nonlinear_arith)
    requires
        k >= 0,
        a <= b,
    ensures
        k * a <= k * b,
{
}

/// A strict inequality survives cancelling a positive common factor.
pub proof fn lemma_mul_lt_cancel(k: int, a: int, b: int)
    by (nonlinear_arith)
    requires
        k > 0,
        k * a < k * b,
    ensures
        a < b,
{
}

/// A quotient by a positive divisor stays below `c` when the dividend
/// is below `c` divisors.
pub proof fn lemma_div_bound(a: int, b: int, c: int)
    requires
        b > 0,
        0 <= a,
        a < b * c,
        c >= 0,
    ensures
        0 <= a / b < c,
{
    lemma_fundamental_div_mod(a, b);
    vstd::arithmetic::div_mod::lemma_mod_division_less_than_divisor(a, b);
    vstd::arithmetic::div_mod::lemma_div_pos_is_pos(a, b);
    let q = a / b;
    if q >= c {
        assert(b * q >= b * c) by (nonlinear_arith)
            requires
                b > 0,
                q >= c,
        ;
    }
}

/// A square root is bounded by any nonnegative `b` whose square covers
/// the operand.
pub proof fn lemma_sqrt_le_of_sq(n: int, b: int)
    requires
        0 <= n,
        b >= 0,
        n <= b * b,
    ensures
        sqrt_floor(n) <= b,
{
    lemma_sqrt_floor_exists(n);
    let r = sqrt_floor(n);
    if r > b {
        lemma_square_monotone(b + 1, r);
        assert(b * b < (b + 1) * (b + 1)) by (nonlinear_arith)
            requires
                b >= 0,
        ;
    }
}

/// If the dividend is at most `c` divisors, the truncated quotient is at
/// most `c`.
pub proof fn lemma_tdiv_le(a: int, b: int, c: int)
    requires
        b > 0,
        c >= 0,
        iabs(a) <= c * b,
    ensures
        iabs(tdiv(a, b)) <= c,
{
    lemma_tdiv_bounds(a, b);
    let t = iabs(tdiv(a, b));
    assert(t <= c) by (nonlinear_arith)
        requires
            t * b <= c * b,
            b > 0,
            t >= 0,
    ;
}

/// Truncating division (round toward zero) by a positive divisor.
pub fn div_trunc(a: i128, b: i128) -> (r: i128)
    requires
        b > 0,
        a > i128::MIN,
    ensures
        r == tdiv(a as int, b as int),
{
    if a >= 0 {
        a / b
    } else {
        -((-a) / b)
    }
}

/// Flooring division by a positive divisor; agrees with `/` on `int`.
pub fn div_floor(a: i128, b: i128) -> (r: i128)
    requires
        b > 0,
        a > i128::MIN,
    ensures
        r == a as int / b as int,
{
    if a >= 0 {
        a / b
    } else {
        let n = -a;
        let q = n / b;
        let rem = n % b;
        proof {
            lemma_fundamental_div_mod(n as int, b as int);
            if rem == 0 {
                assert(a as int == (-(q as int)) * (b as int) + 0) by (nonlinear_arith)
                    requires
                        n == (b as int) * (q as int) + rem,
                        rem == 0,
                        a == -n,
                ;
                lemma_fundamental_div_mod_converse(a as int, b as int, -(q as int), 0);
            } else {
                assert(a as int == (-(q as int) - 1) * (b as int) + ((b as int) - rem))
                    by (nonlinear_arith)
                    requires
                        n == (b as int) * (q as int) + rem,
                        a == -n,
                ;
                lemma_fundamental_div_mod_converse(
                    a as int,
                    b as int,
                    -(q as int) - 1,
                    (b - rem) as int,
                );
            }
        }
        if rem == 0 {
            -q
        } else {
            -q - 1
        }
    }
}

/// Euclidean remainder for a positive divisor; agrees with `%` on `int`,
/// so the result is always in `[0, b)`.
pub fn rem_floor(a: i128, b: i128) -> (r: i128)
    requires
        b > 0,
        a > i128::MIN,
    ensures
        r == a as int % b as int,
        0 <= r < b,
{
    if a >= 0 {
        a % b
    } else {
        let n = -a;
        let q = n / b;
        let rem = n % b;
        proof {
            lemma_fundamental_div_mod(n as int, b as int);
            if rem == 0 {
                assert(a as int == (-(q as int)) * (b as int) + 0) by (nonlinear_arith)
                    requires
                        n == (b as int) * (q as int) + rem,
                        rem == 0,
                        a == -n,
                ;
                lemma_fundamental_div_mod_converse(a as int, b as int, -(q as int), 0);
            } else {
                assert(a as int == (-(q as int) - 1) * (b as int) + ((b as int) - rem))
                    by (nonlinear_arith)
                    requires
                        n == (b as int) * (q as int) + rem,
                        a == -n,
                ;
                lemma_fundamental_div_mod_converse(
                    a as int,
                    b as int,
                    -(q as int) - 1,
                    (b - rem) as int,
                );
            }
        }
        if rem == 0 {
            0
        } else {
            b - rem
        }
    }
}

/// Truncating division by any nonzero divisor, as `/` computes it.
pub fn div_trunc_any(a: i128, b: i128) -> (r: i128)
    requires
        b != 0,
        a > i128::MIN,
        b > i128::MIN,
    ensures
        r == tquot(a as int, b as int),
{
    let aa = if a >= 0 {
        a
    } else {
        -a
    };
    let bb = if b >= 0 {
        b
    } else {
        -b
    };
    let q = aa / bb;
    if (a >= 0) == (b >= 0) {
        q
    } else {
        -q
    }
}

/// The truncating remainder, as `%` computes it: the sign follows the
/// dividend, the magnitude stays under the divisor's.
pub fn rem_trunc(a: i128, b: i128) -> (r: i128)
    requires
        b != 0,
        a > i128::MIN,
        b > i128::MIN,
    ensures
        r == trem(a as int, b as int),
        iabs(r as int) < iabs(b as int),
        a >= 0 ==> r >= 0,
        a < 0 ==> r <= 0,
{
    let q = div_trunc_any(a, b);
    proof {
        let ma = iabs(a as int);
        let mb = iabs(b as int);
        let q0 = ma / mb;
        lemma_fundamental_div_mod(ma, mb);
        vstd::arithmetic::div_mod::lemma_mod_division_less_than_divisor(ma, mb);
        assert((a >= 0 ==> (b as int) * (q as int) == mb * q0) && (a < 0 ==> (b as int) * (
        q as int) == -(mb * q0))) by (nonlinear_arith)
            requires
                (b as int) >= 0 ==> b as int == mb,
                (b as int) < 0 ==> b as int == -mb,
                ((a >= 0) == ((b as int) >= 0)) ==> q == q0,
                (!((a >= 0) == ((b as int) >= 0))) ==> q == -q0,
        ;
    }
    a - b * q
}

/// Clamp `x` into `[lo, hi]`.
pub fn clamp_i128(x: i128, lo: i128, hi: i128) -> (r: i128)
    requires
        lo <= hi,
    ensures
        r == clamp(x as int, lo as int, hi as int),
{
    if x < lo {
        lo
    } else if x > hi {
        hi
    } else {
        x
    }
}

/// Floor of the square root, by bisection.  The upper end of the first
/// bracket is one more than the square root of `i128::MAX`, so squaring
/// a midpoint never overflows.
pub fn isqrt(n: i128) -> (r: i128)
    requires
        0 <= n,
    ensures
        r == sqrt_floor(n as int),
        0 <= r,
        r * r <= n,
        n < (r + 1) * (r + 1),
{
    let mut lo: i128 = 0;
    let mut hi: i128 = 13043817825332782213;
    proof {
        assert((13043817825332782213int) * 13043817825332782213 > i128::MAX);
    }
    while lo + 1 < hi
        invariant
            0 <= lo < hi <= 13043817825332782213,
            lo * lo <= n,
            n < hi * hi,
            n <= i128::MAX,
        decreases hi - lo,
    {
        let mid = lo + (hi - lo) / 2;
        proof {
            assert(lo < mid < hi);
            assert(mid * mid <= 13043817825332782212int * 13043817825332782212) by (nonlinear_arith)
                requires
                    0 <= mid <= 13043817825332782212int,
            ;
            assert(13043817825332782212int * 13043817825332782212 <= i128::MAX);
        }
        if mid * mid <= n {
            lo = mid;
        } else {
            hi = mid;
        }
    }
    proof {
        lemma_sqrt_floor_is(n as int, lo as int);
    }
    lo
}

} // verus!
