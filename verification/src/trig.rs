//! Fixed-point sine and cosine.
//!
//! Angles are measured in *turns* at fixed-point scale: `SCALE` is one
//! full revolution.  The phase is reduced exactly (a Euclidean
//! remainder) and folded by quadrant onto two quarter-wave truncated
//! Taylor polynomials in the radian measure — one for the cosine and
//! one for the sine, so that exact quarter-turn phases give exact
//! values.  Results are clamped into `[-SCALE, SCALE]`, so no rounding
//! can push them outside their range.

use vstd::prelude::*;

verus! {

use crate::fixed::{SCALE, tdiv, clamp, div_trunc, clamp_i128, rem_floor, lemma_tdiv_le};
use vstd::arithmetic::div_mod::lemma_div_pos_is_pos;

/// One quarter turn: `SCALE / 4`.
pub const QUARTER: i128 = 1073741824;

/// Two pi at fixed-point scale, rounded down.
pub const TWO_PI: i128 = 26986075409;

/// The quarter-wave cosine: for `r` in `[0, QUARTER]` this approximates
/// `cos(2*pi*r/SCALE) * SCALE` by a Taylor polynomial in the radian
/// measure, every product rounded toward zero, clamped into
/// `[-SCALE, SCALE]`.
pub open spec fn cos_quarter_s(r: int) -> int {
    let th = tdiv(r * TWO_PI, SCALE as int);
    let x2 = tdiv(th * th, SCALE as int);
    let x4 = tdiv(x2 * x2, SCALE as int);
    let x6 = tdiv(x4 * x2, SCALE as int);
    let x8 = tdiv(x6 * x2, SCALE as int);
    clamp(
        SCALE - tdiv(x2, 2) + tdiv(x4, 24) - tdiv(x6, 720) + tdiv(x8, 40320),
        -(SCALE as int),
        SCALE as int,
    )
}

/// The quarter-wave sine: for `r` in `[0, QUARTER]` this approximates
/// `sin(2*pi*r/SCALE) * SCALE` the same way, so it is exactly zero at
/// `r == 0`.
pub open spec fn sin_quarter_s(r: int) -> int {
    let th = tdiv(r * TWO_PI, SCALE as int);
    let x2 = tdiv(th * th, SCALE as int);
    let p3 = tdiv(th * x2, SCALE as int);
    let p5 = tdiv(p3 * x2, SCALE as int);
    let p7 = tdiv(p5 * x2, SCALE as int);
    let p9 = tdiv(p7 * x2, SCALE as int);
    clamp(
        th - tdiv(p3, 6) + tdiv(p5, 120) - tdiv(p7, 5040) + tdiv(p9, 362880),
        -(SCALE as int),
        SCALE as int,
    )
}

/// The cosine of `x` turns (fixed-point), reduced to one period and
/// folded onto the two quarter-wave polynomials, so that quarter-turn
/// boundaries are exact.
pub open spec fn cos_turns_s(x: int) -> int {
    let ph = x % (SCALE as int);
    if ph < QUARTER {
        cos_quarter_s(ph)
    } else if ph < 2 * QUARTER {
        -sin_quarter_s(ph - QUARTER)
    } else if ph < 3 * QUARTER {
        -cos_quarter_s(ph - 2 * QUARTER)
    } else {
        sin_quarter_s(ph - 3 * QUARTER)
    }
}

/// The sine of `x` turns, folded the same way.
pub open spec fn sin_turns_s(x: int) -> int {
    let ph = x % (SCALE as int);
    if ph < QUARTER {
        sin_quarter_s(ph)
    } else if ph < 2 * QUARTER {
        cos_quarter_s(ph - QUARTER)
    } else if ph < 3 * QUARTER {
        -sin_quarter_s(ph - 2 * QUARTER)
    } else {
        -cos_quarter_s(ph - 3 * QUARTER)
    }
}

/// The quarter-wave cosine polynomial.
pub fn cos_quarter(r: i128) -> (c: i128)
    requires
        0 <= r <= QUARTER,
    ensures
        c == cos_quarter_s(r as int),
        -SCALE <= c <= SCALE,
{
    proof {
        assert(0 <= r as int * TWO_PI <= 6746518853int * SCALE);
        lemma_tdiv_le(r as int * TWO_PI, SCALE as int, 6746518853int);
        lemma_div_pos_is_pos(r as int * TWO_PI, SCALE as int);
    }
    let th = div_trunc(r * TWO_PI, SCALE);
    proof {
        assert(th as int * th as int <= 6746518853int * 6746518853int) by (nonlinear_arith)
            requires
                0 <= th <= 6746518853int,
        ;
        assert(th as int * th as int >= 0) by (nonlinear_arith)
            requires
                th >= 0,
        ;
        assert(6746518853int * 6746518853int <= 10597407035int * SCALE);
        lemma_tdiv_le(th as int * th as int, SCALE as int, 10597407035int);
        lemma_div_pos_is_pos(th as int * th as int, SCALE as int);
    }
    let x2 = div_trunc(th * th, SCALE);
    proof {
        assert(x2 as int * x2 as int <= 10597407035int * 10597407035int) by (nonlinear_arith)
            requires
                0 <= x2 <= 10597407035int,
        ;
        assert(x2 as int * x2 as int >= 0) by (nonlinear_arith)
            requires
                x2 >= 0,
        ;
        assert(10597407035int * 10597407035int <= 26148053787int * SCALE);
        lemma_tdiv_le(x2 as int * x2 as int, SCALE as int, 26148053787int);
        lemma_div_pos_is_pos(x2 as int * x2 as int, SCALE as int);
    }
    let x4 = div_trunc(x2 * x2, SCALE);
    proof {
        assert(x4 as int * x2 as int <= 26148053787int * 10597407035int) by (nonlinear_arith)
            requires
                0 <= x4 <= 26148053787int,
                0 <= x2 <= 10597407035int,
        ;
        assert(x4 as int * x2 as int >= 0) by (nonlinear_arith)
            requires
                x4 >= 0,
                x2 >= 0,
        ;
        assert(26148053787int * 10597407035int <= 64517736704int * SCALE);
        lemma_tdiv_le(x4 as int * x2 as int, SCALE as int, 64517736704int);
        lemma_div_pos_is_pos(x4 as int * x2 as int, SCALE as int);
    }
    let x6 = div_trunc(x4 * x2, SCALE);
    proof {
        assert(x6 as int * x2 as int <= 64517736704int * 10597407035int) by (nonlinear_arith)
            requires
                0 <= x6 <= 64517736704int,
                0 <= x2 <= 10597407035int,
        ;
        assert(x6 as int * x2 as int >= 0) by (nonlinear_arith)
            requires
                x6 >= 0,
                x2 >= 0,
        ;
        assert(64517736704int * 10597407035int <= 159191134579int * SCALE);
        lemma_tdiv_le(x6 as int * x2 as int, SCALE as int, 159191134579int);
        lemma_div_pos_is_pos(x6 as int * x2 as int, SCALE as int);
    }
    let x8 = div_trunc(x6 * x2, SCALE);
    let sum = SCALE - div_trunc(x2, 2) + div_trunc(x4, 24) - div_trunc(x6, 720) + div_trunc(
        x8,
        40320,
    );
    clamp_i128(sum, -SCALE, SCALE)
}

/// The quarter-wave sine polynomial.
pub fn sin_quarter(r: i128) -> (v: i128)
    requires
        0 <= r <= QUARTER,
    ensures
        v == sin_quarter_s(r as int),
        -SCALE <= v <= SCALE,
{
    proof {
        assert(0 <= r as int * TWO_PI <= 6746518853int * SCALE);
        lemma_tdiv_le(r as int * TWO_PI, SCALE as int, 6746518853int);
        lemma_div_pos_is_pos(r as int * TWO_PI, SCALE as int);
    }
    let th = div_trunc(r * TWO_PI, SCALE);
    proof {
        assert(th as int * th as int <= 6746518853int * 6746518853int) by (nonlinear_arith)
            requires
                0 <= th <= 6746518853int,
        ;
        assert(th as int * th as int >= 0) by (nonlinear_arith)
            requires
                th >= 0,
        ;
        assert(6746518853int * 6746518853int <= 10597407035int * SCALE);
        lemma_tdiv_le(th as int * th as int, SCALE as int, 10597407035int);
        lemma_div_pos_is_pos(th as int * th as int, SCALE as int);
    }
    let x2 = div_trunc(th * th, SCALE);
    proof {
        assert(0 <= th as int * x2 as int <= 6746518853int * 10597407035int) by (nonlinear_arith)
            requires
                0 <= th <= 6746518853int,
                0 <= x2 <= 10597407035int,
        ;
        assert(6746518853int * 10597407035int <= 16646368046int * SCALE);
        lemma_tdiv_le(th as int * x2 as int, SCALE as int, 16646368046int);
        lemma_div_pos_is_pos(th as int * x2 as int, SCALE as int);
    }
    let p3 = div_trunc(th * x2, SCALE);
    proof {
        assert(0 <= p3 as int * x2 as int <= 16646368046int * 10597407035int) by (nonlinear_arith)
            requires
                0 <= p3 <= 16646368046int,
                0 <= x2 <= 10597407035int,
        ;
        assert(16646368046int * 10597407035int <= 41073266845int * SCALE);
        lemma_tdiv_le(p3 as int * x2 as int, SCALE as int, 41073266845int);
        lemma_div_pos_is_pos(p3 as int * x2 as int, SCALE as int);
    }
    let p5 = div_trunc(p3 * x2, SCALE);
    proof {
        assert(0 <= p5 as int * x2 as int <= 41073266845int * 10597407035int) by (nonlinear_arith)
            requires
                0 <= p5 <= 41073266845int,
                0 <= x2 <= 10597407035int,
        ;
        assert(41073266845int * 10597407035int <= 101344223836int * SCALE);
        lemma_tdiv_le(p5 as int * x2 as int, SCALE as int, 101344223836int);
        lemma_div_pos_is_pos(p5 as int * x2 as int, SCALE as int);
    }
    let p7 = div_trunc(p5 * x2, SCALE);
    proof {
        assert(0 <= p7 as int * x2 as int <= 101344223836int * 10597407035int) by (nonlinear_arith)
            requires
                0 <= p7 <= 101344223836int,
                0 <= x2 <= 10597407035int,
        ;
        assert(101344223836int * 10597407035int <= 250056849476int * SCALE);
        lemma_tdiv_le(p7 as int * x2 as int, SCALE as int, 250056849476int);
        lemma_div_pos_is_pos(p7 as int * x2 as int, SCALE as int);
    }
    let p9 = div_trunc(p7 * x2, SCALE);
    let sum = th - div_trunc(p3, 6) + div_trunc(p5, 120) - div_trunc(p7, 5040) + div_trunc(
        p9,
        362880,
    );
    clamp_i128(sum, -SCALE, SCALE)
}

/// The cosine of `x` turns.
pub fn cos_turns(x: i128) -> (c: i128)
    requires
        x > i128::MIN,
    ensures
        c == cos_turns_s(x as int),
        -SCALE <= c <= SCALE,
{
    let ph = rem_floor(x, SCALE);
    if ph < QUARTER {
        cos_quarter(ph)
    } else if ph < 2 * QUARTER {
        -sin_quarter(ph - QUARTER)
    } else if ph < 3 * QUARTER {
        -cos_quarter(ph - 2 * QUARTER)
    } else {
        sin_quarter(ph - 3 * QUARTER)
    }
}

/// The sine of `x` turns.
pub fn sin_turns(x: i128) -> (c: i128)
    requires
        x > i128::MIN,
    ensures
        c == sin_turns_s(x as int),
        -SCALE <= c <= SCALE,
{
    let ph = rem_floor(x, SCALE);
    if ph < QUARTER {
        sin_quarter(ph)
    } else if ph < 2 * QUARTER {
        cos_quarter(ph - QUARTER)
    } else if ph < 3 * QUARTER {
        -sin_quarter(ph - 2 * QUARTER)
    } else {
        -cos_quarter(ph - 3 * QUARTER)
    }
}

} // verus!
