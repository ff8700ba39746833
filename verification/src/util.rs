//! Cyclic normalization: the position of a value inside a repeating
//! interval, as a fixed-point fraction.

use vstd::prelude::*;

verus! {

use crate::fixed::{SCALE, tquot, trem, iabs, div_trunc_any, rem_trunc};
use vstd::arithmetic::div_mod::lemma_fundamental_div_mod;

/// The fraction of the way `x` is through a cycle of length `y`:
/// `(x % y) / y` with the machine's truncating remainder and division,
/// at fixed-point scale.  The sign follows the remainder's — negative
/// for a negative `x` — and the magnitude is always under one.
pub open spec fn normalize_s(x: int, y: int) -> int {
    tquot(trem(x, y) * SCALE, y)
}

/// See [`normalize_s`].  Drives the cyclic animations: a time or an
/// index is folded into its period and scaled to a unit fraction.
pub fn normalize(x: i128, y: i128) -> (r: i128)
    requires
        y != 0,
        -1237940039285380274899124224 <= y <= 1237940039285380274899124224,
        x > i128::MIN,
    ensures
        r == normalize_s(x as int, y as int),
        -SCALE < r < SCALE,
        x >= 0 && y > 0 ==> r >= 0,
{
    let m = rem_trunc(x, y);
    proof {
        let s = SCALE as int;
        let num = m as int * s;
        let my = iabs(y as int);
        assert(iabs(num) < my * s) by (nonlinear_arith)
            requires
                num == m as int * s,
                iabs(m as int) < my,
                s > 0,
        ;
        let t = iabs(tquot(num, y as int));
        let q0 = iabs(num) / my;
        vstd::arithmetic::div_mod::lemma_div_pos_is_pos(iabs(num), my);
        assert(t == q0);
        lemma_fundamental_div_mod(iabs(num), my);
        vstd::arithmetic::div_mod::lemma_mod_division_less_than_divisor(iabs(num), my);
        assert(t < s) by (nonlinear_arith)
            requires
                t == q0,
                my * q0 <= iabs(num),
                iabs(num) < my * s,
                my > 0,
                q0 >= 0,
        ;
        if x >= 0 && y > 0 {
            assert(num >= 0) by (nonlinear_arith)
                requires
                    num == m as int * s,
                    m >= 0,
                    s > 0,
            ;
        }
    }
    div_trunc_any(m * SCALE, y)
}

} // verus!
