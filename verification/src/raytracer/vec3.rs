//! Three-component vectors over fixed-point coordinates.
//!
//! The ghost type [`V3g`] is the mathematical model: an unbounded
//! integer triple.  Every executable operation's contract states the
//! exact integer result over that model, including the rounding of the
//! fixed-point scale divisions.

use vstd::prelude::*;

verus! {

use crate::fixed::{
    SCALE,
    tdiv,
    iabs,
    sqrt_floor,
    clamp,
    div_trunc,
    isqrt,
    clamp_i128,
    lemma_tdiv_bounds,
    lemma_sqrt_floor_exists,
    lemma_square_monotone,
    lemma_square_strict_monotone,
};

/// A vector of three fixed-point world coordinates.
#[derive(Clone, Copy, PartialEq, Eq, Structural, Debug)]
pub struct Vec3 {
    pub x: i128,
    pub y: i128,
    pub z: i128,
}

/// The mathematical model of a vector: an unbounded integer triple.
pub ghost struct V3g {
    pub x: int,
    pub y: int,
    pub z: int,
}

/// Bound under which componentwise sums stay far from the `i128` range: 2^100.
pub open spec fn lin_bound() -> int {
    1267650600228229401496703205376
}

/// Bound under which products of two coordinates stay far from the
/// `i128` range: 2^60.
pub open spec fn mul_bound() -> int {
    1152921504606846976
}

/// All three components within `[-b, b]`.
pub open spec fn gwithin(v: V3g, b: int) -> bool {
    iabs(v.x) <= b && iabs(v.y) <= b && iabs(v.z) <= b
}

pub open spec fn gzero() -> V3g {
    V3g { x: 0, y: 0, z: 0 }
}

pub open spec fn gadd(a: V3g, b: V3g) -> V3g {
    V3g { x: a.x + b.x, y: a.y + b.y, z: a.z + b.z }
}

pub open spec fn gsub(a: V3g, b: V3g) -> V3g {
    V3g { x: a.x - b.x, y: a.y - b.y, z: a.z - b.z }
}

pub open spec fn gneg(a: V3g) -> V3g {
    V3g { x: -a.x, y: -a.y, z: -a.z }
}

pub open spec fn gdot(a: V3g, b: V3g) -> int {
    a.x * b.x + a.y * b.y + a.z * b.z
}

pub open spec fn gcross(a: V3g, b: V3g) -> V3g {
    V3g {
        x: a.y * b.z - a.z * b.y,
        y: a.z * b.x - a.x * b.z,
        z: a.x * b.y - a.y * b.x,
    }
}

/// Scaling by a plain integer count.
pub open spec fn gscale_int(v: V3g, k: int) -> V3g {
    V3g { x: v.x * k, y: v.y * k, z: v.z * k }
}

/// Scaling by a fixed-point factor `s`: multiply and shift the scale
/// back out, rounding each component toward zero.
pub open spec fn gscale(v: V3g, s: int) -> V3g {
    V3g {
        x: tdiv(v.x * s, SCALE as int),
        y: tdiv(v.y * s, SCALE as int),
        z: tdiv(v.z * s, SCALE as int),
    }
}

/// The magnitude, rounded down to the fixed-point grid.
pub open spec fn gmag(v: V3g) -> int {
    sqrt_floor(gdot(v, v))
}

/// The unit vector along `v`: each component is scaled up by `SCALE`
/// and divided by the magnitude, rounding toward zero.
pub open spec fn gnorm(v: V3g) -> V3g {
    V3g {
        x: tdiv(v.x * SCALE, gmag(v)),
        y: tdiv(v.y * SCALE, gmag(v)),
        z: tdiv(v.z * SCALE, gmag(v)),
    }
}

/// Mirror `u` about a unit-scale normal `n`: `u - n * (2 * (u.n))`,
/// with both fixed-point products rounded toward zero.
pub open spec fn greflect(u: V3g, n: V3g) -> V3g {
    let d = tdiv(gdot(u, n), SCALE as int);
    V3g {
        x: u.x - tdiv(n.x * 2 * d, SCALE as int),
        y: u.y - tdiv(n.y * 2 * d, SCALE as int),
        z: u.z - tdiv(n.z * 2 * d, SCALE as int),
    }
}

/// A sum of squares is nonnegative, and each square is below it.
pub proof fn lemma_dot_self_bounds(v: V3g)
    ensures
        gdot(v, v) >= 0,
        v.x * v.x <= gdot(v, v),
        v.y * v.y <= gdot(v, v),
        v.z * v.z <= gdot(v, v),
{
    assert(v.x * v.x >= 0) by (nonlinear_arith);
    assert(v.y * v.y >= 0) by (nonlinear_arith);
    assert(v.z * v.z >= 0) by (nonlinear_arith);
}

/// Each component is bounded by the rounded-down magnitude.
pub proof fn lemma_component_le_mag(v: V3g)
    ensures
        iabs(v.x) <= gmag(v),
        iabs(v.y) <= gmag(v),
        iabs(v.z) <= gmag(v),
{
    lemma_dot_self_bounds(v);
    let q = gdot(v, v);
    lemma_sqrt_floor_exists(q);
    let m = sqrt_floor(q);
    assert forall|c: int| c * c <= q implies iabs(c) <= m by {
        if iabs(c) > m {
            lemma_square_monotone(m + 1, iabs(c));
            assert(iabs(c) * iabs(c) == c * c) by (nonlinear_arith);
        }
    }
}

/// A normalized vector has all components within the unit scale.
pub proof fn lemma_norm_within_scale(v: V3g)
    requires
        gdot(v, v) > 0,
    ensures
        gwithin(gnorm(v), SCALE as int),
{
    lemma_component_le_mag(v);
    lemma_sqrt_floor_exists(gdot(v, v));
    let m = gmag(v);
    assert(m >= 1);
    assert forall|c: int| iabs(c) <= m implies iabs(#[trigger] tdiv(c * SCALE, m)) <= SCALE by {
        lemma_tdiv_bounds(c * SCALE, m);
        assert(iabs(c * SCALE) == iabs(c) * SCALE) by (nonlinear_arith);
        let t = iabs(tdiv(c * SCALE, m));
        assert(t * m <= iabs(c) * SCALE);
        assert(iabs(c) * SCALE <= m * SCALE) by (nonlinear_arith)
            requires
                iabs(c) <= m,
        ;
        assert(t <= SCALE) by (nonlinear_arith)
            requires
                t * m <= m * (SCALE as int),
                m >= 1,
                t >= 0,
        ;
    }
}

impl Vec3 {
    /// The mathematical value of this vector.
    pub open spec fn m(self) -> V3g {
        V3g { x: self.x as int, y: self.y as int, z: self.z as int }
    }

    /// All three components within `[-b, b]`.
    pub open spec fn within(self, b: int) -> bool {
        gwithin(self.m(), b)
    }

    pub fn zero() -> (r: Vec3)
        ensures
            r.m() == gzero(),
    {
        Vec3 { x: 0, y: 0, z: 0 }
    }

    pub fn add(self, other: Vec3) -> (r: Vec3)
        requires
            self.within(lin_bound()),
            other.within(lin_bound()),
        ensures
            r.m() == gadd(self.m(), other.m()),
    {
        Vec3 { x: self.x + other.x, y: self.y + other.y, z: self.z + other.z }
    }

    pub fn sub(self, other: Vec3) -> (r: Vec3)
        requires
            self.within(lin_bound()),
            other.within(lin_bound()),
        ensures
            r.m() == gsub(self.m(), other.m()),
    {
        Vec3 { x: self.x - other.x, y: self.y - other.y, z: self.z - other.z }
    }

    pub fn neg(self) -> (r: Vec3)
        requires
            self.within(lin_bound()),
        ensures
            r.m() == gneg(self.m()),
    {
        Vec3 { x: -self.x, y: -self.y, z: -self.z }
    }

    pub fn dot(self, other: Vec3) -> (r: i128)
        requires
            self.within(mul_bound()),
            other.within(mul_bound()),
        ensures
            r == gdot(self.m(), other.m()),
    {
        proof {
            lemma_mul_abs_bound(self.x as int, other.x as int, mul_bound());
            lemma_mul_abs_bound(self.y as int, other.y as int, mul_bound());
            lemma_mul_abs_bound(self.z as int, other.z as int, mul_bound());
        }
        self.x * other.x + self.y * other.y + self.z * other.z
    }

    pub fn cross(self, other: Vec3) -> (r: Vec3)
        requires
            self.within(mul_bound()),
            other.within(mul_bound()),
        ensures
            r.m() == gcross(self.m(), other.m()),
    {
        proof {
            lemma_mul_abs_bound(self.y as int, other.z as int, mul_bound());
            lemma_mul_abs_bound(self.z as int, other.y as int, mul_bound());
            lemma_mul_abs_bound(self.z as int, other.x as int, mul_bound());
            lemma_mul_abs_bound(self.x as int, other.z as int, mul_bound());
            lemma_mul_abs_bound(self.x as int, other.y as int, mul_bound());
            lemma_mul_abs_bound(self.y as int, other.x as int, mul_bound());
        }
        Vec3 {
            x: self.y * other.z - self.z * other.y,
            y: self.z * other.x - self.x * other.z,
            z: self.x * other.y - self.y * other.x,
        }
    }

    /// Scale by a fixed-point factor.
    pub fn scale(self, s: i128) -> (r: Vec3)
        requires
            iabs(self.x as int * s as int) <= lin_bound(),
            iabs(self.y as int * s as int) <= lin_bound(),
            iabs(self.z as int * s as int) <= lin_bound(),
        ensures
            r.m() == gscale(self.m(), s as int),
    {
        Vec3 {
            x: div_trunc(self.x * s, SCALE),
            y: div_trunc(self.y * s, SCALE),
            z: div_trunc(self.z * s, SCALE),
        }
    }

    /// Scale by a plain integer count (a pixel column or row index).
    pub fn scale_int(self, k: i128) -> (r: Vec3)
        requires
            iabs(self.x as int * k as int) <= lin_bound(),
            iabs(self.y as int * k as int) <= lin_bound(),
            iabs(self.z as int * k as int) <= lin_bound(),
        ensures
            r.m() == gscale_int(self.m(), k as int),
    {
        Vec3 { x: self.x * k, y: self.y * k, z: self.z * k }
    }

    /// The unit vector perpendicular to `self` and `other`: the cross
    /// product, shifted back down to unit scale (so its square cannot
    /// overflow) and normalized.  Errs exactly when that shifted cross
    /// product is the zero vector — the inputs are parallel or too
    /// short.
    pub fn unit_cross(self, other: Vec3) -> (r: Result<Vec3, DegenerateVector>)
        requires
            self.within(unit_bound()),
            other.within(unit_bound()),
        ensures
            ({
                let c = gscale(gcross(self.m(), other.m()), 1);
                match r {
                    Ok(v) => gdot(c, c) > 0 && v.m() == gnorm(c) && v.within(SCALE as int),
                    Err(_) => c == gzero(),
                }
            }),
    {
        proof {
            lemma_gcross_bound(self.m(), other.m(), unit_bound(), unit_bound());
        }
        let c = self.cross(other);
        proof {
            crate::fixed::lemma_tdiv_le(c.m().x * 1, SCALE as int, 34359738368int);
            crate::fixed::lemma_tdiv_le(c.m().y * 1, SCALE as int, 34359738368int);
            crate::fixed::lemma_tdiv_le(c.m().z * 1, SCALE as int, 34359738368int);
        }
        let small = c.scale(1);
        small.norm()
    }

    /// Whether every component lies within `[-b, b]`.
    pub fn within_check(self, b: i128) -> (r: bool)
        requires
            b >= 0,
        ensures
            r == self.within(b as int),
    {
        -b <= self.x && self.x <= b && -b <= self.y && self.y <= b && -b <= self.z && self.z <= b
    }

    /// The magnitude, rounded down to the fixed-point grid.
    pub fn mag(self) -> (r: i128)
        requires
            self.within(mul_bound()),
        ensures
            r == gmag(self.m()),
            r >= 0,
    {
        let q = self.dot(self);
        proof {
            lemma_dot_self_bounds(self.m());
        }
        isqrt(q)
    }
}

/// Squared bounds for one component of a normalization: with `t` the
/// magnitude of the rounded quotient of `c * s` by `m`, the product
/// `m^2 t^2` brackets `s^2 c^2` to within one divisor on each side.
proof fn lemma_norm_component_squares(c: int, s: int, m: int, t: int)
    requires
        s > 0,
        m > 0,
        t >= 0,
        t == iabs(tdiv(c * s, m)),
    ensures
        m * m * (t * t) <= s * s * (c * c),
        s * s * (c * c) < m * m * (t * t) + m * m * (2 * t) + m * m,
{
    lemma_tdiv_bounds(c * s, m);
    let a = iabs(c);
    assert(iabs(c * s) == a * s) by {
        if c >= 0 {
            assert(c * s >= 0) by (nonlinear_arith)
                requires
                    c >= 0,
                    s > 0,
            ;
        } else {
            assert(c * s < 0) by (nonlinear_arith)
                requires
                    c < 0,
                    s > 0,
            ;
            assert(-(c * s) == (-c) * s) by (nonlinear_arith);
        }
    }
    assert(t * m <= a * s);
    assert(a * s < (t + 1) * m);
    assert(t * m >= 0) by (nonlinear_arith)
        requires
            t >= 0,
            m > 0,
    ;
    lemma_square_monotone(t * m, a * s);
    lemma_square_strict_monotone(a * s, (t + 1) * m);
    assert((t * m) * (t * m) == m * m * (t * t)) by (nonlinear_arith);
    assert((a * s) * (a * s) == s * s * (a * a)) by (nonlinear_arith);
    assert(a * a == c * c) by (nonlinear_arith)
        requires
            a == c || a == -c,
    ;
    assert(((t + 1) * m) * ((t + 1) * m) == m * m * (t * t) + m * m * (2 * t) + m * m)
        by (nonlinear_arith);
}

/// Normalizing a vector of at least unit length yields a vector whose
/// rounded-down magnitude is within four grid steps below the unit
/// scale — a relative error under `4 / SCALE`, which is below `1e-9`.
pub proof fn lemma_normalize_unit(v: V3g)
    requires
        gdot(v, v) >= SCALE * SCALE,
    ensures
        SCALE - 4 <= gmag(gnorm(v)) <= SCALE,
{
    let s = SCALE as int;
    let q = gdot(v, v);
    lemma_dot_self_bounds(v);
    lemma_sqrt_floor_exists(q);
    let m = gmag(v);
    assert(m >= s) by {
        if m < s {
            lemma_square_monotone(m + 1, s);
        }
    }
    lemma_norm_within_scale(v);
    let w = gnorm(v);
    let t1 = iabs(w.x);
    let t2 = iabs(w.y);
    let t3 = iabs(w.z);
    lemma_norm_component_squares(v.x, s, m, t1);
    lemma_norm_component_squares(v.y, s, m, t2);
    lemma_norm_component_squares(v.z, s, m, t3);
    let nn = gdot(w, w);
    lemma_dot_self_bounds(w);
    assert(w.x * w.x == t1 * t1) by (nonlinear_arith)
        requires
            t1 == w.x || t1 == -w.x,
    ;
    assert(w.y * w.y == t2 * t2) by (nonlinear_arith)
        requires
            t2 == w.y || t2 == -w.y,
    ;
    assert(w.z * w.z == t3 * t3) by (nonlinear_arith)
        requires
            t3 == w.z || t3 == -w.z,
    ;
    let tsum = t1 + t2 + t3;
    lemma_mul_distrib3(s * s, v.x * v.x, v.y * v.y, v.z * v.z, q);
    lemma_mul_distrib3(m * m, t1 * t1, t2 * t2, t3 * t3, nn);
    lemma_mul_distrib3(m * m, 2 * t1, 2 * t2, 2 * t3, 2 * tsum);
    assert(m * m > 0) by (nonlinear_arith)
        requires
            m >= 1,
    ;
    // Lower bound: s^2 q < m^2 (nn + 2 tsum + 3), and q >= m^2.
    assert(s * s * q < m * m * nn + m * m * (2 * tsum) + m * m * 3) by {
        assert(m * m * 3 == m * m + m * m + m * m) by (nonlinear_arith);
    }
    crate::fixed::lemma_mul_le_mono(s * s, m * m, q);
    lemma_mul_distrib3(m * m, nn, 2 * tsum, 3, nn + 2 * tsum + 3);
    assert(m * m * (s * s) < m * m * (nn + 2 * tsum + 3)) by (nonlinear_arith)
        requires
            s * s * (m * m) < m * m * nn + m * m * (2 * tsum) + m * m * 3,
            m * m * (nn + 2 * tsum + 3) == m * m * nn + m * m * (2 * tsum) + m * m * 3,
    ;
    crate::fixed::lemma_mul_lt_cancel(m * m, s * s, nn + 2 * tsum + 3);
    assert(tsum <= 3 * s);
    assert((s - 4) * (s - 4) == s * s - 8 * s + 16) by (nonlinear_arith);
    assert(nn >= (s - 4) * (s - 4));
    // Upper bound: m^2 nn <= s^2 q < s^2 (m + 1)^2.
    assert(m * m * nn <= s * s * q);
    crate::fixed::lemma_mul_le_mono(s * s, q, (m + 1) * (m + 1) - 1);
    assert(s * s * ((m + 1) * (m + 1) - 1) == s * s * ((m + 1) * (m + 1)) - s * s)
        by (nonlinear_arith);
    assert(m * m * nn < s * s * ((m + 1) * (m + 1)));
    lemma_sqrt_floor_exists(nn);
    let r = sqrt_floor(nn);
    assert(r == gmag(w));
    if r < s - 4 {
        lemma_square_monotone(r + 1, s - 4);
        assert(false);
    }
    if r > s {
        lemma_square_monotone(s + 1, r);
        assert(nn >= (s + 1) * (s + 1));
        crate::fixed::lemma_mul_le_mono(m * m, (s + 1) * (s + 1), nn);
        assert(m * m * ((s + 1) * (s + 1)) == m * m * (s * s) + m * m * (2 * s) + m * m)
            by (nonlinear_arith);
        assert(s * s * ((m + 1) * (m + 1)) == s * s * (m * m) + s * s * (2 * m) + s * s)
            by (nonlinear_arith);
        assert(m * m * (2 * s) >= s * s * (2 * m)) by (nonlinear_arith)
            requires
                m >= s,
                s >= 1,
        ;
        lemma_square_monotone(s, m);
        assert(false);
    }
}

/// One component's bookkeeping for [`lemma_reflect_unit_magnitude`]:
/// with `ti` the rounded mirror term of component `(uc, nc)`, the gap
/// `ei` between `SCALE^2 * ti` and its exact value `2 * nc * b` is
/// under three square scales, and the component relates to the exact
/// mirror direction by exactly that gap.
proof fn lemma_reflect_component_error(uc: int, nc: int, b: int, d: int, ti: int)
    requires
        iabs(nc) <= SCALE as int,
        iabs(b - (SCALE as int) * d) < SCALE as int,
        iabs(nc * 2 * d - (SCALE as int) * ti) < SCALE as int,
    ensures
        iabs((SCALE as int) * (SCALE as int) * ti - 2 * nc * b) <= 3 * ((SCALE as int) * (
        SCALE as int)),
{
    let s = SCALE as int;
    let ei = s * s * ti - 2 * nc * b;
    assert(ei == s * (s * ti - nc * 2 * d) - 2 * nc * (b - s * d)) by (nonlinear_arith)
        requires
            ei == s * s * ti - 2 * nc * b,
    ;
    assert(iabs(ei) <= 3 * (s * s)) by (nonlinear_arith)
        requires
            ei == s * (s * ti - nc * 2 * d) - 2 * nc * (b - s * d),
            iabs(nc * 2 * d - s * ti) < s,
            iabs(b - s * d) < s,
            iabs(nc) <= s,
            s == 4294967296int,
    ;
}

/// The magnitude of the *implemented* mirror direction: for an exactly
/// unit incoming direction and an exactly unit normal, the rounded
/// reflection's magnitude is within 64 grid steps of the unit scale —
/// a relative error under `1.5e-8`.
pub proof fn lemma_reflect_unit_magnitude(u: V3g, n: V3g)
    requires
        gdot(u, u) == SCALE * SCALE,
        gdot(n, n) == SCALE * SCALE,
        gwithin(u, SCALE as int),
        gwithin(n, SCALE as int),
    ensures
        SCALE - 64 <= gmag(greflect(u, n)) <= SCALE + 64,
{
    let s = SCALE as int;
    let b = gdot(u, n);
    let d = tdiv(b, s);
    let r = greflect(u, n);
    let xg = greflect_exact(u, n);
    lemma_gdot_bound(u, n, s, s);
    crate::fixed::lemma_tdiv_resid(b, s);
    let t1 = tdiv(n.x * 2 * d, s);
    let t2 = tdiv(n.y * 2 * d, s);
    let t3 = tdiv(n.z * 2 * d, s);
    crate::fixed::lemma_tdiv_resid(n.x * 2 * d, s);
    crate::fixed::lemma_tdiv_resid(n.y * 2 * d, s);
    crate::fixed::lemma_tdiv_resid(n.z * 2 * d, s);
    lemma_reflect_component_error(u.x, n.x, b, d, t1);
    lemma_reflect_component_error(u.y, n.y, b, d, t2);
    lemma_reflect_component_error(u.z, n.z, b, d, t3);
    let e1 = s * s * t1 - 2 * n.x * b;
    let e2 = s * s * t2 - 2 * n.y * b;
    let e3 = s * s * t3 - 2 * n.z * b;
    // The exact mirror components, and how the rounded ones miss them.
    assert(xg.x == u.x * (s * s) - n.x * (2 * b));
    assert(s * s * r.x == xg.x - e1) by (nonlinear_arith)
        requires
            r.x == u.x - t1,
            xg.x == u.x * (s * s) - n.x * (2 * b),
            e1 == s * s * t1 - 2 * n.x * b,
    ;
    assert(s * s * r.y == xg.y - e2) by (nonlinear_arith)
        requires
            r.y == u.y - t2,
            xg.y == u.y * (s * s) - n.y * (2 * b),
            e2 == s * s * t2 - 2 * n.y * b,
    ;
    assert(s * s * r.z == xg.z - e3) by (nonlinear_arith)
        requires
            r.z == u.z - t3,
            xg.z == u.z * (s * s) - n.z * (2 * b),
            e3 == s * s * t3 - 2 * n.z * b,
    ;
    // Bounds on the exact components and the error terms.
    assert(iabs(xg.x) <= 7 * (s * s * s) && iabs(xg.y) <= 7 * (s * s * s) && iabs(xg.z) <= 7 * (s
        * s * s)) by (nonlinear_arith)
        requires
            iabs(u.x) <= s,
            iabs(u.y) <= s,
            iabs(u.z) <= s,
            iabs(n.x) <= s,
            iabs(n.y) <= s,
            iabs(n.z) <= s,
            iabs(b) <= 3 * (s * s),
            xg.x == u.x * (s * s) - n.x * (2 * b),
            xg.y == u.y * (s * s) - n.y * (2 * b),
            xg.z == u.z * (s * s) - n.z * (2 * b),
            s >= 1,
    ;
    // Squared components of the scaled rounded reflection.
    assert((s * s * r.x) * (s * s * r.x) == xg.x * xg.x - 2 * (xg.x * e1) + e1 * e1)
        by (nonlinear_arith)
        requires
            s * s * r.x == xg.x - e1,
    ;
    assert((s * s * r.y) * (s * s * r.y) == xg.y * xg.y - 2 * (xg.y * e2) + e2 * e2)
        by (nonlinear_arith)
        requires
            s * s * r.y == xg.y - e2,
    ;
    assert((s * s * r.z) * (s * s * r.z) == xg.z * xg.z - 2 * (xg.z * e3) + e3 * e3)
        by (nonlinear_arith)
        requires
            s * s * r.z == xg.z - e3,
    ;
    assert((s * s * r.x) * (s * s * r.x) == s * s * s * s * (r.x * r.x)) by (nonlinear_arith);
    assert((s * s * r.y) * (s * s * r.y) == s * s * s * s * (r.y * r.y)) by (nonlinear_arith);
    assert((s * s * r.z) * (s * s * r.z) == s * s * s * s * (r.z * r.z)) by (nonlinear_arith);
    lemma_mul_distrib3(s * s * s * s, r.x * r.x, r.y * r.y, r.z * r.z, gdot(r, r));
    // Cross terms and squared errors.
    lemma_mul_abs_bound2(xg.x, e1, 7 * (s * s * s), 3 * (s * s));
    lemma_mul_abs_bound2(xg.y, e2, 7 * (s * s * s), 3 * (s * s));
    lemma_mul_abs_bound2(xg.z, e3, 7 * (s * s * s), 3 * (s * s));
    lemma_mul_abs_bound(e1, e1, 3 * (s * s));
    lemma_mul_abs_bound(e2, e2, 3 * (s * s));
    lemma_mul_abs_bound(e3, e3, 3 * (s * s));
    // The exact identity: the mirror of a unit direction about a unit
    // normal has squared magnitude exactly the sixth power of the
    // scale.
    lemma_reflect_preserves_magnitude(u, n);
    assert(gdot(xg, xg) == (s * s) * (s * s) * (s * s));
    // Collect: s^4 |r|^2 is within 126 s^5 + 27 s^4 of s^6.
    let total = s * s * s * s * (gdot(r, r));
    assert(total == gdot(xg, xg) - 2 * (xg.x * e1) - 2 * (xg.y * e2) - 2 * (xg.z * e3) + e1 * e1
        + e2 * e2 + e3 * e3);
    assert((s * s) * (s * s) * (s * s) - 127 * ((s * s * s * s) * s) <= total <= (s * s) * (s * s)
        * (s * s) + 127 * ((s * s * s * s) * s)) by (nonlinear_arith)
        requires
            total == (s * s) * (s * s) * (s * s) - 2 * (xg.x * e1) - 2 * (xg.y * e2) - 2 * (xg.z
                * e3) + e1 * e1 + e2 * e2 + e3 * e3,
            iabs(xg.x * e1) <= 7 * (s * s * s) * (3 * (s * s)),
            iabs(xg.y * e2) <= 7 * (s * s * s) * (3 * (s * s)),
            iabs(xg.z * e3) <= 7 * (s * s * s) * (3 * (s * s)),
            iabs(e1 * e1) <= 3 * (s * s) * (3 * (s * s)),
            iabs(e2 * e2) <= 3 * (s * s) * (3 * (s * s)),
            iabs(e3 * e3) <= 3 * (s * s) * (3 * (s * s)),
            s == 4294967296int,
    ;
    // Cancel the common factor s^4.
    assert(s * s - 127 * s <= gdot(r, r) <= s * s + 127 * s) by (nonlinear_arith)
        requires
            (s * s) * (s * s) * (s * s) - 127 * ((s * s * s * s) * s) <= s * s * s * s * (gdot(
                r,
                r,
            )) <= (s * s) * (s * s) * (s * s) + 127 * ((s * s * s * s) * s),
            s >= 1,
    ;
    crate::fixed::lemma_sqrt_floor_exists(gdot(r, r));
    let g = gmag(r);
    if g < s - 64 {
        lemma_square_monotone(g + 1, s - 64);
        assert((s - 64) * (s - 64) <= s * s - 127 * s) by (nonlinear_arith)
            requires
                s == 4294967296int,
        ;
        assert(false);
    }
    if g > s + 64 {
        lemma_square_monotone(s + 65, g);
        assert((s + 65) * (s + 65) > s * s + 127 * s) by (nonlinear_arith)
            requires
                s == 4294967296int,
        ;
        assert(false);
    }
}

/// The error produced when a zero-magnitude vector is normalized;
/// rays and normals must never silently carry an undefined direction.
#[derive(Clone, Copy, PartialEq, Eq, Structural, Debug)]
pub struct DegenerateVector;

/// Bound comfortably above a unit-scale vector's components: `2 * SCALE`.
pub open spec fn unit_bound() -> int {
    8589934592
}

/// Bound on the components of a reflected unit-scale direction:
/// `50 * SCALE`.
pub open spec fn reflect_bound() -> int {
    214748364800
}

/// Bound under which the cosine computation cannot overflow: 2^45.
pub open spec fn cos_bound() -> int {
    35184372088832
}

/// The cosine of the angle between two nonzero vectors, at fixed-point
/// scale, clamped into `[-SCALE, SCALE]` so that rounding can never push
/// it outside the domain of an arc-cosine.
pub open spec fn gcos_between(a: V3g, b: V3g) -> int {
    clamp(
        tdiv(gdot(a, b) * SCALE, gmag(a) * gmag(b)),
        -(SCALE as int),
        SCALE as int,
    )
}

/// The mirror direction before any fixed-point rounding, scaled up by
/// `|n|^2`: `u * (n.n) - n * (2 * (u.n))`.
pub open spec fn greflect_exact(u: V3g, n: V3g) -> V3g {
    V3g {
        x: u.x * gdot(n, n) - n.x * (2 * gdot(u, n)),
        y: u.y * gdot(n, n) - n.y * (2 * gdot(u, n)),
        z: u.z * gdot(n, n) - n.z * (2 * gdot(u, n)),
    }
}

/// A nonzero vector's rounded-down magnitude is at least one.
pub proof fn lemma_mag_pos(v: V3g)
    requires
        gdot(v, v) > 0,
    ensures
        gmag(v) >= 1,
{
    lemma_dot_self_bounds(v);
    lemma_sqrt_floor_exists(gdot(v, v));
    let m = gmag(v);
    assert(m >= 1) by (nonlinear_arith)
        requires
            m >= 0,
            gdot(v, v) < (m + 1) * (m + 1),
            gdot(v, v) >= 1,
    ;
}

/// Expansion of the square of one component of the exact mirror
/// direction.
proof fn lemma_reflect_component_square(p: int, q: int, c: int, d: int)
    ensures
        (p * c - q * (2 * d)) * (p * c - q * (2 * d)) == c * c * (p * p) - 4 * c * d * (p * q) + 4
            * d * d * (q * q),
{
    let a1 = p * c;
    let b1 = q * (2 * d);
    assert((a1 - b1) * (a1 - b1) == a1 * a1 - 2 * (a1 * b1) + b1 * b1) by (nonlinear_arith);
    assert(a1 * a1 == c * c * (p * p)) by (nonlinear_arith)
        requires
            a1 == p * c,
    ;
    assert(2 * (a1 * b1) == 4 * c * d * (p * q)) by (nonlinear_arith)
        requires
            a1 == p * c,
            b1 == q * (2 * d),
    ;
    assert(b1 * b1 == 4 * d * d * (q * q)) by (nonlinear_arith)
        requires
            b1 == q * (2 * d),
    ;
}

/// A factor distributes over a known three-part sum.
proof fn lemma_mul_distrib3(k: int, x1: int, x2: int, x3: int, s: int)
    by (nonlinear_arith)
    requires
        s == x1 + x2 + x3,
    ensures
        k * s == k * x1 + k * x2 + k * x3,
{
}

/// Reflection preserves magnitude: the exact mirror direction's squared
/// magnitude is the incoming one's, scaled by the normal's fourth power.
/// For unit `u` and `n` this is exactly "`|reflect(u, n)| == |u|`".
pub proof fn lemma_reflect_preserves_magnitude(u: V3g, n: V3g)
    ensures
        gdot(greflect_exact(u, n), greflect_exact(u, n)) == gdot(n, n) * gdot(n, n) * gdot(
            u,
            u,
        ),
{
    let a = gdot(n, n);
    let b = gdot(u, n);
    let r = greflect_exact(u, n);
    assert(r.x == u.x * a - n.x * (2 * b));
    assert(r.y == u.y * a - n.y * (2 * b));
    assert(r.z == u.z * a - n.z * (2 * b));
    lemma_reflect_component_square(u.x, n.x, a, b);
    lemma_reflect_component_square(u.y, n.y, a, b);
    lemma_reflect_component_square(u.z, n.z, a, b);
    lemma_mul_distrib3(a * a, u.x * u.x, u.y * u.y, u.z * u.z, gdot(u, u));
    lemma_mul_distrib3(4 * a * b, u.x * n.x, u.y * n.y, u.z * n.z, b);
    lemma_mul_distrib3(4 * b * b, n.x * n.x, n.y * n.y, n.z * n.z, a);
    assert(gdot(r, r) == a * a * gdot(u, u) - (4 * a * b) * b + (4 * b * b) * a);
    assert((4 * b * b) * a == (4 * a * b) * b) by (nonlinear_arith);
    assert(a * a * gdot(u, u) == gdot(n, n) * gdot(n, n) * gdot(u, u)) by (nonlinear_arith)
        requires
            a == gdot(n, n),
    ;
}

impl Vec3 {
    /// The unit vector along `self`, or `DegenerateVector` exactly when
    /// the vector is zero.
    pub fn norm(self) -> (r: Result<Vec3, DegenerateVector>)
        requires
            self.within(mul_bound()),
        ensures
            match r {
                Ok(n) => gdot(self.m(), self.m()) > 0 && n.m() == gnorm(self.m()) && n.within(
                    SCALE as int,
                ),
                Err(_) => self.m() == gzero(),
            },
    {
        let q = self.dot(self);
        proof {
            lemma_dot_self_bounds(self.m());
        }
        if q == 0 {
            proof {
                assert(self.x as int == 0) by (nonlinear_arith)
                    requires
                        self.x * self.x <= 0,
                ;
                assert(self.y as int == 0) by (nonlinear_arith)
                    requires
                        self.y * self.y <= 0,
                ;
                assert(self.z as int == 0) by (nonlinear_arith)
                    requires
                        self.z * self.z <= 0,
                ;
            }
            Err(DegenerateVector)
        } else {
            let m = isqrt(q);
            proof {
                lemma_mag_pos(self.m());
                lemma_norm_within_scale(self.m());
                lemma_mul_abs_bound(self.x as int, SCALE as int, mul_bound());
                lemma_mul_abs_bound(self.y as int, SCALE as int, mul_bound());
                lemma_mul_abs_bound(self.z as int, SCALE as int, mul_bound());
            }
            Ok(
                Vec3 {
                    x: div_trunc(self.x * SCALE, m),
                    y: div_trunc(self.y * SCALE, m),
                    z: div_trunc(self.z * SCALE, m),
                },
            )
        }
    }

    /// The cosine of the angle to `other`, as a fixed-point value.  The
    /// raw quotient is clamped into `[-SCALE, SCALE]`, since rounding
    /// could otherwise push it just outside the arc-cosine's domain;
    /// angle comparisons are made on this (monotone) cosine, so the
    /// arc-cosine itself is never taken.
    pub fn cos_between(self, other: Vec3) -> (r: i128)
        requires
            self.within(cos_bound()),
            other.within(cos_bound()),
            gdot(self.m(), self.m()) > 0,
            gdot(other.m(), other.m()) > 0,
        ensures
            r == gcos_between(self.m(), other.m()),
            -SCALE <= r <= SCALE,
    {
        let d = self.dot(other);
        let m1 = self.mag();
        let m2 = other.mag();
        proof {
            lemma_mul_abs_bound(self.x as int, other.x as int, cos_bound());
            lemma_mul_abs_bound(self.y as int, other.y as int, cos_bound());
            lemma_mul_abs_bound(self.z as int, other.z as int, cos_bound());
            lemma_dot_self_bounds(self.m());
            lemma_dot_self_bounds(other.m());
            lemma_mag_pos(self.m());
            lemma_mag_pos(other.m());
            lemma_mag_le(self.m(), cos_bound());
            lemma_mag_le(other.m(), cos_bound());
            assert(1 <= m1 * m2 <= 4951760157141521099596496896) by (nonlinear_arith)
                requires
                    1 <= m1 <= 70368744177664,
                    1 <= m2 <= 70368744177664,
            ;
        }
        let c = div_trunc(d * SCALE, m1 * m2);
        clamp_i128(c, -SCALE, SCALE)
    }

    /// Mirror `self` about the unit-scale normal `n`.
    pub fn reflect(self, n: Vec3) -> (r: Vec3)
        requires
            self.within(unit_bound()),
            n.within(unit_bound()),
        ensures
            r.m() == greflect(self.m(), n.m()),
            r.within(reflect_bound()),
    {
        let raw = self.dot(n);
        proof {
            lemma_mul_abs_bound(self.x as int, n.x as int, unit_bound());
            lemma_mul_abs_bound(self.y as int, n.y as int, unit_bound());
            lemma_mul_abs_bound(self.z as int, n.z as int, unit_bound());
            crate::fixed::lemma_tdiv_le(gdot(self.m(), n.m()), SCALE as int, 12 * SCALE);
        }
        let d = div_trunc(raw, SCALE);
        proof {
            let s = SCALE as int;
            assert(iabs(n.x as int * 2 * (d as int)) <= (48 * s) * s) by (nonlinear_arith)
                requires
                    iabs(n.x as int) <= 2 * s,
                    iabs(d as int) <= 12 * s,
                    s > 0,
            ;
            assert(iabs(n.y as int * 2 * (d as int)) <= (48 * s) * s) by (nonlinear_arith)
                requires
                    iabs(n.y as int) <= 2 * s,
                    iabs(d as int) <= 12 * s,
                    s > 0,
            ;
            assert(iabs(n.z as int * 2 * (d as int)) <= (48 * s) * s) by (nonlinear_arith)
                requires
                    iabs(n.z as int) <= 2 * s,
                    iabs(d as int) <= 12 * s,
                    s > 0,
            ;
            crate::fixed::lemma_tdiv_le(n.x as int * 2 * (d as int), s, 48 * s);
            crate::fixed::lemma_tdiv_le(n.y as int * 2 * (d as int), s, 48 * s);
            crate::fixed::lemma_tdiv_le(n.z as int * 2 * (d as int), s, 48 * s);
        }
        Vec3 {
            x: self.x - div_trunc(n.x * 2 * d, SCALE),
            y: self.y - div_trunc(n.y * 2 * d, SCALE),
            z: self.z - div_trunc(n.z * 2 * d, SCALE),
        }
    }
}

/// The rounded-down magnitude of a vector whose components are within
/// `b` is at most `2 * b`.
pub proof fn lemma_mag_le(v: V3g, b: int)
    requires
        gwithin(v, b),
        b >= 0,
    ensures
        gmag(v) <= 2 * b,
{
    lemma_dot_self_bounds(v);
    lemma_sqrt_floor_exists(gdot(v, v));
    let m = gmag(v);
    assert(gdot(v, v) <= 3 * (b * b)) by (nonlinear_arith)
        requires
            iabs(v.x) <= b,
            iabs(v.y) <= b,
            iabs(v.z) <= b,
    ;
    if m > 2 * b {
        lemma_square_monotone(2 * b + 1, m);
        assert((2 * b + 1) * (2 * b + 1) > 3 * (b * b)) by (nonlinear_arith)
            requires
                b >= 0,
        ;
    }
}

/// The product of two integers bounded by `b` is bounded by `b * b`.
pub proof fn lemma_mul_abs_bound(a: int, c: int, b: int)
    requires
        iabs(a) <= b,
        iabs(c) <= b,
    ensures
        iabs(a * c) <= b * b,
        -(b * b) <= a * c <= b * b,
{
    assert(iabs(a * c) <= b * b && -(b * b) <= a * c <= b * b) by (nonlinear_arith)
        requires
            iabs(a) <= b,
            iabs(c) <= b,
    ;
}

/// The product of integers with separate bounds is bounded by the
/// bounds' product.
pub proof fn lemma_mul_abs_bound2(a: int, c: int, ba: int, bc: int)
    requires
        iabs(a) <= ba,
        iabs(c) <= bc,
    ensures
        iabs(a * c) <= ba * bc,
        -(ba * bc) <= a * c <= ba * bc,
{
    assert(iabs(a * c) <= ba * bc && -(ba * bc) <= a * c <= ba * bc) by (nonlinear_arith)
        requires
            iabs(a) <= ba,
            iabs(c) <= bc,
    ;
}

/// The cross product of vectors with componentwise bounds is within
/// twice the bounds' product, componentwise.
pub proof fn lemma_gcross_bound(a: V3g, b: V3g, ba: int, bb: int)
    requires
        gwithin(a, ba),
        gwithin(b, bb),
    ensures
        gwithin(gcross(a, b), 2 * (ba * bb)),
{
    lemma_mul_abs_bound2(a.y, b.z, ba, bb);
    lemma_mul_abs_bound2(a.z, b.y, ba, bb);
    lemma_mul_abs_bound2(a.z, b.x, ba, bb);
    lemma_mul_abs_bound2(a.x, b.z, ba, bb);
    lemma_mul_abs_bound2(a.x, b.y, ba, bb);
    lemma_mul_abs_bound2(a.y, b.x, ba, bb);
}

/// The dot product of vectors with componentwise bounds is within three
/// times the bounds' product.
pub proof fn lemma_gdot_bound(a: V3g, b: V3g, ba: int, bb: int)
    requires
        gwithin(a, ba),
        gwithin(b, bb),
    ensures
        iabs(gdot(a, b)) <= 3 * (ba * bb),
        -(3 * (ba * bb)) <= gdot(a, b) <= 3 * (ba * bb),
{
    lemma_mul_abs_bound2(a.x, b.x, ba, bb);
    lemma_mul_abs_bound2(a.y, b.y, ba, bb);
    lemma_mul_abs_bound2(a.z, b.z, ba, bb);
}

} // verus!
