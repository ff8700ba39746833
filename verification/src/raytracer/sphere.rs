//! Spheres, still and moving, and their ray-intersection contract.

use vstd::prelude::*;

verus! {

use crate::fixed::{
    SCALE,
    tdiv,
    iabs,
    sqrt_floor,
    div_trunc,
    isqrt,
    lemma_tdiv_le,
    lemma_sqrt_le_of_sq,
    lemma_sqrt_floor_is,
};
use crate::raytracer::vec3::{
    Vec3,
    V3g,
    gwithin,
    gdot,
    gsub,
    gadd,
    gneg,
    gscale,
    gnorm,
    gmag,
    greflect,
    lemma_gdot_bound,
    lemma_mag_le,
};
use crate::raytracer::hit::{Hit, HitG, hit_wf_g};
use crate::raytracer::{Ray, RayG, Rgb, ray_wf_g, world_bound, time_wf};
use crate::trig::{sin_turns_s, cos_turns_s, sin_turns, cos_turns};

/// `SCALE / (2 * pi)`, rounded to nearest: converts a fixed-point angle
/// in radians to one in turns.
pub const INV_TAU: i128 = 683565276;

/// A ray parameter beyond this is treated as a miss: 2^56, sixteen
/// times the world bound.
pub open spec fn far_bound() -> int {
    72057594037927936
}

/// A time-dependent center position, as data: a closed set of orbit
/// shapes evaluated by a pure function of the time.
#[derive(Clone, Copy, PartialEq, Eq, Structural, Debug)]
pub enum Trajectory {
    /// A circular orbit in the x/y plane: at time `t` (fixed-point
    /// seconds) the position is
    /// `(radius * sin(rate * t), radius * cos(rate * t), 0)`,
    /// the angle measured in radians.
    Orbit { radius: i128, rate: i128 },
    /// The same orbit mirrored through the origin.
    OrbitOpposite { radius: i128, rate: i128 },
}

/// The orbit position at time `t`, on the fixed-point grid.
pub open spec fn orbit_s(radius: int, rate: int, t: int) -> V3g {
    let tt = tdiv(rate * t * INV_TAU, SCALE as int);
    V3g {
        x: tdiv(radius * sin_turns_s(tt), SCALE as int),
        y: tdiv(radius * cos_turns_s(tt), SCALE as int),
        z: 0,
    }
}

impl Trajectory {
    /// Radius inside the world, and a small whole-number angular rate.
    pub open spec fn wf(self) -> bool {
        match self {
            Trajectory::Orbit { radius, rate } => 0 <= radius <= world_bound() && 0 <= rate <= 256,
            Trajectory::OrbitOpposite { radius, rate } => 0 <= radius <= world_bound() && 0 <= rate
                <= 256,
        }
    }

    /// The position at time `t`.
    pub open spec fn eval_s(self, t: int) -> V3g {
        match self {
            Trajectory::Orbit { radius, rate } => orbit_s(radius as int, rate as int, t),
            Trajectory::OrbitOpposite { radius, rate } => gneg(
                orbit_s(radius as int, rate as int, t),
            ),
        }
    }

    /// Evaluate the position at time `t`; it never leaves the world.
    pub fn eval(self, t: i128) -> (p: Vec3)
        requires
            self.wf(),
            time_wf(t as int),
        ensures
            p.m() == self.eval_s(t as int),
            gwithin(p.m(), world_bound()),
    {
        let (radius, rate) = match self {
            Trajectory::Orbit { radius, rate } => (radius, rate),
            Trajectory::OrbitOpposite { radius, rate } => (radius, rate),
        };
        proof {
            assert(iabs(rate as int * t as int * INV_TAU) <= 807011437058984575630546305024int)
                by (nonlinear_arith)
                requires
                    0 <= rate <= 256,
                    iabs(t as int) <= 4611686018427387904int,
                    INV_TAU == 683565276int,
            ;
            assert(807011437058984575630546305024int <= 187896992326477676544int * SCALE);
            lemma_tdiv_le(rate as int * t as int * INV_TAU, SCALE as int, 187896992326477676544int);
        }
        let tt = div_trunc(rate * t * INV_TAU, SCALE);
        let sv = sin_turns(tt);
        let cv = cos_turns(tt);
        proof {
            assert(iabs(radius as int * sv as int) <= world_bound() * SCALE) by (nonlinear_arith)
                requires
                    0 <= radius <= world_bound(),
                    iabs(sv as int) <= SCALE as int,
                    SCALE > 0,
            ;
            assert(iabs(radius as int * cv as int) <= world_bound() * SCALE) by (nonlinear_arith)
                requires
                    0 <= radius <= world_bound(),
                    iabs(cv as int) <= SCALE as int,
                    SCALE > 0,
            ;
            lemma_tdiv_le(radius as int * sv as int, SCALE as int, world_bound());
            lemma_tdiv_le(radius as int * cv as int, SCALE as int, world_bound());
        }
        let x = div_trunc(radius * sv, SCALE);
        let y = div_trunc(radius * cv, SCALE);
        let p = Vec3 { x, y, z: 0 };
        match self {
            Trajectory::Orbit { .. } => p,
            Trajectory::OrbitOpposite { .. } => Vec3 { x: -p.x, y: -p.y, z: 0 },
        }
    }
}

/// A sphere whose center follows a trajectory over time.
#[derive(Clone, Copy, PartialEq, Eq, Structural, Debug)]
pub struct MovingSphere {
    pub pos: Trajectory,
    pub r: i128,
    pub color: Rgb,
    pub reflectivity: i128,
}

/// A sphere at rest.
#[derive(Clone, Copy, PartialEq, Eq, Structural, Debug)]
pub struct Sphere {
    pub pos: Vec3,
    pub r: i128,
    pub color: Rgb,
    pub reflectivity: i128,
}

/// The analytic sphere test.  With `u` the unit ray direction and `oc`
/// the center-to-origin offset, the discriminant
/// `nabla = (u.oc)^2 - (|oc|^2 - r^2)` decides: no solution or a
/// tangent is a miss; otherwise the nearer root `k` must lie at least
/// one unit along the ray (the self-intersection guard) and the hit
/// point must stay inside the world.  A degenerate ray direction or a
/// degenerate surface normal skips the primitive rather than emit an
/// undefined value.
pub open spec fn sphere_intersect_s(
    c: V3g,
    rad: int,
    color: Rgb,
    refl: int,
    ray: RayG,
) -> Option<HitG> {
    if gdot(ray.dir, ray.dir) <= 0 {
        None
    } else {
        let u = gnorm(ray.dir);
        let oc = gsub(ray.origin, c);
        let udotoc = tdiv(gdot(u, oc), SCALE as int);
        let ocmag = gmag(oc);
        let nabla = udotoc * udotoc - (ocmag * ocmag - rad * rad);
        if nabla <= 0 {
            None
        } else {
            let sq = sqrt_floor(nabla);
            let k1 = -udotoc + sq;
            let k2 = -udotoc - sq;
            let k = if k1 < k2 {
                k1
            } else {
                k2
            };
            if k < SCALE || k > far_bound() {
                None
            } else {
                let p = gadd(ray.origin, gscale(u, k));
                if !gwithin(p, world_bound()) {
                    None
                } else {
                    let pc = gsub(p, c);
                    if gdot(pc, pc) <= 0 {
                        None
                    } else {
                        let n = gnorm(pc);
                        Some(
                            HitG {
                                reflection: RayG { origin: p, dir: greflect(u, n) },
                                color,
                                reflectivity: refl,
                            },
                        )
                    }
                }
            }
        }
    }
}

/// A nonpositive discriminant — the ray's line misses the sphere, or
/// only grazes it tangentially — is never a hit.
pub proof fn lemma_sphere_discriminant_miss(c: V3g, rad: int, color: Rgb, refl: int, ray: RayG)
    requires
        gdot(ray.dir, ray.dir) > 0,
        ({
            let u = gnorm(ray.dir);
            let oc = gsub(ray.origin, c);
            let udotoc = tdiv(gdot(u, oc), SCALE as int);
            let ocmag = gmag(oc);
            udotoc * udotoc - (ocmag * ocmag - rad * rad) <= 0
        }),
    ensures
        sphere_intersect_s(c, rad, color, refl, ray) == None::<HitG>,
{
}

/// A ray cast straight at a sphere's center from outside — here along
/// the `+z` axis, where the fixed-point normalization is exact — hits
/// it: the nearer root lies at least one unit along the ray, the hit
/// point sits on the near surface, and the reflection returns straight
/// back.
pub proof fn lemma_sphere_center_hit(c: V3g, rad: int, color: Rgb, refl: int, ray: RayG)
    requires
        ray.dir.x == 0,
        ray.dir.y == 0,
        ray.dir.z > 0,
        ray.origin.x == c.x,
        ray.origin.y == c.y,
        ray.origin.z < c.z,
        1 <= rad,
        c.z - ray.origin.z >= rad + SCALE,
        c.z - ray.origin.z <= far_bound(),
        gwithin(ray.origin, world_bound()),
        iabs(c.z - rad) <= world_bound(),
    ensures
        sphere_intersect_s(c, rad, color, refl, ray) == Some(
            HitG {
                reflection: RayG {
                    origin: V3g { x: ray.origin.x, y: ray.origin.y, z: c.z - rad },
                    dir: V3g { x: 0, y: 0, z: -(SCALE as int) },
                },
                color,
                reflectivity: refl,
            },
        ),
{
    let s = SCALE as int;
    let dz = ray.dir.z;
    let m = c.z - ray.origin.z;
    assert(gdot(ray.dir, ray.dir) == dz * dz);
    assert(dz * dz >= 1) by (nonlinear_arith)
        requires
            dz >= 1,
    ;
    assert(dz * dz < (dz + 1) * (dz + 1)) by (nonlinear_arith)
        requires
            dz >= 1,
    ;
    lemma_sqrt_floor_is(dz * dz, dz);
    vstd::arithmetic::div_mod::lemma_div_of0(dz);
    vstd::arithmetic::div_mod::lemma_div_multiples_vanish(s, dz);
    assert(dz * s == ray.dir.z * SCALE);
    let u = gnorm(ray.dir);
    assert(u.x == 0 && u.y == 0);
    assert(u.z == tdiv(dz * s, dz));
    assert(u.z == s);
    let oc = gsub(ray.origin, c);
    assert(oc.x == 0 && oc.y == 0 && oc.z == -m);
    assert(gdot(u, oc) == -(s * m));
    vstd::arithmetic::div_mod::lemma_div_multiples_vanish(m, s);
    assert(tdiv(gdot(u, oc), s) == -m);
    assert(m * m >= 0 && m * m < (m + 1) * (m + 1)) by (nonlinear_arith)
        requires
            m >= 1,
    ;
    lemma_sqrt_floor_is(m * m, m);
    assert(gdot(oc, oc) == m * m) by (nonlinear_arith)
        requires
            oc.x == 0,
            oc.y == 0,
            oc.z == -m,
            gdot(oc, oc) == oc.x * oc.x + oc.y * oc.y + oc.z * oc.z,
    ;
    assert(gmag(oc) == m);
    let nabla = (-m) * (-m) - (m * m - rad * rad);
    assert(nabla == rad * rad) by (nonlinear_arith)
        requires
            nabla == (-m) * (-m) - (m * m - rad * rad),
    ;
    assert(rad * rad >= 1 && rad * rad < (rad + 1) * (rad + 1)) by (nonlinear_arith)
        requires
            rad >= 1,
    ;
    lemma_sqrt_floor_is(rad * rad, rad);
    let k = m - rad;
    assert(k >= s && k <= far_bound());
    vstd::arithmetic::div_mod::lemma_div_multiples_vanish(k, s);
    let p = gadd(ray.origin, gscale(u, k));
    assert(tdiv(0 * k, s) == 0) by {
        vstd::arithmetic::div_mod::lemma_div_of0(s);
    }
    assert(tdiv(s * k, s) == k);
    assert(p.x == ray.origin.x && p.y == ray.origin.y && p.z == c.z - rad);
    assert(gwithin(p, world_bound()));
    let pc = gsub(p, c);
    assert(pc.x == 0 && pc.y == 0 && pc.z == -rad);
    assert(gdot(pc, pc) == rad * rad) by (nonlinear_arith)
        requires
            pc.x == 0,
            pc.y == 0,
            pc.z == -rad,
            gdot(pc, pc) == pc.x * pc.x + pc.y * pc.y + pc.z * pc.z,
    ;
    vstd::arithmetic::div_mod::lemma_div_multiples_vanish(s, rad);
    let n = gnorm(pc);
    assert(n.x == 0 && n.y == 0);
    assert(-rad * s == -(rad * s)) by (nonlinear_arith);
    assert(n.z == tdiv(-(rad * s), rad));
    assert(rad * s == s * rad) by (nonlinear_arith);
    assert(n.z == -s);
    assert(gdot(u, n) == -(s * s)) by (nonlinear_arith)
        requires
            u.x == 0,
            u.y == 0,
            u.z == s,
            n.x == 0,
            n.y == 0,
            n.z == -s,
            gdot(u, n) == u.x * n.x + u.y * n.y + u.z * n.z,
    ;
    vstd::arithmetic::div_mod::lemma_div_multiples_vanish(s, s);
    let d0 = tdiv(gdot(u, n), s);
    assert(d0 == -s);
    let r = greflect(u, n);
    assert(n.z * 2 * d0 == s * (2 * s)) by (nonlinear_arith)
        requires
            n.z == -s,
            d0 == -s,
    ;
    vstd::arithmetic::div_mod::lemma_div_multiples_vanish(2 * s, s);
    assert(r.z == s - 2 * s);
    assert(n.x * 2 * d0 == 0 && n.y * 2 * d0 == 0) by (nonlinear_arith)
        requires
            n.x == 0,
            n.y == 0,
    ;
    assert(r.x == 0 && r.y == 0) by {
        vstd::arithmetic::div_mod::lemma_div_of0(s);
    }
}

/// The shared executable sphere test; both sphere kinds resolve their
/// center and call it.
pub fn intersect_sphere(pos: Vec3, radius: i128, ray: &Ray, color: Rgb, reflectivity: i128) -> (h:
    Option<Hit>)
    requires
        gwithin(pos.m(), world_bound()),
        0 <= radius <= world_bound(),
        0 <= reflectivity <= SCALE,
        ray_wf_g(ray.m()),
    ensures
        match h {
            Some(ht) => sphere_intersect_s(pos.m(), radius as int, color, reflectivity as int, ray.m())
                == Some(ht.m()) && hit_wf_g(ht.m()),
            None => sphere_intersect_s(pos.m(), radius as int, color, reflectivity as int, ray.m())
                == None::<HitG>,
        },
{
    let u = match ray.dir.norm() {
        Err(_) => {
            return None;
        },
        Ok(u) => u,
    };
    let o = ray.origin;
    let oc = o.sub(pos);
    proof {
        lemma_gdot_bound(u.m(), oc.m(), SCALE as int, 2 * world_bound());
        lemma_tdiv_le(gdot(u.m(), oc.m()), SCALE as int, 3 * (2 * world_bound()));
    }
    let raw = u.dot(oc);
    let udotoc = div_trunc(raw, SCALE);
    let ocmag = oc.mag();
    proof {
        lemma_mag_le(oc.m(), 2 * world_bound());
        assert(udotoc as int * udotoc as int <= 27021597764222976int * 27021597764222976int)
            by (nonlinear_arith)
            requires
                iabs(udotoc as int) <= 27021597764222976int,
        ;
        assert(0 <= ocmag as int * ocmag as int <= 18014398509481984int * 18014398509481984int)
            by (nonlinear_arith)
            requires
                0 <= ocmag <= 18014398509481984int,
        ;
        assert(0 <= radius as int * radius as int <= 4503599627370496int * 4503599627370496int)
            by (nonlinear_arith)
            requires
                0 <= radius <= 4503599627370496int,
        ;
        assert(udotoc as int * udotoc as int >= 0) by (nonlinear_arith);
    }
    let nabla = udotoc * udotoc - (ocmag * ocmag - radius * radius);
    if nabla <= 0 {
        return None;
    }
    proof {
        assert(nabla <= 72057594037927936int * 72057594037927936int);
    }
    let sq = isqrt(nabla);
    proof {
        lemma_sqrt_le_of_sq(nabla as int, 72057594037927936int);
    }
    let k1 = -udotoc + sq;
    let k2 = -udotoc - sq;
    let k = if k1 < k2 {
        k1
    } else {
        k2
    };
    if k < SCALE || k > 72057594037927936 {
        return None;
    }
    proof {
        assert(iabs(u.m().x * k) <= SCALE as int * 99079191802150912int) by (nonlinear_arith)
            requires
                iabs(u.m().x) <= SCALE as int,
                iabs(k as int) <= 99079191802150912int,
        ;
        assert(iabs(u.m().y * k) <= SCALE as int * 99079191802150912int) by (nonlinear_arith)
            requires
                iabs(u.m().y) <= SCALE as int,
                iabs(k as int) <= 99079191802150912int,
        ;
        assert(iabs(u.m().z * k) <= SCALE as int * 99079191802150912int) by (nonlinear_arith)
            requires
                iabs(u.m().z) <= SCALE as int,
                iabs(k as int) <= 99079191802150912int,
        ;
        lemma_tdiv_le(u.m().x * k, SCALE as int, 99079191802150912int);
        lemma_tdiv_le(u.m().y * k, SCALE as int, 99079191802150912int);
        lemma_tdiv_le(u.m().z * k, SCALE as int, 99079191802150912int);
    }
    let step = u.scale(k);
    let p = o.add(step);
    if !p.within_check(4503599627370496) {
        return None;
    }
    let pc = p.sub(pos);
    let n = match pc.norm() {
        Err(_) => {
            return None;
        },
        Ok(n) => n,
    };
    let rdir = u.reflect(n);
    Some(Hit { reflection: Ray { origin: p, dir: rdir }, color, reflectivity })
}

impl Sphere {
    /// Parameters inside the world, reflectivity a fraction of one.
    pub open spec fn wf(self) -> bool {
        gwithin(self.pos.m(), world_bound()) && 0 <= self.r <= world_bound() && 0
            <= self.reflectivity <= SCALE
    }

    /// The model of this sphere's intersection result.
    pub open spec fn hit_s(self, ray: RayG, t: int) -> Option<HitG> {
        sphere_intersect_s(self.pos.m(), self.r as int, self.color, self.reflectivity as int, ray)
    }

    /// Intersect a ray at time `t` (the time is irrelevant to a sphere
    /// at rest).
    pub fn intersects(&self, ray: &Ray, t: i128) -> (h: Option<Hit>)
        requires
            self.wf(),
            ray_wf_g(ray.m()),
            time_wf(t as int),
        ensures
            match h {
                Some(ht) => self.hit_s(ray.m(), t as int) == Some(ht.m()) && hit_wf_g(ht.m()),
                None => self.hit_s(ray.m(), t as int) == None::<HitG>,
            },
    {
        intersect_sphere(self.pos, self.r, ray, self.color, self.reflectivity)
    }
}

impl MovingSphere {
    pub open spec fn wf(self) -> bool {
        self.pos.wf() && 0 <= self.r <= world_bound() && 0 <= self.reflectivity <= SCALE
    }

    /// The model: the trajectory is evaluated at `t` and the resting
    /// sphere test runs at that center.
    pub open spec fn hit_s(self, ray: RayG, t: int) -> Option<HitG> {
        sphere_intersect_s(self.pos.eval_s(t), self.r as int, self.color, self.reflectivity as int, ray)
    }

    /// Intersect a ray at time `t`, with the center taken from the
    /// trajectory.
    pub fn intersects(&self, ray: &Ray, t: i128) -> (h: Option<Hit>)
        requires
            self.wf(),
            ray_wf_g(ray.m()),
            time_wf(t as int),
        ensures
            match h {
                Some(ht) => self.hit_s(ray.m(), t as int) == Some(ht.m()) && hit_wf_g(ht.m()),
                None => self.hit_s(ray.m(), t as int) == None::<HitG>,
            },
    {
        let center = self.pos.eval(t);
        intersect_sphere(center, self.r, ray, self.color, self.reflectivity)
    }
}

} // verus!
