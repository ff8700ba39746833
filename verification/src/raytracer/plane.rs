//! Infinite planes, optionally checkered, and their ray-intersection
//! contract.

use vstd::prelude::*;

verus! {

use crate::fixed::{SCALE, tdiv, iabs, div_trunc, div_floor, rem_floor, lemma_tdiv_le};
use crate::raytracer::vec3::{
    Vec3,
    V3g,
    gwithin,
    gdot,
    gsub,
    gadd,
    gscale,
    gnorm,
    greflect,
    lemma_gdot_bound,
    unit_bound,
};
use crate::raytracer::hit::{Hit, HitG, hit_wf_g};
use crate::raytracer::{Ray, RayG, Rgb, ray_wf_g, world_bound, time_wf, black_s, white_s};
use crate::raytracer::sphere::far_bound;

/// The near-parallel tolerance on the unit-scale cosine between ray and
/// normal: `0.00005 * SCALE`, rounded down.
pub const PLANE_EPSILON: i128 = 214748;

/// The alternate reflectivity of the light checker squares:
/// `0.3 * SCALE`, rounded down.
pub const ALT_REFLECTIVITY: i128 = 1288490188;

/// The side of one checker square: one hundred world units.
pub const CHECKER_CELL: i128 = 429496729600;

/// The checker cell index of a point: the sum of the floors of `x` and
/// `z`, each divided by one hundred world units.
pub open spec fn checker_cell(px: int, pz: int) -> int {
    px / (CHECKER_CELL as int) + pz / (CHECKER_CELL as int)
}

/// A point is on a dark square exactly when its cell index is even.
pub open spec fn checker_black(px: int, pz: int) -> bool {
    checker_cell(px, pz) % 2 == 0
}

/// The color the checker pattern picks at a point.
pub open spec fn checker_color(px: int, pz: int) -> Rgb {
    if checker_black(px, pz) {
        black_s()
    } else {
        white_s()
    }
}

/// The reflectivity the checker pattern picks at a point: the plane's
/// own on dark squares, the fixed alternate on light ones.
pub open spec fn checker_reflectivity(px: int, pz: int, base: int) -> int {
    if checker_black(px, pz) {
        base
    } else {
        ALT_REFLECTIVITY as int
    }
}

/// The checker choice depends on the cell parity alone: any two points
/// whose cell indices agree in parity are given the same color and the
/// same reflectivity, on every call.
pub proof fn lemma_checker_deterministic(px1: int, pz1: int, px2: int, pz2: int, base: int)
    requires
        checker_black(px1, pz1) == checker_black(px2, pz2),
    ensures
        checker_color(px1, pz1) == checker_color(px2, pz2),
        checker_reflectivity(px1, pz1, base) == checker_reflectivity(px2, pz2, base),
{
}

/// The checker pattern repeats every two cells: moving a point by two
/// cell widths along `x` (or, symmetrically, `z`) lands on a square of
/// the same shade.
pub proof fn lemma_checker_periodic(px: int, pz: int)
    ensures
        checker_black(px + 2 * CHECKER_CELL, pz) == checker_black(px, pz),
        checker_black(px, pz + 2 * CHECKER_CELL) == checker_black(px, pz),
{
    let c = CHECKER_CELL as int;
    vstd::arithmetic::div_mod::lemma_hoist_over_denominator(px, 2, CHECKER_CELL as nat);
    vstd::arithmetic::div_mod::lemma_hoist_over_denominator(pz, 2, CHECKER_CELL as nat);
    vstd::arithmetic::div_mod::lemma_mod_add_multiples_vanish(px / c + pz / c, 2);
}

/// The analytic plane test.  The ray must approach the front face: an
/// angle to the normal under a right angle — equivalently a positive
/// cosine, so the test is made on the (monotone) cosine's sign and no
/// arc-cosine is taken.  Near-parallel rays, parameters under one unit
/// (self-intersection) or beyond the far limit, and hit points outside
/// the world are all misses; a degenerate ray direction skips the
/// primitive.
pub open spec fn plane_intersect_s(
    p0: V3g,
    nrm: V3g,
    color: Rgb,
    refl: int,
    checker: bool,
    ray: RayG,
) -> Option<HitG> {
    if gdot(ray.dir, ray.dir) <= 0 {
        None
    } else {
        let u = gnorm(ray.dir);
        if gdot(u, nrm) > 0 {
            None
        } else {
            let udotn = tdiv(gdot(u, nrm), SCALE as int);
            if iabs(udotn) < PLANE_EPSILON {
                None
            } else {
                let num = gdot(gsub(p0, ray.origin), nrm);
                let k = tdiv(-num, -udotn);
                if k < SCALE || k > far_bound() {
                    None
                } else {
                    let p = gadd(ray.origin, gscale(u, k));
                    if !gwithin(p, world_bound()) {
                        None
                    } else {
                        let rdir = greflect(u, nrm);
                        let col = if checker {
                            checker_color(p.x, p.z)
                        } else {
                            color
                        };
                        let rf = if checker {
                            checker_reflectivity(p.x, p.z, refl)
                        } else {
                            refl
                        };
                        Some(
                            HitG {
                                reflection: RayG { origin: p, dir: rdir },
                                color: col,
                                reflectivity: rf,
                            },
                        )
                    }
                }
            }
        }
    }
}

/// A plane: a point on it, its unit-scale normal, and its surface
/// parameters.
#[derive(Clone, Copy, PartialEq, Eq, Structural, Debug)]
pub struct Plane {
    /// A point on the plane.
    pub pos: Vec3,
    /// Normal vector of the plane, at unit scale.
    pub n: Vec3,
    pub color: Rgb,
    pub reflectivity: i128,
    pub checker: bool,
}

impl Plane {
    /// Anchor inside the world, normal within unit scale, reflectivity
    /// a fraction of one.
    pub open spec fn wf(self) -> bool {
        gwithin(self.pos.m(), world_bound()) && gwithin(self.n.m(), unit_bound()) && 0
            <= self.reflectivity <= SCALE
    }

    /// The model of this plane's intersection result.
    pub open spec fn hit_s(self, ray: RayG, t: int) -> Option<HitG> {
        plane_intersect_s(
            self.pos.m(),
            self.n.m(),
            self.color,
            self.reflectivity as int,
            self.checker,
            ray,
        )
    }

    /// Intersect a ray at time `t` (the time is irrelevant to a plane).
    pub fn intersects(&self, ray: &Ray, t: i128) -> (h: Option<Hit>)
        requires
            self.wf(),
            ray_wf_g(ray.m()),
            time_wf(t as int),
        ensures
            match h {
                Some(ht) => self.hit_s(ray.m(), t as int) == Some(ht.m()) && hit_wf_g(ht.m()),
                None => self.hit_s(ray.m(), t as int) == None::<HitG>,
            },
    {
        let u = match ray.dir.norm() {
            Err(_) => {
                return None;
            },
            Ok(u) => u,
        };
        proof {
            lemma_gdot_bound(u.m(), self.n.m(), SCALE as int, unit_bound());
        }
        let raw = u.dot(self.n);
        if raw > 0 {
            // Ray comes from behind the plane.
            return None;
        }
        proof {
            lemma_tdiv_le(gdot(u.m(), self.n.m()), SCALE as int, 6 * SCALE);
        }
        let udotn = div_trunc(raw, SCALE);
        let au = if udotn < 0 {
            -udotn
        } else {
            udotn
        };
        if au < PLANE_EPSILON {
            // Near-parallel case.
            return None;
        }
        let po = self.pos.sub(ray.origin);
        proof {
            lemma_gdot_bound(po.m(), self.n.m(), 2 * world_bound(), unit_bound());
        }
        let num = po.dot(self.n);
        let k = div_trunc(-num, -udotn);
        if k < SCALE || k > 72057594037927936 {
            // Behind the start of the ray, or beyond the far limit.
            return None;
        }
        proof {
            assert(iabs(u.m().x * k) <= SCALE as int * 72057594037927936int) by (nonlinear_arith)
                requires
                    iabs(u.m().x) <= SCALE as int,
                    iabs(k as int) <= 72057594037927936int,
            ;
            assert(iabs(u.m().y * k) <= SCALE as int * 72057594037927936int) by (nonlinear_arith)
                requires
                    iabs(u.m().y) <= SCALE as int,
                    iabs(k as int) <= 72057594037927936int,
            ;
            assert(iabs(u.m().z * k) <= SCALE as int * 72057594037927936int) by (nonlinear_arith)
                requires
                    iabs(u.m().z) <= SCALE as int,
                    iabs(k as int) <= 72057594037927936int,
            ;
            lemma_tdiv_le(u.m().x * k, SCALE as int, 72057594037927936int);
            lemma_tdiv_le(u.m().y * k, SCALE as int, 72057594037927936int);
            lemma_tdiv_le(u.m().z * k, SCALE as int, 72057594037927936int);
        }
        let step = u.scale(k);
        let p = ray.origin.add(step);
        if !p.within_check(4503599627370496) {
            return None;
        }
        let rdir = u.reflect(self.n);
        let color;
        let reflectivity;
        if self.checker {
            let cx = div_floor(p.x, CHECKER_CELL);
            let cz = div_floor(p.z, CHECKER_CELL);
            let parity = rem_floor(cx + cz, 2);
            let black = parity == 0;
            color = if black {
                Rgb::black()
            } else {
                Rgb::white()
            };
            reflectivity = if black {
                self.reflectivity
            } else {
                ALT_REFLECTIVITY
            };
        } else {
            color = self.color;
            reflectivity = self.reflectivity;
        }
        Some(Hit { reflection: Ray { origin: p, dir: rdir }, color, reflectivity })
    }
}

} // verus!
