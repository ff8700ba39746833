//! The result of a successful intersection.

use vstd::prelude::*;

verus! {

use crate::raytracer::{Ray, RayG, Rgb, ray_wf_g};
use crate::fixed::SCALE;

/// A resolved intersection: the mirror ray leaving the surface (origin
/// at the intersection point), the surface color there, and the
/// surface's reflectivity at fixed-point scale.
#[derive(Clone, Copy, PartialEq, Eq, Structural, Debug)]
pub struct Hit {
    pub reflection: Ray,
    pub color: Rgb,
    pub reflectivity: i128,
}

/// The mathematical model of a hit.
pub ghost struct HitG {
    pub reflection: RayG,
    pub color: Rgb,
    pub reflectivity: int,
}

impl Hit {
    pub open spec fn m(self) -> HitG {
        HitG {
            reflection: self.reflection.m(),
            color: self.color,
            reflectivity: self.reflectivity as int,
        }
    }
}

/// A well-formed hit: its reflection ray stays in the world and its
/// reflectivity is a fraction of one.
pub open spec fn hit_wf_g(h: HitG) -> bool {
    ray_wf_g(h.reflection) && 0 <= h.reflectivity <= SCALE
}

} // verus!
