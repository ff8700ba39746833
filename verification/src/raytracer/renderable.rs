//! The closed set of renderable primitives.

use vstd::prelude::*;

verus! {

use crate::raytracer::hit::{Hit, HitG, hit_wf_g};
use crate::raytracer::plane::Plane;
use crate::raytracer::sphere::{MovingSphere, Sphere};
use crate::raytracer::{Ray, RayG, ray_wf_g, time_wf};

/// Anything a ray can be tested against.  The variant set is closed
/// and small, so the primitives are a tagged variant type rather than
/// an open-ended trait object.
#[derive(Clone, Copy, PartialEq, Eq, Structural, Debug)]
pub enum Renderable {
    Sphere(Sphere),
    MovingSphere(MovingSphere),
    Plane(Plane),
}

impl Renderable {
    pub open spec fn wf(self) -> bool {
        match self {
            Renderable::Sphere(s) => s.wf(),
            Renderable::MovingSphere(s) => s.wf(),
            Renderable::Plane(p) => p.wf(),
        }
    }

    /// The model of this primitive's intersection result.
    pub open spec fn hit_s(self, ray: RayG, t: int) -> Option<HitG> {
        match self {
            Renderable::Sphere(s) => s.hit_s(ray, t),
            Renderable::MovingSphere(s) => s.hit_s(ray, t),
            Renderable::Plane(p) => p.hit_s(ray, t),
        }
    }

    /// Intersect a ray at time `t`.
    pub fn intersects(&self, ray: &Ray, t: i128) -> (h: Option<Hit>)
        requires
            self.wf(),
            ray_wf_g(ray.m()),
            time_wf(t as int),
        ensures
            match h {
                Some(ht) => self.hit_s(ray.m(), t as int) == Some(ht.m()) && hit_wf_g(ht.m()),
                None => self.hit_s(ray.m(), t as int) == None::<HitG>,
            },
    {
        match self {
            Renderable::Sphere(s) => s.intersects(ray, t),
            Renderable::MovingSphere(s) => s.intersects(ray, t),
            Renderable::Plane(p) => p.intersects(ray, t),
        }
    }
}

} // verus!
