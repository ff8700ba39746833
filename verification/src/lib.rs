//! A small recursive ray tracer, verified with Verus.
//!
//! All geometry is carried out in fixed-point arithmetic: a world
//! coordinate is an `i128` scaled by [`fixed::SCALE`].  Every operation
//! of the pipeline — vector algebra, ray/primitive intersection,
//! closest-hit resolution, recursive shading and pixel packing — has an
//! exact contract over that integer model.

pub mod fixed;
pub mod raytracer;
pub mod renderer;
pub mod trig;
pub mod util;
