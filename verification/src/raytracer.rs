//! The ray-tracing core: scene, closest-hit resolution, the recursive
//! shader, the camera frustum, and frame rendering.

pub mod hit;
pub mod plane;
pub mod renderable;
pub mod sphere;
pub mod vec3;

use vstd::prelude::*;

verus! {

use crate::fixed::{SCALE, tdiv, iabs, clamp, div_floor, clamp_i128};
use vec3::{Vec3, V3g, gwithin, gdot, gsub};
use hit::{Hit, HitG, hit_wf_g};
use renderable::Renderable;

/// A color of three 8-bit channels.
#[derive(Clone, Copy, PartialEq, Eq, Structural, Debug)]
pub struct Rgb {
    pub r: u8,
    pub g: u8,
    pub b: u8,
}

/// A color of four 8-bit channels; the buffer layout handed to the
/// presentation layer.
#[derive(Clone, Copy, PartialEq, Eq, Structural, Debug)]
pub struct Rgba {
    pub r: u8,
    pub g: u8,
    pub b: u8,
    pub a: u8,
}

pub open spec fn black_s() -> Rgb {
    Rgb { r: 0x00, g: 0x00, b: 0x00 }
}

pub open spec fn white_s() -> Rgb {
    Rgb { r: 0xFF, g: 0xFF, b: 0xFF }
}

/// The background color returned when a ray hits nothing.
pub open spec fn sky_s() -> Rgb {
    Rgb { r: 0x42, g: 0x42, b: 0x43 }
}

impl Rgb {
    pub fn black() -> (c: Rgb)
        ensures
            c == black_s(),
    {
        Rgb { r: 0x00, g: 0x00, b: 0x00 }
    }

    pub fn white() -> (c: Rgb)
        ensures
            c == white_s(),
    {
        Rgb { r: 0xFF, g: 0xFF, b: 0xFF }
    }

    /// The sky color.
    pub fn sky() -> (c: Rgb)
        ensures
            c == sky_s(),
    {
        Rgb { r: 0x42, g: 0x42, b: 0x43 }
    }
}

impl From<Rgb> for Rgba {
    /// An opaque pixel of the same color.
    fn from(other: Rgb) -> (c: Rgba) {
        Rgba { r: other.r, g: other.g, b: other.b, a: 0xFF }
    }
}

impl vstd::std_specs::convert::FromSpecImpl<Rgb> for Rgba {
    open spec fn obeys_from_spec() -> bool {
        true
    }

    open spec fn from_spec(other: Rgb) -> Rgba {
        Rgba { r: other.r, g: other.g, b: other.b, a: 0xFF }
    }
}

/// A ray: an origin point and a direction.  Call sites that know a
/// second point on the ray convert it by subtracting the origin.
#[derive(Clone, Copy, PartialEq, Eq, Structural, Debug)]
pub struct Ray {
    pub origin: Vec3,
    pub dir: Vec3,
}

/// The mathematical model of a ray.
pub ghost struct RayG {
    pub origin: V3g,
    pub dir: V3g,
}

impl Ray {
    pub open spec fn m(self) -> RayG {
        RayG { origin: self.origin.m(), dir: self.dir.m() }
    }
}

/// Everything in the scene lives within this many fixed-point units of
/// the origin: 2^52, about a million world units.  An intersection
/// beyond it is treated as a miss.
pub open spec fn world_bound() -> int {
    4503599627370496
}

/// Bound on ray direction components: 2^60.  Directions are not
/// normalized until an intersection test runs.
pub open spec fn dir_bound() -> int {
    1152921504606846976
}

/// Bound on the time values the animations accept: 2^62 fixed-point
/// seconds.
pub open spec fn time_wf(t: int) -> bool {
    -4611686018427387904 < t < 4611686018427387904
}

/// A well-formed ray stays inside the world and has bounded direction
/// components.
pub open spec fn ray_wf_g(r: RayG) -> bool {
    gwithin(r.origin, world_bound()) && gwithin(r.dir, dir_bound())
}

/// One channel of the reflective mix: `a + (b - a) * t`, at fixed-point
/// scale and before any rounding.
pub open spec fn interpolate_s(a: int, b: int, t: int) -> int {
    a * SCALE + (b - a) * t
}

/// One mixed channel: the interpolant rounded to the nearest integer
/// (half up) and clamped into `[0, 255]` so a byte can never wrap.
pub open spec fn mix_channel_s(a: int, b: int, t: int) -> int {
    clamp((interpolate_s(a, b, t) + SCALE / 2) / (SCALE as int), 0, 255)
}

/// The reflective color mix, per channel.
pub open spec fn mix_s(base: Rgb, other: Rgb, t: int) -> Rgb {
    Rgb {
        r: mix_channel_s(base.r as int, other.r as int, t) as u8,
        g: mix_channel_s(base.g as int, other.g as int, t) as u8,
        b: mix_channel_s(base.b as int, other.b as int, t) as u8,
    }
}

/// Linear interpolation between two channel values by a fixed-point
/// weight; the result carries the fixed-point scale.
pub fn interpolate(a: i128, b: i128, t: i128) -> (r: i128)
    requires
        -1024 <= a <= 1024,
        -1024 <= b <= 1024,
        -SCALE <= t <= SCALE,
    ensures
        r == interpolate_s(a as int, b as int, t as int),
        -3072 * SCALE <= r <= 3072 * SCALE,
{
    let diff = b - a;
    proof {
        assert(-2048 * (SCALE as int) <= diff as int * t <= 2048 * (SCALE as int))
            by (nonlinear_arith)
            requires
                -2048 <= diff <= 2048,
                -(SCALE as int) <= t <= SCALE as int,
                SCALE == 4294967296int,
        ;
    }
    let delta = diff * t;
    a * SCALE + delta
}

/// One channel of [`mix_reflection`]; always lands in `[0, 255]`.
pub fn mix_channel(a: u8, b: u8, t: i128) -> (r: u8)
    requires
        0 <= t <= SCALE,
    ensures
        r == mix_channel_s(a as int, b as int, t as int),
{
    let v = interpolate(a as i128, b as i128, t);
    let q = div_floor(v + SCALE / 2, SCALE);
    let c = clamp_i128(q, 0, 255);
    c as u8
}

/// Mix a surface color with the color seen along its reflection,
/// weighted by the surface reflectivity.  Every channel is rounded to
/// nearest and clamped into `[0, 255]`.
pub fn mix_reflection(color: Rgb, reflected_color: Rgb, reflectivity: i128) -> (r: Option<Rgb>)
    requires
        0 <= reflectivity <= SCALE,
    ensures
        r == Some(mix_s(color, reflected_color, reflectivity as int)),
{
    let r = mix_channel(color.r, reflected_color.r, reflectivity);
    let g = mix_channel(color.g, reflected_color.g, reflectivity);
    let b = mix_channel(color.b, reflected_color.b, reflectivity);
    Some(Rgb { r, g, b })
}

/// Color mixing can never leave the byte range, whatever the channel
/// values and whatever the reflectivity in `[0, 1]`.
pub proof fn lemma_mix_channel_in_range(a: int, b: int, t: int)
    ensures
        0 <= mix_channel_s(a, b, t) <= 255,
{
}

/// With an empty primitive list every pixel of every frame is the sky
/// color, whatever the camera pose and whatever the time.
pub proof fn lemma_empty_scene_pixel(rt: Raytracer, px: int, py: int, t: int)
    requires
        rt.scene.objects@.len() == 0,
    ensures
        pixel_color_s(rt, px, py, t) == sky_s(),
{
    match frustum_s(rt) {
        None => {},
        Some(tri) => {
            lemma_empty_scene(
                rt.scene.objects@,
                pixel_ray_s(rt, tri, px, py),
                rt.depth as nat,
                t,
            );
        },
    }
}

/// An ordered collection of primitives, plus the ambient light
/// direction (reserved; shading does not read it yet).
pub struct Scene {
    pub objects: Vec<Renderable>,
    pub sunlight: Vec3,
}

impl Scene {
    /// Every primitive is well-formed.
    pub open spec fn wf(self) -> bool {
        forall|i: int| 0 <= i < self.objects@.len() ==> (#[trigger] self.objects@[i]).wf()
    }
}

/// The squared distance from the ray origin to a hit's intersection
/// point.  Comparisons are made on squared distances: the square root
/// is monotone, so the nearest hit is the same and no rounding enters
/// the ordering.
pub open spec fn hit_d2(h: HitG, ray: RayG) -> int {
    gdot(gsub(h.reflection.origin, ray.origin), gsub(h.reflection.origin, ray.origin))
}

/// The closest hit across a primitive sequence: every primitive is
/// tested, misses are discarded, and of the remaining hits the one
/// nearest the ray origin wins; a tie is broken in favor of the
/// earlier primitive.
pub open spec fn closest_s(objs: Seq<Renderable>, ray: RayG, t: int) -> Option<HitG>
    decreases objs.len(),
{
    if objs.len() == 0 {
        None
    } else {
        let rest = closest_s(objs.drop_last(), ray, t);
        let last = objs.last().hit_s(ray, t);
        match rest {
            None => last,
            Some(hr) => match last {
                None => Some(hr),
                Some(hl) => if hit_d2(hl, ray) < hit_d2(hr, ray) {
                    Some(hl)
                } else {
                    Some(hr)
                },
            },
        }
    }
}

/// The recursive shader: no hit is no color (the caller substitutes the
/// sky).  A hit with remaining depth and positive reflectivity follows
/// its reflection ray and mixes what it sees — the sky, if nothing —
/// into the base color; otherwise the base color is returned as is.
pub open spec fn trace_s(objs: Seq<Renderable>, ray: RayG, depth: nat, t: int) -> Option<Rgb>
    decreases depth,
{
    match closest_s(objs, ray, t) {
        None => None,
        Some(h) => if depth > 0 && h.reflectivity > 0 {
            let other = match trace_s(objs, h.reflection, (depth - 1) as nat, t) {
                Some(c) => c,
                None => sky_s(),
            };
            Some(mix_s(h.color, other, h.reflectivity))
        } else {
            Some(h.color)
        },
    }
}

/// The squared distance from the ray origin to a hit point.
pub fn hit_distance2(h: &Hit, ray: &Ray) -> (d: i128)
    requires
        hit_wf_g(h.m()),
        ray_wf_g(ray.m()),
    ensures
        d == hit_d2(h.m(), ray.m()),
{
    let diff = h.reflection.origin.sub(ray.origin);
    diff.dot(diff)
}

/// Find the nearest valid intersection across all primitives, testing
/// them in scene order.
pub fn closest_hit(ray: &Ray, scene: &Scene, t: i128) -> (h: Option<Hit>)
    requires
        scene.wf(),
        ray_wf_g(ray.m()),
        time_wf(t as int),
    ensures
        match h {
            Some(ht) => closest_s(scene.objects@, ray.m(), t as int) == Some(ht.m()) && hit_wf_g(
                ht.m(),
            ),
            None => closest_s(scene.objects@, ray.m(), t as int) == None::<HitG>,
        },
{
    let mut best: Option<Hit> = None;
    let n = scene.objects.len();
    let mut i: usize = 0;
    while i < n
        invariant
            0 <= i <= n,
            n == scene.objects@.len(),
            scene.wf(),
            ray_wf_g(ray.m()),
            time_wf(t as int),
            match best {
                None => closest_s(scene.objects@.subrange(0, i as int), ray.m(), t as int)
                    == None::<HitG>,
                Some(b) => closest_s(scene.objects@.subrange(0, i as int), ray.m(), t as int)
                    == Some(b.m()) && hit_wf_g(b.m()),
            },
        decreases n - i,
    {
        let obj = &scene.objects[i];
        let candidate = obj.intersects(ray, t);
        proof {
            let pre = scene.objects@.subrange(0, i as int);
            let ext = scene.objects@.subrange(0, i + 1);
            assert(ext.drop_last() =~= pre);
            assert(ext.last() == scene.objects@[i as int]);
        }
        best = match candidate {
            None => best,
            Some(ht) => match best {
                None => Some(ht),
                Some(b) => if hit_distance2(&ht, ray) < hit_distance2(&b, ray) {
                    Some(ht)
                } else {
                    Some(b)
                },
            },
        };
        i = i + 1;
    }
    proof {
        assert(scene.objects@.subrange(0, n as int) =~= scene.objects@);
    }
    best
}

/// Resolve a ray to a color: the closest hit, shaded by recursing on
/// reflections while depth remains.
pub fn intersect(ray: &Ray, scene: &Scene, depth: u32, t: i128) -> (color: Option<Rgb>)
    requires
        scene.wf(),
        ray_wf_g(ray.m()),
        time_wf(t as int),
    ensures
        color == trace_s(scene.objects@, ray.m(), depth as nat, t as int),
    decreases depth,
{
    let resolved = closest_hit(ray, scene, t);
    match resolved {
        None => None,
        Some(hit) => {
            if depth > 0 && hit.reflectivity > 0 {
                let reflected = intersect(&hit.reflection, scene, depth - 1, t);
                match reflected {
                    Some(reflected_color) => mix_reflection(
                        hit.color,
                        reflected_color,
                        hit.reflectivity,
                    ),
                    None => mix_reflection(hit.color, Rgb::sky(), hit.reflectivity),
                }
            } else {
                Some(hit.color)
            }
        },
    }
}

/// With no remaining depth the shader resolves the closest hit once and
/// returns its base color — whatever the reflectivity, no reflection
/// ray is followed.
pub proof fn lemma_trace_depth_zero(objs: Seq<Renderable>, ray: RayG, t: int)
    ensures
        trace_s(objs, ray, 0, t) == match closest_s(objs, ray, t) {
            None => None::<Rgb>,
            Some(h) => Some(h.color),
        },
{
}

/// A hit with zero reflectivity is returned as its base color,
/// unchanged, whatever depth remains.
pub proof fn lemma_trace_opaque(objs: Seq<Renderable>, ray: RayG, depth: nat, t: int, h: HitG)
    requires
        closest_s(objs, ray, t) == Some(h),
        h.reflectivity == 0,
    ensures
        trace_s(objs, ray, depth, t) == Some(h.color),
{
}

/// An empty scene yields no hit and no color, for every ray, every
/// depth and every time; the renderer then paints the sky color.
pub proof fn lemma_empty_scene(objs: Seq<Renderable>, ray: RayG, depth: nat, t: int)
    requires
        objs.len() == 0,
    ensures
        closest_s(objs, ray, t) == None::<HitG>,
        trace_s(objs, ray, depth, t) == None::<Rgb>,
{
}

/// The world "up" reference the camera basis is built against.
pub open spec fn up_g() -> V3g {
    V3g { x: 0, y: SCALE as int, z: 0 }
}

/// The camera's orbit around the scene: at time `t` (fixed-point
/// seconds, the angle taken in radians) it sits at
/// `(200 cos t, 40 cos t, 200 sin t)` world units.
pub open spec fn path_s(t: int) -> V3g {
    let tt = tdiv(t * sphere::INV_TAU, SCALE as int);
    V3g {
        x: tdiv(858993459200 * crate::trig::cos_turns_s(tt), SCALE as int),
        y: tdiv(171798691840 * crate::trig::cos_turns_s(tt), SCALE as int),
        z: tdiv(858993459200 * crate::trig::sin_turns_s(tt), SCALE as int),
    }
}

/// The camera direction at time `t`: toward the origin, or along `+z`
/// should the orbit position degenerate to the exact origin.
pub open spec fn pose_dir_s(t: int) -> V3g {
    let np = vec3::gneg(path_s(t));
    if gdot(np, np) > 0 {
        vec3::gnorm(np)
    } else {
        V3g { x: 0, y: 0, z: SCALE as int }
    }
}

/// The camera orbit position at time `t`.
pub fn path(t: i128) -> (p: Vec3)
    requires
        time_wf(t as int),
    ensures
        p.m() == path_s(t as int),
        gwithin(p.m(), world_bound()),
{
    proof {
        assert(iabs(t as int * sphere::INV_TAU) <= 3152388426011658498556821504int)
            by (nonlinear_arith)
            requires
                iabs(t as int) <= 4611686018427387904int,
                sphere::INV_TAU == 683565276int,
        ;
        assert(3152388426011658498556821504int <= 733972626275303424int * SCALE);
        crate::fixed::lemma_tdiv_le(t as int * sphere::INV_TAU, SCALE as int, 733972626275303424int);
    }
    let tt = crate::fixed::div_trunc(t * sphere::INV_TAU, SCALE);
    let cv = crate::trig::cos_turns(tt);
    let sv = crate::trig::sin_turns(tt);
    proof {
        assert(iabs(858993459200int * cv as int) <= 858993459200int * SCALE) by (nonlinear_arith)
            requires
                iabs(cv as int) <= SCALE as int,
        ;
        assert(iabs(171798691840int * cv as int) <= 171798691840int * SCALE) by (nonlinear_arith)
            requires
                iabs(cv as int) <= SCALE as int,
        ;
        assert(iabs(858993459200int * sv as int) <= 858993459200int * SCALE) by (nonlinear_arith)
            requires
                iabs(sv as int) <= SCALE as int,
        ;
        crate::fixed::lemma_tdiv_le(858993459200int * cv as int, SCALE as int, 858993459200int);
        crate::fixed::lemma_tdiv_le(171798691840int * cv as int, SCALE as int, 171798691840int);
        crate::fixed::lemma_tdiv_le(858993459200int * sv as int, SCALE as int, 858993459200int);
    }
    Vec3 {
        x: crate::fixed::div_trunc(858993459200 * cv, SCALE),
        y: crate::fixed::div_trunc(171798691840 * cv, SCALE),
        z: crate::fixed::div_trunc(858993459200 * sv, SCALE),
    }
}

/// The moon's orbit: sixty world units from the origin in the x/y
/// plane, at twice the time's angular rate.
pub fn moon_path(t: i128) -> (p: Vec3)
    requires
        time_wf(t as int),
    ensures
        p.m() == sphere::orbit_s(257698037760, 2, t as int),
        gwithin(p.m(), world_bound()),
{
    let orbit = sphere::Trajectory::Orbit { radius: 257698037760, rate: 2 };
    orbit.eval(t)
}

/// The whole engine: the scene, the camera pose, the projection
/// parameters, and the output size, fixed at construction.
pub struct Raytracer {
    pub scene: Scene,
    pub pos: Vec3,
    pub dir: Vec3,
    /// Distance of the near plane from the camera, fixed-point.
    pub near_plane: i128,
    /// The tangent of the vertical field-of-view angle, fixed-point.
    /// Storing the tangent rather than the angle keeps the projection
    /// free of any degrees-versus-radians convention.
    pub tan_fov: i128,
    pub width: u16,
    pub height: u16,
    /// The maximum number of reflection bounces per ray.
    pub depth: u32,
}

/// The camera basis and per-pixel steps: the top-left near-plane
/// corner, and the step vectors for one pixel column and one pixel
/// row.  `None` when the camera direction is parallel to the up
/// reference and no basis exists.
pub open spec fn frustum_s(rt: Raytracer) -> Option<(V3g, V3g, V3g)> {
    let lsm = vec3::gscale(vec3::gcross(rt.dir.m(), up_g()), 1);
    if gdot(lsm, lsm) <= 0 {
        None
    } else {
        let left = vec3::gnorm(lsm);
        let dsm = vec3::gscale(vec3::gcross(rt.dir.m(), left), 1);
        if gdot(dsm, dsm) <= 0 {
            None
        } else {
            let down = vec3::gnorm(dsm);
            let center = vec3::gadd(vec3::gscale(rt.dir.m(), rt.near_plane as int), rt.pos.m());
            let x0 = tdiv(2 * rt.near_plane * rt.tan_fov, SCALE as int);
            let y0 = tdiv(x0 * rt.height, rt.width as int);
            let topleft = vec3::gsub(
                vec3::gadd(center, vec3::gscale(left, x0)),
                vec3::gscale(down, y0),
            );
            let sx = tdiv(-2 * x0, rt.width as int);
            let sy = tdiv(2 * y0, rt.height as int);
            Some((topleft, vec3::gscale(left, sx), vec3::gscale(down, sy)))
        }
    }
}

/// An executable frustum value agrees with the model and is bounded.
pub open spec fn frustum_match(rt: Raytracer, f: Option<(Vec3, Vec3, Vec3)>) -> bool {
    match f {
        None => frustum_s(rt) == None::<(V3g, V3g, V3g)>,
        Some(tri) => frustum_s(rt) == Some((tri.0.m(), tri.1.m(), tri.2.m())) && gwithin(
            tri.0.m(),
            36028797018963968,
        ) && gwithin(tri.1.m(), 1099511627776) && gwithin(tri.2.m(), 1099511627776),
    }
}

/// The primitives of the built-in scene: two orbiting moons, a central
/// mirror sphere, a checkered floor and two mirror walls.
pub open spec fn initial_objects() -> Seq<Renderable> {
    seq![
        Renderable::MovingSphere(
            sphere::MovingSphere {
                pos: sphere::Trajectory::Orbit { radius: 257698037760, rate: 2 },
                r: 42949672960,
                color: Rgb { r: 0x18, g: 0x39, b: 0x3E },
                reflectivity: 858993459,
            },
        ),
        Renderable::MovingSphere(
            sphere::MovingSphere {
                pos: sphere::Trajectory::OrbitOpposite { radius: 257698037760, rate: 2 },
                r: 21474836480,
                color: Rgb { r: 0x4f, g: 0x2c, b: 0x1b },
                reflectivity: 2147483648,
            },
        ),
        Renderable::Sphere(
            sphere::Sphere {
                pos: Vec3 { x: 0, y: 0, z: 0 },
                r: 128849018880,
                color: Rgb { r: 0x4f, g: 0x2c, b: 0x1b },
                reflectivity: 4294967296,
            },
        ),
        Renderable::Plane(
            plane::Plane {
                pos: Vec3 { x: 0, y: -429496729600i128, z: 0 },
                n: Vec3 { x: 0, y: 4294967296, z: 0 },
                color: white_s(),
                reflectivity: 3006477107,
                checker: true,
            },
        ),
        Renderable::Plane(
            plane::Plane {
                pos: Vec3 { x: 1073741824000, y: 0, z: 0 },
                n: Vec3 { x: -4294967296i128, y: 0, z: 0 },
                color: Rgb { r: 0xAA, g: 0xAA, b: 0xAA },
                reflectivity: 4294967296,
                checker: false,
            },
        ),
        Renderable::Plane(
            plane::Plane {
                pos: Vec3 { x: 0, y: 0, z: 1073741824000 },
                n: Vec3 { x: 0, y: 0, z: -4294967296i128 },
                color: Rgb { r: 0xAA, g: 0xAA, b: 0xAA },
                reflectivity: 4294967296,
                checker: false,
            },
        ),
    ]
}

/// The ray the camera casts for pixel `(px, py)`: from the camera
/// position toward the near-plane point `topleft + dx * px + dy * py`.
pub open spec fn pixel_ray_s(rt: Raytracer, tri: (V3g, V3g, V3g), px: int, py: int) -> RayG {
    RayG {
        origin: rt.pos.m(),
        dir: gsub(
            vec3::gadd(
                vec3::gadd(tri.0, vec3::gscale_int(tri.1, px)),
                vec3::gscale_int(tri.2, py),
            ),
            rt.pos.m(),
        ),
    }
}

/// The final color of pixel `(px, py)` at time `t`: what the shader
/// sees along the pixel's ray, or the sky — also when no camera basis
/// exists.
pub open spec fn pixel_color_s(rt: Raytracer, px: int, py: int, t: int) -> Rgb {
    match frustum_s(rt) {
        None => sky_s(),
        Some(tri) => match trace_s(
            rt.scene.objects@,
            pixel_ray_s(rt, tri, px, py),
            rt.depth as nat,
            t,
        ) {
            Some(c) => c,
            None => sky_s(),
        },
    }
}

/// Pixel `(px, py)` of the buffer holds its traced color, opaque.
pub open spec fn pixel_ok(rt: Raytracer, buf: Seq<u8>, px: int, py: int, t: int) -> bool {
    let c = pixel_color_s(rt, px, py, t);
    let i = 4 * (py * rt.width + px);
    &&& buf[i] == c.r
    &&& buf[i + 1] == c.g
    &&& buf[i + 2] == c.b
    &&& buf[i + 3] == 255
}

impl Raytracer {
    /// Scene and pose well-formed, projection parameters in range.
    pub open spec fn wf(self) -> bool {
        &&& self.scene.wf()
        &&& gwithin(self.pos.m(), world_bound())
        &&& gwithin(self.dir.m(), vec3::unit_bound())
        &&& 1 <= self.near_plane <= 16 * SCALE
        &&& 0 <= self.tan_fov <= 4 * SCALE
        &&& 1 <= self.width <= 4096
        &&& 1 <= self.height <= 4096
        &&& self.depth <= 64
    }

    /// The camera basis and per-pixel steps for the current pose.
    pub fn frustum(&self) -> (f: Option<(Vec3, Vec3, Vec3)>)
        requires
            self.wf(),
        ensures
            frustum_match(*self, f),
    {
        let up = Vec3 { x: 0, y: SCALE, z: 0 };
        let left = match self.dir.unit_cross(up) {
            Err(_) => {
                return None;
            },
            Ok(v) => v,
        };
        let down = match self.dir.unit_cross(left) {
            Err(_) => {
                return None;
            },
            Ok(v) => v,
        };
        proof {
            let s = SCALE as int;
            assert(iabs(self.dir.m().x * self.near_plane) <= 32 * s * s) by (nonlinear_arith)
                requires
                    iabs(self.dir.m().x) <= 2 * (SCALE as int),
                    iabs(self.near_plane as int) <= 16 * (SCALE as int),
                    s == SCALE as int,
            ;
            assert(iabs(self.dir.m().y * self.near_plane) <= 32 * s * s) by (nonlinear_arith)
                requires
                    iabs(self.dir.m().y) <= 2 * (SCALE as int),
                    iabs(self.near_plane as int) <= 16 * (SCALE as int),
                    s == SCALE as int,
            ;
            assert(iabs(self.dir.m().z * self.near_plane) <= 32 * s * s) by (nonlinear_arith)
                requires
                    iabs(self.dir.m().z) <= 2 * (SCALE as int),
                    iabs(self.near_plane as int) <= 16 * (SCALE as int),
                    s == SCALE as int,
            ;
            crate::fixed::lemma_tdiv_le(self.dir.m().x * self.near_plane, s, 32 * s);
            crate::fixed::lemma_tdiv_le(self.dir.m().y * self.near_plane, s, 32 * s);
            crate::fixed::lemma_tdiv_le(self.dir.m().z * self.near_plane, s, 32 * s);
        }
        let center = self.dir.scale(self.near_plane).add(self.pos);
        proof {
            let s = SCALE as int;
            assert(iabs(2 * self.near_plane * self.tan_fov) <= (128 * s) * s) by (nonlinear_arith)
                requires
                    1 <= self.near_plane <= 16 * (SCALE as int),
                    0 <= self.tan_fov <= 4 * (SCALE as int),
                    s == SCALE as int,
            ;
            crate::fixed::lemma_tdiv_le(2 * self.near_plane as int * self.tan_fov as int, s, 128 * s);
            vstd::arithmetic::div_mod::lemma_div_pos_is_pos(
                2 * self.near_plane as int * self.tan_fov as int,
                s,
            );
        }
        let x0 = crate::fixed::div_trunc(2 * self.near_plane * self.tan_fov, SCALE);
        proof {
            let s = SCALE as int;
            assert(iabs(x0 as int * self.height as int) <= (128 * s) * 4096) by (nonlinear_arith)
                requires
                    0 <= x0 <= 128 * (SCALE as int),
                    1 <= self.height <= 4096,
                    s == SCALE as int,
            ;
            crate::fixed::lemma_tdiv_bounds(x0 as int * self.height as int, self.width as int);
            vstd::arithmetic::div_mod::lemma_div_pos_is_pos(
                x0 as int * self.height as int,
                self.width as int,
            );
        }
        let y0 = crate::fixed::div_trunc(x0 * self.height as i128, self.width as i128);
        proof {
            let s = SCALE as int;
            assert(iabs(left.m().x * x0) <= (128 * s) * s) by (nonlinear_arith)
                requires
                    iabs(left.m().x) <= SCALE as int,
                    0 <= x0 <= 128 * (SCALE as int),
                    s == SCALE as int,
            ;
            assert(iabs(left.m().y * x0) <= (128 * s) * s) by (nonlinear_arith)
                requires
                    iabs(left.m().y) <= SCALE as int,
                    0 <= x0 <= 128 * (SCALE as int),
                    s == SCALE as int,
            ;
            assert(iabs(left.m().z * x0) <= (128 * s) * s) by (nonlinear_arith)
                requires
                    iabs(left.m().z) <= SCALE as int,
                    0 <= x0 <= 128 * (SCALE as int),
                    s == SCALE as int,
            ;
            crate::fixed::lemma_tdiv_le(left.m().x * x0, s, 128 * s);
            crate::fixed::lemma_tdiv_le(left.m().y * x0, s, 128 * s);
            crate::fixed::lemma_tdiv_le(left.m().z * x0, s, 128 * s);
            assert(iabs(down.m().x * y0) <= 2251799813685248int * s) by (nonlinear_arith)
                requires
                    iabs(down.m().x) <= SCALE as int,
                    0 <= y0 <= 2251799813685248int,
                    s == SCALE as int,
            ;
            assert(iabs(down.m().y * y0) <= 2251799813685248int * s) by (nonlinear_arith)
                requires
                    iabs(down.m().y) <= SCALE as int,
                    0 <= y0 <= 2251799813685248int,
                    s == SCALE as int,
            ;
            assert(iabs(down.m().z * y0) <= 2251799813685248int * s) by (nonlinear_arith)
                requires
                    iabs(down.m().z) <= SCALE as int,
                    0 <= y0 <= 2251799813685248int,
                    s == SCALE as int,
            ;
            crate::fixed::lemma_tdiv_le(down.m().x * y0, s, 2251799813685248int);
            crate::fixed::lemma_tdiv_le(down.m().y * y0, s, 2251799813685248int);
            crate::fixed::lemma_tdiv_le(down.m().z * y0, s, 2251799813685248int);
        }
        let topleft = center.add(left.scale(x0)).sub(down.scale(y0));
        proof {
            crate::fixed::lemma_tdiv_bounds(-2 * x0 as int, self.width as int);
        }
        let sx = crate::fixed::div_trunc(-2 * x0, self.width as i128);
        proof {
            let s = SCALE as int;
            assert(iabs(2 * y0 as int) <= (2 * x0 as int) * self.height as int)
                by (nonlinear_arith)
                requires
                    0 <= y0,
                    iabs(y0 as int) <= x0 as int * self.height as int,
                    0 <= x0,
                    1 <= self.height,
            ;
            crate::fixed::lemma_tdiv_le(2 * y0 as int, self.height as int, 2 * x0 as int);
        }
        let sy = crate::fixed::div_trunc(2 * y0, self.height as i128);
        proof {
            let s = SCALE as int;
            assert(iabs(left.m().x * sx) <= 1099511627776int * s) by (nonlinear_arith)
                requires
                    iabs(left.m().x) <= SCALE as int,
                    iabs(sx as int) <= 1099511627776int,
                    s == SCALE as int,
            ;
            assert(iabs(left.m().y * sx) <= 1099511627776int * s) by (nonlinear_arith)
                requires
                    iabs(left.m().y) <= SCALE as int,
                    iabs(sx as int) <= 1099511627776int,
                    s == SCALE as int,
            ;
            assert(iabs(left.m().z * sx) <= 1099511627776int * s) by (nonlinear_arith)
                requires
                    iabs(left.m().z) <= SCALE as int,
                    iabs(sx as int) <= 1099511627776int,
                    s == SCALE as int,
            ;
            crate::fixed::lemma_tdiv_le(left.m().x * sx, s, 1099511627776int);
            crate::fixed::lemma_tdiv_le(left.m().y * sx, s, 1099511627776int);
            crate::fixed::lemma_tdiv_le(left.m().z * sx, s, 1099511627776int);
            assert(iabs(down.m().x * sy) <= 1099511627776int * s) by (nonlinear_arith)
                requires
                    iabs(down.m().x) <= SCALE as int,
                    iabs(sy as int) <= 1099511627776int,
                    s == SCALE as int,
            ;
            assert(iabs(down.m().y * sy) <= 1099511627776int * s) by (nonlinear_arith)
                requires
                    iabs(down.m().y) <= SCALE as int,
                    iabs(sy as int) <= 1099511627776int,
                    s == SCALE as int,
            ;
            assert(iabs(down.m().z * sy) <= 1099511627776int * s) by (nonlinear_arith)
                requires
                    iabs(down.m().z) <= SCALE as int,
                    iabs(sy as int) <= 1099511627776int,
                    s == SCALE as int,
            ;
            crate::fixed::lemma_tdiv_le(down.m().x * sy, s, 1099511627776int);
            crate::fixed::lemma_tdiv_le(down.m().y * sy, s, 1099511627776int);
            crate::fixed::lemma_tdiv_le(down.m().z * sy, s, 1099511627776int);
        }
        let dx = left.scale(sx);
        let dy = down.scale(sy);
        Some((topleft, dx, dy))
    }

    /// The built-in scene and camera, at the canonical resolution and
    /// bounce depth.
    pub fn new() -> (rt: Raytracer)
        ensures
            rt.wf(),
            rt.scene.objects@ == initial_objects(),
            rt.scene.sunlight == (Vec3 { x: 21474836480, y: -12884901888i128, z: 4294967296 }),
            rt.pos == (Vec3 { x: 0, y: 300647710720, z: 0 }),
            rt.dir == (Vec3 { x: 0, y: -4294967296i128, z: 0 }),
            rt.near_plane == SCALE,
            rt.tan_fov == 1374563005,
            rt.width == 400,
            rt.height == 300,
            rt.depth == 7,
    {
        let mut objects: Vec<Renderable> = Vec::new();
        objects.push(
            Renderable::MovingSphere(
                sphere::MovingSphere {
                    pos: sphere::Trajectory::Orbit { radius: 257698037760, rate: 2 },
                    r: 42949672960,
                    color: Rgb { r: 0x18, g: 0x39, b: 0x3E },
                    reflectivity: 858993459,
                },
            ),
        );
        objects.push(
            Renderable::MovingSphere(
                sphere::MovingSphere {
                    pos: sphere::Trajectory::OrbitOpposite { radius: 257698037760, rate: 2 },
                    r: 21474836480,
                    color: Rgb { r: 0x4f, g: 0x2c, b: 0x1b },
                    reflectivity: 2147483648,
                },
            ),
        );
        objects.push(
            Renderable::Sphere(
                sphere::Sphere {
                    pos: Vec3 { x: 0, y: 0, z: 0 },
                    r: 128849018880,
                    color: Rgb { r: 0x4f, g: 0x2c, b: 0x1b },
                    reflectivity: 4294967296,
                },
            ),
        );
        objects.push(
            Renderable::Plane(
                plane::Plane {
                    pos: Vec3 { x: 0, y: -429496729600i128, z: 0 },
                    n: Vec3 { x: 0, y: 4294967296, z: 0 },
                    color: Rgb::white(),
                    reflectivity: 3006477107,
                    checker: true,
                },
            ),
        );
        objects.push(
            Renderable::Plane(
                plane::Plane {
                    pos: Vec3 { x: 1073741824000, y: 0, z: 0 },
                    n: Vec3 { x: -4294967296i128, y: 0, z: 0 },
                    color: Rgb { r: 0xAA, g: 0xAA, b: 0xAA },
                    reflectivity: 4294967296,
                    checker: false,
                },
            ),
        );
        objects.push(
            Renderable::Plane(
                plane::Plane {
                    pos: Vec3 { x: 0, y: 0, z: 1073741824000 },
                    n: Vec3 { x: 0, y: 0, z: -4294967296i128 },
                    color: Rgb { r: 0xAA, g: 0xAA, b: 0xAA },
                    reflectivity: 4294967296,
                    checker: false,
                },
            ),
        );
        proof {
            assert(objects@ =~= initial_objects());
        }
        Raytracer {
            scene: Scene {
                objects,
                sunlight: Vec3 { x: 21474836480, y: -12884901888i128, z: 4294967296 },
            },
            pos: Vec3 { x: 0, y: 300647710720, z: 0 },
            dir: Vec3 { x: 0, y: -4294967296i128, z: 0 },
            near_plane: SCALE,
            tan_fov: 1374563005,
            width: 400,
            height: 300,
            depth: 7,
        }
    }

    /// The traced color of one pixel, given the frame's frustum.
    pub fn pixel_color(&self, f: &Option<(Vec3, Vec3, Vec3)>, x: u16, y: u16, t: i128) -> (c: Rgb)
        requires
            self.wf(),
            time_wf(t as int),
            x < self.width,
            y < self.height,
            frustum_match(*self, *f),
        ensures
            c == pixel_color_s(*self, x as int, y as int, t as int),
    {
        match *f {
            None => Rgb::sky(),
            Some((tl, dx, dy)) => {
                proof {
                    let bnd = 1099511627776int;
                    assert(iabs(dx.m().x * (x as int)) <= bnd * 4096 && iabs(dx.m().y * (x as int))
                        <= bnd * 4096 && iabs(dx.m().z * (x as int)) <= bnd * 4096)
                        by (nonlinear_arith)
                        requires
                            iabs(dx.m().x) <= bnd,
                            iabs(dx.m().y) <= bnd,
                            iabs(dx.m().z) <= bnd,
                            0 <= x < 4096,
                            bnd == 1099511627776int,
                    ;
                    assert(iabs(dy.m().x * (y as int)) <= bnd * 4096 && iabs(dy.m().y * (y as int))
                        <= bnd * 4096 && iabs(dy.m().z * (y as int)) <= bnd * 4096)
                        by (nonlinear_arith)
                        requires
                            iabs(dy.m().x) <= bnd,
                            iabs(dy.m().y) <= bnd,
                            iabs(dy.m().z) <= bnd,
                            0 <= y < 4096,
                            bnd == 1099511627776int,
                    ;
                }
                let cx = dx.scale_int(x as i128);
                let cy = dy.scale_int(y as i128);
                let target = tl.add(cx).add(cy);
                let ray = Ray { origin: self.pos, dir: target.sub(self.pos) };
                match intersect(&ray, &self.scene, self.depth, t) {
                    Some(color) => color,
                    None => Rgb::sky(),
                }
            },
        }
    }

    /// Render one frame at time `t`: move the camera along its orbit,
    /// build the frustum once, cast one ray per pixel, and pack the
    /// traced colors into an opaque RGBA buffer, row-major, top row
    /// first.
    #[verifier::rlimit(100)]
    pub fn render_frame(&mut self, t: i128) -> (out: (Vec<u8>, u16, u16))
        requires
            old(self).wf(),
            time_wf(t as int),
        ensures
            final(self).wf(),
            final(self).scene == old(self).scene,
            final(self).near_plane == old(self).near_plane,
            final(self).tan_fov == old(self).tan_fov,
            final(self).width == old(self).width,
            final(self).height == old(self).height,
            final(self).depth == old(self).depth,
            final(self).pos.m() == path_s(t as int),
            final(self).dir.m() == pose_dir_s(t as int),
            out.1 == final(self).width,
            out.2 == final(self).height,
            out.0@.len() == 4 * (final(self).width as int) * (final(self).height as int),
            forall|px: int, py: int|
                0 <= px < final(self).width && 0 <= py < final(self).height ==> #[trigger] pixel_ok(
                    *final(self),
                    out.0@,
                    px,
                    py,
                    t as int,
                ),
    {
        let newpos = path(t);
        let dir = match newpos.neg().norm() {
            Ok(d) => d,
            Err(_) => Vec3 { x: 0, y: 0, z: SCALE },
        };
        self.pos = newpos;
        self.dir = dir;
        let f = self.frustum();
        let w = self.width;
        let h = self.height;
        let mut pixels: Vec<u8> = Vec::new();
        let mut y: u16 = 0;
        while y < h
            invariant
                self.wf(),
                time_wf(t as int),
                frustum_match(*self, f),
                w == self.width,
                h == self.height,
                y <= h,
                pixels@.len() == 4 * (y as int) * (w as int),
                forall|px: int, py: int|
                    0 <= px < w && 0 <= py < y ==> #[trigger] pixel_ok(
                        *self,
                        pixels@,
                        px,
                        py,
                        t as int,
                    ),
            decreases h - y,
        {
            let mut x: u16 = 0;
            while x < w
                invariant
                    self.wf(),
                    time_wf(t as int),
                    frustum_match(*self, f),
                    w == self.width,
                    h == self.height,
                    y < h,
                    x <= w,
                    pixels@.len() == 4 * (y as int) * (w as int) + 4 * (x as int),
                    forall|px: int, py: int|
                        0 <= px < w && 0 <= py < y ==> #[trigger] pixel_ok(
                            *self,
                            pixels@,
                            px,
                            py,
                            t as int,
                        ),
                    forall|px: int|
                        0 <= px < x ==> #[trigger] pixel_ok(*self, pixels@, px, y as int, t as int),
                decreases w - x,
            {
                let color = self.pixel_color(&f, x, y, t);
                let rgba = Rgba::from(color);
                let ghost buf0 = pixels@;
                pixels.push(rgba.r);
                pixels.push(rgba.g);
                pixels.push(rgba.b);
                pixels.push(rgba.a);
                proof {
                    assert(rgba.a == 255);
                    assert(pixels@ =~= buf0 + seq![rgba.r, rgba.g, rgba.b, rgba.a]);
                    assert(4 * (y as int) * (w as int) + 4 * (x as int) == 4 * ((y as int) * (
                    w as int) + (x as int))) by (nonlinear_arith);
                    assert forall|px: int, py: int|
                        0 <= px < w && 0 <= py < y implies #[trigger] pixel_ok(
                        *self,
                        pixels@,
                        px,
                        py,
                        t as int,
                    ) by {
                        assert(pixel_ok(*self, buf0, px, py, t as int));
                        assert(4 * (py * (w as int) + px) + 3 < buf0.len()) by (nonlinear_arith)
                            requires
                                0 <= px < w as int,
                                0 <= py < y as int,
                                buf0.len() == 4 * (y as int) * (w as int) + 4 * (x as int),
                                0 <= x,
                        ;
                    }
                    assert forall|px: int| 0 <= px < x + 1 implies #[trigger] pixel_ok(
                        *self,
                        pixels@,
                        px,
                        y as int,
                        t as int,
                    ) by {
                        if px < x {
                            assert(pixel_ok(*self, buf0, px, y as int, t as int));
                            assert(4 * ((y as int) * (w as int) + px) + 3 < buf0.len())
                                by (nonlinear_arith)
                                requires
                                    0 <= px < x as int,
                                    buf0.len() == 4 * (y as int) * (w as int) + 4 * (x as int),
                                    0 <= y,
                                    0 <= w,
                            ;
                        } else {
                            assert(buf0.len() == 4 * ((y as int) * (w as int) + px));
                        }
                    }
                }
                x = x + 1;
            }
            proof {
                assert(4 * ((y as int) + 1) * (w as int) == 4 * (y as int) * (w as int) + 4 * (
                w as int)) by (nonlinear_arith);
            }
            y = y + 1;
        }
        proof {
            assert(4 * (y as int) * (w as int) == 4 * (w as int) * (h as int))
                by (nonlinear_arith)
                requires
                    y == h,
            ;
        }
        (pixels, w, h)
    }
}

impl crate::renderer::Renderer for Raytracer {
    open spec fn inv(&self) -> bool {
        self.wf()
    }

    fn render(&mut self, t: i128) -> (out: (Vec<u8>, u16, u16))
        ensures
            final (self).scene == old(self).scene,
            final (self).near_plane == old(self).near_plane,
            final (self).tan_fov == old(self).tan_fov,
            final (self).width == old(self).width,
            final (self).height == old(self).height,
            final (self).depth == old(self).depth,
            final (self).pos.m() == path_s(t as int),
            final (self).dir.m() == pose_dir_s(t as int),
            out.1 == final (self).width,
            out.2 == final (self).height,
            forall|px: int, py: int|
                0 <= px < final (self).width && 0 <= py < final (self).height
                    ==> #[trigger] pixel_ok(*final (self), out.0@, px, py, t as int),
    {
        self.render_frame(t)
    }
}

} // verus!
