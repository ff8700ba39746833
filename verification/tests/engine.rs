use raytracer::fixed::{clamp_i128, div_floor, div_trunc, isqrt, rem_floor, SCALE};
use raytracer::raytracer::hit::Hit;
use raytracer::raytracer::plane::{Plane, ALT_REFLECTIVITY};
use raytracer::raytracer::renderable::Renderable;
use raytracer::raytracer::sphere::{MovingSphere, Sphere, Trajectory};
use raytracer::raytracer::vec3::Vec3;
use raytracer::raytracer::{
    closest_hit, intersect, mix_channel, mix_reflection, moon_path, path, Ray, Raytracer, Rgb,
    Rgba, Scene,
};

fn unit_z() -> Vec3 {
    Vec3 {
        x: 0,
        y: 0,
        z: SCALE,
    }
}

fn sphere_at(z_units: i128, r_units: i128, color: Rgb, reflectivity: i128) -> Renderable {
    Renderable::Sphere(Sphere {
        pos: Vec3 {
            x: 0,
            y: 0,
            z: z_units * SCALE,
        },
        r: r_units * SCALE,
        color,
        reflectivity,
    })
}

fn scene_of(objects: Vec<Renderable>) -> Scene {
    Scene {
        objects,
        sunlight: Vec3 { x: 0, y: 0, z: 0 },
    }
}

fn brown() -> Rgb {
    Rgb {
        r: 0x4f,
        g: 0x2c,
        b: 0x1b,
    }
}

#[test]
fn fixed_point_helpers() {
    assert_eq!(div_trunc(7 * SCALE + 1, SCALE), 7);
    assert_eq!(div_trunc(-(7 * SCALE + 1), SCALE), -7);
    assert_eq!(div_floor(-(7 * SCALE + 1), SCALE), -8);
    assert_eq!(rem_floor(-1, SCALE), SCALE - 1);
    assert_eq!(isqrt(0), 0);
    assert_eq!(isqrt(15), 3);
    assert_eq!(isqrt(16), 4);
    assert_eq!(isqrt(SCALE * SCALE), SCALE);
    assert_eq!(clamp_i128(300, 0, 255), 255);
    assert_eq!(clamp_i128(-3, 0, 255), 0);
}

#[test]
fn normalize_magnitude_near_unit() {
    // A 3-4-5 triple normalizes to magnitude within 1e-9 of one.
    let v = Vec3 {
        x: 3 * SCALE,
        y: 4 * SCALE,
        z: 0,
    };
    let n = v.norm().unwrap();
    let m = n.mag();
    assert!(m >= SCALE - 4 && m <= SCALE, "magnitude {m}");
    // An awkward, non-axis-aligned vector.
    let v = Vec3 {
        x: 7 * SCALE + 12345,
        y: -2 * SCALE + 999,
        z: 5 * SCALE - 77,
    };
    let m = v.norm().unwrap().mag();
    assert!(m >= SCALE - 4 && m <= SCALE, "magnitude {m}");
}

#[test]
fn normalize_zero_vector_is_degenerate() {
    let v = Vec3 { x: 0, y: 0, z: 0 };
    assert!(v.norm().is_err());
}

#[test]
fn reflect_preserves_magnitude() {
    // Mirroring a unit direction about a unit normal keeps it unit.
    let u = unit_z();
    let n = Vec3 {
        x: 0,
        y: 0,
        z: -SCALE,
    };
    let r = u.reflect(n);
    assert_eq!(
        r,
        Vec3 {
            x: 0,
            y: 0,
            z: -SCALE
        }
    );
    assert_eq!(r.mag(), SCALE);
    // A 45-degree bounce off the floor normal.
    let d = Vec3 {
        x: 0,
        y: -SCALE,
        z: SCALE,
    };
    let floor_n = Vec3 {
        x: 0,
        y: SCALE,
        z: 0,
    };
    let r = d.reflect(floor_n);
    assert_eq!(
        r,
        Vec3 {
            x: 0,
            y: SCALE,
            z: SCALE
        }
    );
}

#[test]
fn sphere_center_ray_hits() {
    // Straight through the center from outside: a hit on the near
    // surface, reflected straight back.
    let s = Sphere {
        pos: Vec3 {
            x: 0,
            y: 0,
            z: 100 * SCALE,
        },
        r: 30 * SCALE,
        color: brown(),
        reflectivity: 0,
    };
    let ray = Ray {
        origin: Vec3 { x: 0, y: 0, z: 0 },
        dir: unit_z(),
    };
    let hit = s.intersects(&ray, 0).expect("expected a hit");
    assert_eq!(
        hit.reflection.origin,
        Vec3 {
            x: 0,
            y: 0,
            z: 70 * SCALE
        }
    );
    assert_eq!(
        hit.reflection.dir,
        Vec3 {
            x: 0,
            y: 0,
            z: -SCALE
        }
    );
    assert_eq!(hit.color, brown());
}

#[test]
fn sphere_tangent_ray_misses() {
    // Closest approach exactly the radius: the discriminant is zero and
    // a tangent counts as no hit.
    let s = Sphere {
        pos: Vec3 {
            x: 30 * SCALE,
            y: 0,
            z: 40 * SCALE,
        },
        r: 30 * SCALE,
        color: brown(),
        reflectivity: 0,
    };
    let ray = Ray {
        origin: Vec3 { x: 0, y: 0, z: 0 },
        dir: unit_z(),
    };
    assert!(s.intersects(&ray, 0).is_none());
}

#[test]
fn sphere_distant_ray_misses() {
    // Closest approach beyond the radius: negative discriminant.
    let s = Sphere {
        pos: Vec3 {
            x: 30 * SCALE,
            y: 0,
            z: 40 * SCALE,
        },
        r: 29 * SCALE,
        color: brown(),
        reflectivity: 0,
    };
    let ray = Ray {
        origin: Vec3 { x: 0, y: 0, z: 0 },
        dir: unit_z(),
    };
    assert!(s.intersects(&ray, 0).is_none());
}

#[test]
fn sphere_behind_origin_misses() {
    // The sphere sits behind the ray origin: both roots are negative.
    let s = Sphere {
        pos: Vec3 {
            x: 0,
            y: 0,
            z: -100 * SCALE,
        },
        r: 30 * SCALE,
        color: brown(),
        reflectivity: 0,
    };
    let ray = Ray {
        origin: Vec3 { x: 0, y: 0, z: 0 },
        dir: unit_z(),
    };
    assert!(s.intersects(&ray, 0).is_none());
}

#[test]
fn moving_sphere_follows_trajectory() {
    // At t = 0 the moon orbit sits at (0, radius, 0).
    assert_eq!(
        moon_path(0),
        Vec3 {
            x: 0,
            y: 60 * SCALE,
            z: 0
        }
    );
    let m = MovingSphere {
        pos: Trajectory::Orbit {
            radius: 60 * SCALE,
            rate: 2,
        },
        r: 10 * SCALE,
        color: brown(),
        reflectivity: 0,
    };
    // A ray along +y from the origin at t = 0 runs through its center.
    let ray = Ray {
        origin: Vec3 { x: 0, y: 0, z: 0 },
        dir: Vec3 {
            x: 0,
            y: SCALE,
            z: 0,
        },
    };
    let hit = m.intersects(&ray, 0).expect("expected a hit");
    assert_eq!(
        hit.reflection.origin,
        Vec3 {
            x: 0,
            y: 50 * SCALE,
            z: 0
        }
    );
    // The mirrored orbit is on the other side, so the same ray misses.
    let opposite = MovingSphere {
        pos: Trajectory::OrbitOpposite {
            radius: 60 * SCALE,
            rate: 2,
        },
        r: 10 * SCALE,
        color: brown(),
        reflectivity: 0,
    };
    assert!(opposite.intersects(&ray, 0).is_none());
}

#[test]
fn plane_checker_parity() {
    // A checkered floor: the cell parity of the hit point picks color
    // and reflectivity, deterministically.
    let floor = Plane {
        pos: Vec3 {
            x: 0,
            y: -100 * SCALE,
            z: 0,
        },
        n: Vec3 {
            x: 0,
            y: SCALE,
            z: 0,
        },
        color: Rgb {
            r: 0xFF,
            g: 0xFF,
            b: 0xFF,
        },
        reflectivity: SCALE / 2,
        checker: true,
    };
    let down = Vec3 {
        x: 0,
        y: -SCALE,
        z: 0,
    };
    // Cell (0, 0): even parity, the dark square and the plane's own
    // reflectivity.
    let ray = Ray {
        origin: Vec3 {
            x: 50 * SCALE,
            y: 0,
            z: 50 * SCALE,
        },
        dir: down,
    };
    let hit = floor.intersects(&ray, 0).expect("expected a hit");
    assert_eq!(hit.color, Rgb { r: 0, g: 0, b: 0 });
    assert_eq!(hit.reflectivity, SCALE / 2);
    // Cell (1, 0): odd parity, the light square and the fixed
    // alternate reflectivity.
    let ray = Ray {
        origin: Vec3 {
            x: 150 * SCALE,
            y: 0,
            z: 50 * SCALE,
        },
        dir: down,
    };
    let hit = floor.intersects(&ray, 0).expect("expected a hit");
    assert_eq!(
        hit.color,
        Rgb {
            r: 0xFF,
            g: 0xFF,
            b: 0xFF
        }
    );
    assert_eq!(hit.reflectivity, ALT_REFLECTIVITY);
    // The same cells again: the choice is a pure function of position.
    let ray = Ray {
        origin: Vec3 {
            x: 50 * SCALE,
            y: 0,
            z: 50 * SCALE,
        },
        dir: down,
    };
    let again = floor.intersects(&ray, 0).expect("expected a hit");
    assert_eq!(again.color, Rgb { r: 0, g: 0, b: 0 });
}

#[test]
fn plane_back_face_rejected() {
    // Approaching the floor from below (along its normal) is a miss.
    let floor = Plane {
        pos: Vec3 {
            x: 0,
            y: -100 * SCALE,
            z: 0,
        },
        n: Vec3 {
            x: 0,
            y: SCALE,
            z: 0,
        },
        color: Rgb {
            r: 0xFF,
            g: 0xFF,
            b: 0xFF,
        },
        reflectivity: 0,
        checker: false,
    };
    let ray = Ray {
        origin: Vec3 {
            x: 0,
            y: -200 * SCALE,
            z: 0,
        },
        dir: Vec3 {
            x: 0,
            y: SCALE,
            z: 0,
        },
    };
    assert!(floor.intersects(&ray, 0).is_none());
}

#[test]
fn plane_parallel_ray_rejected() {
    let wall = Plane {
        pos: Vec3 {
            x: 250 * SCALE,
            y: 0,
            z: 0,
        },
        n: Vec3 {
            x: -SCALE,
            y: 0,
            z: 0,
        },
        color: Rgb {
            r: 0xAA,
            g: 0xAA,
            b: 0xAA,
        },
        reflectivity: 0,
        checker: false,
    };
    let ray = Ray {
        origin: Vec3 { x: 0, y: 0, z: 0 },
        dir: unit_z(),
    };
    assert!(wall.intersects(&ray, 0).is_none());
}

#[test]
fn closest_hit_picks_nearest() {
    let near = sphere_at(50, 10, Rgb { r: 1, g: 0, b: 0 }, 0);
    let far = sphere_at(100, 10, Rgb { r: 2, g: 0, b: 0 }, 0);
    // Scene order far-then-near: distance, not order, decides.
    let scene = scene_of(vec![far, near]);
    let ray = Ray {
        origin: Vec3 { x: 0, y: 0, z: 0 },
        dir: unit_z(),
    };
    let hit = closest_hit(&ray, &scene, 0).expect("expected a hit");
    assert_eq!(hit.color, Rgb { r: 1, g: 0, b: 0 });
}

#[test]
fn closest_hit_tie_breaks_by_scene_order() {
    let first = sphere_at(50, 10, Rgb { r: 1, g: 0, b: 0 }, 0);
    let second = sphere_at(50, 10, Rgb { r: 2, g: 0, b: 0 }, 0);
    let scene = scene_of(vec![first, second]);
    let ray = Ray {
        origin: Vec3 { x: 0, y: 0, z: 0 },
        dir: unit_z(),
    };
    let hit = closest_hit(&ray, &scene, 0).expect("expected a hit");
    assert_eq!(hit.color, Rgb { r: 1, g: 0, b: 0 });
}

#[test]
fn trace_depth_zero_returns_base_color() {
    // A perfect mirror in front of a second sphere: with no remaining
    // depth the mirror's own color comes back untouched.
    let mirror = sphere_at(50, 10, Rgb { r: 9, g: 9, b: 9 }, SCALE);
    let behind = sphere_at(
        100,
        10,
        Rgb {
            r: 200,
            g: 0,
            b: 0,
        },
        0,
    );
    let scene = scene_of(vec![mirror, behind]);
    let ray = Ray {
        origin: Vec3 { x: 0, y: 0, z: 0 },
        dir: unit_z(),
    };
    assert_eq!(
        intersect(&ray, &scene, 0, 0),
        Some(Rgb { r: 9, g: 9, b: 9 })
    );
}

#[test]
fn trace_opaque_ignores_depth() {
    // Zero reflectivity: the base color, whatever depth remains.
    let dull = sphere_at(
        50,
        10,
        Rgb {
            r: 10,
            g: 20,
            b: 30,
        },
        0,
    );
    let scene = scene_of(vec![dull]);
    let ray = Ray {
        origin: Vec3 { x: 0, y: 0, z: 0 },
        dir: unit_z(),
    };
    for depth in [0u32, 1, 7, 64] {
        assert_eq!(
            intersect(&ray, &scene, depth, 0),
            Some(Rgb {
                r: 10,
                g: 20,
                b: 30
            })
        );
    }
}

#[test]
fn trace_mirror_sees_sky() {
    // A perfect mirror with nothing behind the bounce mixes the base
    // color fully toward the sky: exactly the sky color.
    let mirror = sphere_at(50, 10, Rgb { r: 9, g: 9, b: 9 }, SCALE);
    let scene = scene_of(vec![mirror]);
    let ray = Ray {
        origin: Vec3 { x: 0, y: 0, z: 0 },
        dir: unit_z(),
    };
    assert_eq!(intersect(&ray, &scene, 7, 0), Some(Rgb::sky()));
}

#[test]
fn mix_stays_in_byte_range() {
    // Every combination of extremes, at several reflectivities.
    for t in [0, 1, SCALE / 3, SCALE / 2, SCALE - 1, SCALE] {
        for (a, b) in [(0u8, 255u8), (255, 0), (0, 0), (255, 255), (7, 200)] {
            let v = mix_channel(a, b, t);
            // The result is a byte by construction; the ends must be
            // exact.
            if t == 0 {
                assert_eq!(v, a);
            }
            if t == SCALE {
                assert_eq!(v, b);
            }
        }
    }
    assert_eq!(
        mix_reflection(
            Rgb { r: 0, g: 255, b: 7 },
            Rgb {
                r: 255,
                g: 0,
                b: 200
            },
            SCALE / 2
        ),
        Some(Rgb {
            r: 128,
            g: 128,
            b: 104
        })
    );
}

#[test]
fn empty_scene_is_sky_everywhere() {
    let scene = scene_of(vec![]);
    for (dx, dy) in [(0, 0), (3, -2), (-7, 5)] {
        let ray = Ray {
            origin: Vec3 {
                x: dx * SCALE,
                y: dy * SCALE,
                z: 0,
            },
            dir: Vec3 {
                x: dx * 1000,
                y: dy * 1000,
                z: SCALE,
            },
        };
        for depth in [0u32, 3, 7] {
            for t in [0i128, SCALE, 17 * SCALE] {
                assert_eq!(intersect(&ray, &scene, depth, t), None);
            }
        }
    }
}

fn single_pixel_camera(objects: Vec<Renderable>) -> Raytracer {
    Raytracer {
        scene: scene_of(objects),
        pos: Vec3 { x: 0, y: 0, z: 0 },
        dir: unit_z(),
        near_plane: SCALE,
        tan_fov: SCALE,
        width: 2,
        height: 2,
        depth: 7,
    }
}

#[test]
fn pixel_aimed_at_sphere_center_sees_its_color() {
    // A camera at the origin looking along +z; pixel (1, 1) of a 2x2
    // frame aims exactly at the center of a dull sphere at (0, 0, 100).
    let color = Rgb {
        r: 123,
        g: 45,
        b: 67,
    };
    let rt = single_pixel_camera(vec![sphere_at(100, 30, color, 0)]);
    let f = rt.frustum();
    let c = rt.pixel_color(&f, 1, 1, 0);
    assert_eq!(c, color);
    let rgba = Rgba::from(c);
    assert_eq!((rgba.r, rgba.g, rgba.b, rgba.a), (123, 45, 67, 255));
}

#[test]
fn pixel_with_empty_scene_sees_sky() {
    let rt = single_pixel_camera(vec![]);
    let f = rt.frustum();
    assert_eq!(rt.pixel_color(&f, 1, 1, 0), Rgb::sky());
}

#[test]
fn render_frame_packs_opaque_pixels() {
    let mut rt = single_pixel_camera(vec![sphere_at(100, 30, brown(), 0)]);
    rt.width = 4;
    rt.height = 3;
    let (pixels, w, h) = rt.render_frame(0);
    assert_eq!((w, h), (4, 3));
    assert_eq!(pixels.len(), 4 * 4 * 3);
    for p in 0..(4 * 3) {
        assert_eq!(pixels[4 * p + 3], 255);
    }
    // The pose is recomputed from the orbit, so the camera moved.
    assert_eq!(
        rt.pos,
        path(0)
    );
}

#[test]
fn initial_scene_shape() {
    let rt = Raytracer::new();
    assert_eq!(rt.scene.objects.len(), 6);
    assert_eq!((rt.width, rt.height, rt.depth), (400, 300, 7));
    assert_eq!(rt.near_plane, SCALE);
    assert_eq!(
        rt.pos,
        Vec3 {
            x: 0,
            y: 70 * SCALE,
            z: 0
        }
    );
    assert_eq!(
        rt.dir,
        Vec3 {
            x: 0,
            y: -SCALE,
            z: 0
        }
    );
}

#[test]
fn camera_path_at_time_zero() {
    assert_eq!(
        path(0),
        Vec3 {
            x: 200 * SCALE,
            y: 40 * SCALE,
            z: 0
        }
    );
}

#[test]
fn hit_values_round_trip() {
    let h = Hit {
        reflection: Ray {
            origin: Vec3 { x: 1, y: 2, z: 3 },
            dir: unit_z(),
        },
        color: brown(),
        reflectivity: 7,
    };
    assert_eq!(h, h);
}

#[test]
fn cosine_between_vectors_is_clamped() {
    let ex = Vec3 {
        x: SCALE,
        y: 0,
        z: 0,
    };
    let ey = Vec3 {
        x: 0,
        y: SCALE,
        z: 0,
    };
    // Aligned, orthogonal and opposite pairs; always within [-1, 1].
    assert_eq!(ex.cos_between(ex), SCALE);
    assert_eq!(ex.cos_between(ey), 0);
    assert_eq!(ex.cos_between(ex.neg()), -SCALE);
    let skew = Vec3 {
        x: 3 * SCALE,
        y: 4 * SCALE,
        z: 0,
    };
    let c = ex.cos_between(skew);
    assert!(-SCALE <= c && c <= SCALE);
    // cos = 3/5 of one, up to rounding.
    assert!((c - 3 * SCALE / 5).abs() <= 4);
}

#[test]
fn render_frame_empty_scene_is_all_sky() {
    // Whatever the time and wherever the orbit puts the camera, an
    // empty scene renders the sky color at every pixel.
    let mut rt = single_pixel_camera(vec![]);
    rt.width = 3;
    rt.height = 2;
    let (pixels, w, h) = rt.render_frame(123456789);
    assert_eq!((w, h), (3, 2));
    assert_eq!(pixels.len(), 4 * 3 * 2);
    for p in 0..6 {
        assert_eq!(&pixels[4 * p..4 * p + 4], &[0x42, 0x42, 0x43, 0xFF]);
    }
}
