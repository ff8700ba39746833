//! The renderer capability, and two simple procedural texture
//! renderers.

use vstd::prelude::*;

verus! {

use crate::fixed::{SCALE, div_floor, lemma_div_bound};
use crate::raytracer::time_wf;
use crate::trig::{cos_turns, cos_turns_s};
use crate::util::{normalize, normalize_s};

/// A source of frames: given a time in fixed-point seconds, it
/// produces an RGBA pixel buffer — four bytes per pixel, row-major,
/// top row first — together with its width and height, which never
/// change across calls.
pub trait Renderer {
    /// The state the renderer keeps between frames, well-formed.
    spec fn inv(&self) -> bool;

    /// Returns a texture as an RGBA pixel array with width and height.
    fn render(&mut self, t: i128) -> (out: (Vec<u8>, u16, u16))
        requires
            old(self).inv(),
            time_wf(t as int),
        ensures
            final (self).inv(),
            out.0@.len() == 4 * (out.1 as int) * (out.2 as int),
    ;
}

/// The texture size the procedural renderers fill.
pub const TEXTURE_WIDTH: u16 = 800;

pub const TEXTURE_HEIGHT: u16 = 600;

/// The length of the procedural renderers' cycle: five seconds,
/// fixed-point.
pub const SECONDS: i128 = 21474836480;

/// One sine channel: the cosine (fixed-point, in `[-SCALE, SCALE]`)
/// raised into `[0, 2]`, scaled to a byte, and rounded to nearest —
/// always in `[0, 255]`.
pub open spec fn sine_channel_s(c: int) -> int {
    ((c + SCALE) * 255 + SCALE) / (2 * SCALE)
}

/// The red channel of the sine texture: a cosine wave running forward
/// across a 799-pixel cycle.
pub open spec fn sine_r_s(t: int, i: int) -> int {
    sine_channel_s(cos_turns_s(normalize_s(t, SECONDS as int) + normalize_s(i, 799)))
}

/// The blue channel of the sine texture: a cosine wave running
/// backward across an 801-pixel cycle.
pub open spec fn sine_b_s(t: int, i: int) -> int {
    sine_channel_s(cos_turns_s(normalize_s(t, SECONDS as int) - normalize_s(i, 801)))
}

/// Pixel `p` of the sine texture holds its two waves, opaque.
pub open spec fn sine_pixel_ok(buf: Seq<u8>, t: int, p: int) -> bool {
    &&& buf[4 * p] == sine_r_s(t, p)
    &&& buf[4 * p + 1] == 0
    &&& buf[4 * p + 2] == sine_b_s(t, p)
    &&& buf[4 * p + 3] == 0xFF
}

/// The gray value of one row of the light-up gradient: the row's
/// fraction of the texture height, scaled to a byte and rounded to
/// nearest.
pub open spec fn light_v_s(y: int) -> int {
    (normalize_s(y, TEXTURE_HEIGHT as int) * 255 + SCALE / 2) / (SCALE as int)
}

/// Map a fixed-point cosine to a byte.
fn sine_channel(c: i128) -> (v: u8)
    requires
        -SCALE <= c <= SCALE,
    ensures
        v == sine_channel_s(c as int),
{
    let num = (c + SCALE) * 255 + SCALE;
    proof {
        lemma_div_bound(num as int, 2 * SCALE, 256);
    }
    let q = div_floor(num, 2 * SCALE);
    q as u8
}

/// Scrolling sine waves: red runs one way, blue the other, and the
/// phase loops every five seconds.
pub struct SineRenderer {}

impl SineRenderer {
    /// The blue channel at pixel index `i`.
    pub fn b(t: i128, i: usize) -> (v: u8)
        requires
            time_wf(t as int),
            i < 1000000000,
        ensures
            v == sine_b_s(t as int, i as int),
    {
        let progress = normalize(i as i128, 801);
        let tm = normalize(t, SECONDS);
        let c = cos_turns(tm - progress);
        sine_channel(c)
    }

    /// The red channel at pixel index `i`.
    pub fn r(t: i128, i: usize) -> (v: u8)
        requires
            time_wf(t as int),
            i < 1000000000,
        ensures
            v == sine_r_s(t as int, i as int),
    {
        let progress = normalize(i as i128, 799);
        let tm = normalize(t, SECONDS);
        let c = cos_turns(tm + progress);
        sine_channel(c)
    }
}

impl Renderer for SineRenderer {
    open spec fn inv(&self) -> bool {
        true
    }

    fn render(&mut self, t: i128) -> (out: (Vec<u8>, u16, u16))
        ensures
            out.1 == TEXTURE_WIDTH,
            out.2 == TEXTURE_HEIGHT,
            out.0@.len() == 4 * (TEXTURE_WIDTH as int) * (TEXTURE_HEIGHT as int),
            forall|p: int|
                0 <= p < (TEXTURE_WIDTH as int) * (TEXTURE_HEIGHT as int)
                    ==> #[trigger] sine_pixel_ok(out.0@, t as int, p),
    {
        let total: usize = TEXTURE_WIDTH as usize * TEXTURE_HEIGHT as usize;
        let mut pixels: Vec<u8> = Vec::new();
        let mut p: usize = 0;
        while p < total
            invariant
                time_wf(t as int),
                total == 480000,
                p <= total,
                pixels@.len() == 4 * p,
                forall|q: int| 0 <= q < p ==> #[trigger] sine_pixel_ok(pixels@, t as int, q),
            decreases total - p,
        {
            let red = SineRenderer::r(t, p);
            let blue = SineRenderer::b(t, p);
            let ghost buf0 = pixels@;
            pixels.push(red);
            pixels.push(0x00);
            pixels.push(blue);
            pixels.push(0xFF);
            proof {
                assert(pixels@ =~= buf0 + seq![red, 0x00u8, blue, 0xFFu8]);
                assert forall|q: int| 0 <= q < p + 1 implies #[trigger] sine_pixel_ok(
                    pixels@,
                    t as int,
                    q,
                ) by {
                    if q < p {
                        assert(sine_pixel_ok(buf0, t as int, q));
                        assert(4 * q + 3 < buf0.len());
                    } else {
                        assert(buf0.len() == 4 * q);
                    }
                }
            }
            p = p + 1;
        }
        let out = (pixels, TEXTURE_WIDTH, TEXTURE_HEIGHT);
        proof {
            assert(out.1 == 800 && out.2 == 600);
            assert(out.0@.len() == 4 * (out.1 as int) * (out.2 as int)) by (nonlinear_arith)
                requires
                    out.0@.len() == 1920000,
                    out.1 == 800,
                    out.2 == 600,
            ;
            assert forall|q: int|
                0 <= q < (TEXTURE_WIDTH as int) * (TEXTURE_HEIGHT as int) implies #[trigger] sine_pixel_ok(
                out.0@,
                t as int,
                q,
            ) by {
                assert(sine_pixel_ok(pixels@, t as int, q));
            }
        }
        out
    }
}

/// A vertical gray gradient, dark at the top row.
pub struct LightUpRenderer {}

impl Renderer for LightUpRenderer {
    open spec fn inv(&self) -> bool {
        true
    }

    fn render(&mut self, t: i128) -> (out: (Vec<u8>, u16, u16))
        ensures
            out.1 == TEXTURE_WIDTH,
            out.2 == TEXTURE_HEIGHT,
            out.0@.len() == 4 * (TEXTURE_WIDTH as int) * (TEXTURE_HEIGHT as int),
            forall|px: int, py: int|
                0 <= px < TEXTURE_WIDTH && 0 <= py < TEXTURE_HEIGHT ==> {
                    &&& #[trigger] out.0@[4 * (py * (TEXTURE_WIDTH as int) + px)] == light_v_s(py)
                    &&& out.0@[4 * (py * (TEXTURE_WIDTH as int) + px) + 1] == light_v_s(py)
                    &&& out.0@[4 * (py * (TEXTURE_WIDTH as int) + px) + 2] == light_v_s(py)
                    &&& out.0@[4 * (py * (TEXTURE_WIDTH as int) + px) + 3] == 0xFF
                },
    {
        let mut pixels: Vec<u8> = Vec::new();
        let mut y: u16 = 0;
        while y < TEXTURE_HEIGHT
            invariant
                y <= TEXTURE_HEIGHT,
                pixels@.len() == 4 * (y as int) * (TEXTURE_WIDTH as int),
                forall|px: int, py: int|
                    0 <= px < TEXTURE_WIDTH && 0 <= py < y ==> {
                        &&& #[trigger] pixels@[4 * (py * (TEXTURE_WIDTH as int) + px)]
                            == light_v_s(py)
                        &&& pixels@[4 * (py * (TEXTURE_WIDTH as int) + px) + 1] == light_v_s(py)
                        &&& pixels@[4 * (py * (TEXTURE_WIDTH as int) + px) + 2] == light_v_s(py)
                        &&& pixels@[4 * (py * (TEXTURE_WIDTH as int) + px) + 3] == 0xFF
                    },
            decreases TEXTURE_HEIGHT - y,
        {
            let nv = normalize(y as i128, TEXTURE_HEIGHT as i128);
            proof {
                lemma_div_bound(nv as int * 255 + SCALE / 2, SCALE as int, 256);
            }
            let v = div_floor(nv * 255 + SCALE / 2, SCALE) as u8;
            let mut x: u16 = 0;
            while x < TEXTURE_WIDTH
                invariant
                    y < TEXTURE_HEIGHT,
                    x <= TEXTURE_WIDTH,
                    v == light_v_s(y as int),
                    pixels@.len() == 4 * (y as int) * (TEXTURE_WIDTH as int) + 4 * (x as int),
                    forall|px: int, py: int|
                        0 <= px < TEXTURE_WIDTH && 0 <= py < y ==> {
                            &&& #[trigger] pixels@[4 * (py * (TEXTURE_WIDTH as int) + px)]
                                == light_v_s(py)
                            &&& pixels@[4 * (py * (TEXTURE_WIDTH as int) + px) + 1]
                                == light_v_s(py)
                            &&& pixels@[4 * (py * (TEXTURE_WIDTH as int) + px) + 2]
                                == light_v_s(py)
                            &&& pixels@[4 * (py * (TEXTURE_WIDTH as int) + px) + 3] == 0xFF
                        },
                    forall|px: int|
                        0 <= px < x ==> {
                            &&& #[trigger] pixels@[4 * ((y as int) * (TEXTURE_WIDTH as int) + px)]
                                == light_v_s(y as int)
                            &&& pixels@[4 * ((y as int) * (TEXTURE_WIDTH as int) + px) + 1]
                                == light_v_s(y as int)
                            &&& pixels@[4 * ((y as int) * (TEXTURE_WIDTH as int) + px) + 2]
                                == light_v_s(y as int)
                            &&& pixels@[4 * ((y as int) * (TEXTURE_WIDTH as int) + px) + 3]
                                == 0xFF
                        },
                decreases TEXTURE_WIDTH - x,
            {
                let ghost buf0 = pixels@;
                pixels.push(v);
                pixels.push(v);
                pixels.push(v);
                pixels.push(0xFF);
                proof {
                    assert(pixels@ =~= buf0 + seq![v, v, v, 0xFF]);
                    assert(4 * (y as int) * 800 + 4 * (x as int) == 4 * ((y as int) * 800 + (
                    x as int))) by (nonlinear_arith);
                    assert forall|px: int, py: int| 0 <= px < TEXTURE_WIDTH && 0 <= py < y implies {
                        &&& #[trigger] pixels@[4 * (py * (TEXTURE_WIDTH as int) + px)]
                            == light_v_s(py)
                        &&& pixels@[4 * (py * (TEXTURE_WIDTH as int) + px) + 1] == light_v_s(py)
                        &&& pixels@[4 * (py * (TEXTURE_WIDTH as int) + px) + 2] == light_v_s(py)
                        &&& pixels@[4 * (py * (TEXTURE_WIDTH as int) + px) + 3] == 0xFF
                    } by {
                        assert(buf0[4 * (py * (TEXTURE_WIDTH as int) + px)] == light_v_s(py));
                        assert(buf0[4 * (py * (TEXTURE_WIDTH as int) + px) + 1] == light_v_s(py));
                        assert(buf0[4 * (py * (TEXTURE_WIDTH as int) + px) + 2] == light_v_s(py));
                        assert(buf0[4 * (py * (TEXTURE_WIDTH as int) + px) + 3] == 0xFF);
                        assert(4 * (py * 800 + px) + 3 < buf0.len()) by (nonlinear_arith)
                            requires
                                0 <= px < 800,
                                0 <= py < y as int,
                                buf0.len() == 4 * (y as int) * 800 + 4 * (x as int),
                                0 <= x,
                        ;
                    }
                    assert forall|px: int| 0 <= px < x + 1 implies {
                        &&& #[trigger] pixels@[4 * ((y as int) * (TEXTURE_WIDTH as int) + px)]
                            == light_v_s(y as int)
                        &&& pixels@[4 * ((y as int) * (TEXTURE_WIDTH as int) + px) + 1]
                            == light_v_s(y as int)
                        &&& pixels@[4 * ((y as int) * (TEXTURE_WIDTH as int) + px) + 2]
                            == light_v_s(y as int)
                        &&& pixels@[4 * ((y as int) * (TEXTURE_WIDTH as int) + px) + 3] == 0xFF
                    } by {
                        if px < x {
                            assert(buf0[4 * ((y as int) * (TEXTURE_WIDTH as int) + px)]
                                == light_v_s(y as int));
                            assert(buf0[4 * ((y as int) * (TEXTURE_WIDTH as int) + px) + 1]
                                == light_v_s(y as int));
                            assert(buf0[4 * ((y as int) * (TEXTURE_WIDTH as int) + px) + 2]
                                == light_v_s(y as int));
                            assert(buf0[4 * ((y as int) * (TEXTURE_WIDTH as int) + px) + 3]
                                == 0xFF);
                            assert(4 * ((y as int) * 800 + px) + 3 < buf0.len())
                                by (nonlinear_arith)
                                requires
                                    0 <= px < x as int,
                                    buf0.len() == 4 * (y as int) * 800 + 4 * (x as int),
                                    0 <= y,
                            ;
                        } else {
                            assert(buf0.len() == 4 * ((y as int) * 800 + px));
                        }
                    }
                }
                x = x + 1;
            }
            proof {
                assert(4 * ((y as int) + 1) * 800 == 4 * (y as int) * 800 + 4 * 800)
                    by (nonlinear_arith);
            }
            y = y + 1;
        }
        proof {
            assert(4 * (y as int) * 800 == 4 * 800 * 600) by (nonlinear_arith)
                requires
                    y == 600,
            ;
        }
        (pixels, TEXTURE_WIDTH, TEXTURE_HEIGHT)
    }
}

} // verus!
