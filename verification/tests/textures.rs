use raytracer::fixed::SCALE;
use raytracer::renderer::{
    LightUpRenderer, Renderer, SineRenderer, TEXTURE_HEIGHT, TEXTURE_WIDTH,
};
use raytracer::trig::{cos_turns, sin_turns, QUARTER};
use raytracer::util::normalize;

#[test]
fn cosine_landmarks() {
    // Exact at zero, and within the polynomial's tolerance elsewhere.
    assert_eq!(cos_turns(0), SCALE);
    let tolerance = 150_000; // about 3.5e-5 of one
    assert!(cos_turns(QUARTER).abs() <= tolerance);
    assert!((cos_turns(2 * QUARTER) + SCALE).abs() <= tolerance);
    assert!(cos_turns(3 * QUARTER).abs() <= tolerance);
    assert_eq!(cos_turns(SCALE), SCALE); // a full turn reduces exactly
    assert_eq!(cos_turns(-SCALE), SCALE);
    assert!((sin_turns(QUARTER) - SCALE).abs() <= tolerance);
    assert!((sin_turns(-QUARTER) + SCALE).abs() <= tolerance);
    for x in [-3 * SCALE / 7, 0, 12345, SCALE / 3, 5 * SCALE + 99] {
        let c = cos_turns(x);
        assert!(-SCALE <= c && c <= SCALE);
    }
}

#[test]
fn normalize_is_a_cycle_fraction() {
    assert_eq!(normalize(0, 5 * SCALE), 0);
    assert_eq!(normalize(5 * SCALE, 5 * SCALE), 0);
    // Half way through a five-second cycle.
    assert_eq!(normalize(5 * SCALE / 2, 5 * SCALE), SCALE / 2);
    // The remainder keeps the dividend's sign, so a negative time gives
    // a negative fraction.
    assert_eq!(normalize(-SCALE, 4 * SCALE), -SCALE / 4);
    // A negative cycle length flips the fraction's sign instead.
    assert_eq!(normalize(SCALE, -4 * SCALE), -SCALE / 4);
    assert_eq!(normalize(-SCALE, -4 * SCALE), SCALE / 4);
    assert_eq!(normalize(17, 97), 17 * SCALE / 97);
}

#[test]
fn sine_renderer_fills_texture() {
    let mut r = SineRenderer {};
    let (pixels, w, h) = r.render(0);
    assert_eq!((w, h), (TEXTURE_WIDTH, TEXTURE_HEIGHT));
    assert_eq!(pixels.len(), 4 * 800 * 600);
    for p in [0usize, 1, 799, 800, 479999] {
        assert_eq!(pixels[4 * p], SineRenderer::r(0, p));
        assert_eq!(pixels[4 * p + 1], 0);
        assert_eq!(pixels[4 * p + 2], SineRenderer::b(0, p));
        assert_eq!(pixels[4 * p + 3], 0xFF);
    }
    // At t = 0 and index 0 both waves sit at their crest.
    assert_eq!(pixels[0], 255);
    assert_eq!(pixels[2], 255);
}

#[test]
fn light_up_renderer_gradient() {
    let mut r = LightUpRenderer {};
    let (pixels, w, h) = r.render(0);
    assert_eq!((w, h), (TEXTURE_WIDTH, TEXTURE_HEIGHT));
    assert_eq!(pixels.len(), 4 * 800 * 600);
    let at = |x: usize, y: usize| 4 * (y * 800 + x);
    // Top row is black; half way down is mid-gray; all rows opaque.
    assert_eq!(pixels[at(0, 0)], 0);
    assert_eq!(pixels[at(799, 0)], 0);
    assert_eq!(pixels[at(3, 300)], 128);
    for y in [0usize, 1, 299, 599] {
        let v = pixels[at(0, y)];
        assert_eq!(pixels[at(0, y) + 1], v);
        assert_eq!(pixels[at(0, y) + 2], v);
        assert_eq!(pixels[at(0, y) + 3], 0xFF);
        // Within one row every column agrees.
        assert_eq!(pixels[at(423, y)], v);
    }
    // The gradient is monotone down the rows.
    assert!(pixels[at(0, 599)] > pixels[at(0, 300)]);
    assert!(pixels[at(0, 300)] > pixels[at(0, 0)]);
}
