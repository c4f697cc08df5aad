//! The brush, its colors, and new layers.

use art_junk::brush::{BrushParams, BrushType, LinearRgba, PressureCurve};
use art_junk::float32::Float32;
use art_junk::ids::IdCounter;
use art_junk::layer::{BlendMode, Layer};
use art_junk::srgb::{decode_bases, Channels, DECODE_EXPONENT, ENCODE_EXPONENT};

fn f(x: f32) -> Float32 {
    Float32::from_bits(x.to_bits())
}

fn v(x: Float32) -> f32 {
    f32::from_bits(x.to_bits())
}

fn raised(c: Channels, exponent: f32) -> Channels {
    let channel = |x: Float32| f(v(x).powf(exponent));
    Channels { r: channel(c.r), g: channel(c.g), b: channel(c.b) }
}

fn from_srgb8(c: [u8; 4]) -> LinearRgba {
    LinearRgba::from_srgb8(c, raised(decode_bases(c), 2.4))
}

fn to_srgb8(c: LinearRgba) -> [u8; 4] {
    c.to_srgb8(raised(Channels { r: c.r, g: c.g, b: c.b }, 1.0 / 2.4))
}

#[test]
fn brush_params_default_is_sensible() {
    let b = BrushParams::default();
    assert!(v(b.min_width) < v(b.max_width));
    assert_eq!(b.curve, PressureCurve::Linear);
    assert_eq!(to_srgb8(b.color), [0, 200, 220, 255]);
}

#[test]
fn default_color_is_the_linear_form_of_its_srgb_bytes() {
    let c = BrushParams::default().color;
    let expected = from_srgb8([0, 200, 220, 255]);
    assert_eq!(c.r, expected.r);
    assert!((v(c.g) - v(expected.g)).abs() < 1e-6);
    assert!((v(c.b) - v(expected.b)).abs() < 1e-6);
    assert_eq!(c.a, expected.a);
}

#[test]
fn srgb_roundtrip_is_byte_exact_at_corners() {
    for c in [
        [0, 0, 0, 255],
        [255, 255, 255, 255],
        [128, 64, 32, 200],
        [255, 0, 0, 255],
        [0, 255, 0, 255],
        [0, 0, 255, 255],
    ] {
        let linear = from_srgb8(c);
        let back = to_srgb8(linear);
        assert_eq!(c, back, "round-trip mismatch for {c:?} (linear: {linear:?})");
    }
}

#[test]
fn every_byte_survives_the_way_into_a_color_and_back() {
    for b in 0..=255_u8 {
        let c = [b, 255 - b, b, b];
        assert_eq!(to_srgb8(from_srgb8(c)), c);
    }
}

#[test]
fn transfer_curve_is_exact_on_its_straight_part() {
    let nothing = Channels { r: f(0.0), g: f(0.0), b: f(0.0) };
    let c = LinearRgba::from_srgb8([5, 10, 0, 51], nothing);
    assert_eq!(v(c.r), (5.0_f32 / 255.0) / 12.92);
    assert_eq!(v(c.g), (10.0_f32 / 255.0) / 12.92);
    assert_eq!(v(c.b), 0.0);
    assert_eq!(v(c.a), 51.0_f32 / 255.0);
    let powers = Channels { r: f(0.125), g: f(0.25), b: f(0.5) };
    let c = LinearRgba::from_srgb8([11, 200, 255, 0], powers);
    assert_eq!((v(c.r), v(c.g), v(c.b)), (0.125, 0.25, 0.5));
    let bases = decode_bases([11, 200, 255, 0]);
    assert_eq!(v(bases.g), (200.0_f32 / 255.0 + 0.055) / 1.055);
    assert_eq!(f32::from_bits(DECODE_EXPONENT), 2.4);
    assert_eq!(f32::from_bits(ENCODE_EXPONENT), 1.0 / 2.4);
}

#[test]
fn bytes_are_limited_and_rounded() {
    let powers = Channels { r: f(2.0), g: f(0.5), b: f(0.5) };
    let c = LinearRgba::new(f(4.0), f(-1.0), f(f32::NAN), f(0.5));
    // A channel that is no number is not on the straight part, so its power counts.
    let b = (1.055_f32 * 0.5 - 0.055) * 255.0 + 0.5;
    assert_eq!(c.to_srgb8(powers), [255, 0, b as u8, 128]);
}

#[test]
fn default_widths_and_type_are_exact() {
    let b = BrushParams::default();
    assert_eq!(v(b.min_width), 0.5);
    assert_eq!(v(b.max_width), 4.0);
    assert_eq!(b.brush_type, BrushType::Normal);
}

#[test]
fn linear_rgba_constants() {
    assert_eq!(to_srgb8(LinearRgba::black()), [0, 0, 0, 255]);
    assert_eq!(to_srgb8(LinearRgba::white()), [255, 255, 255, 255]);
    assert_eq!(to_srgb8(LinearRgba::transparent()), [0, 0, 0, 0]);
    assert_eq!(LinearRgba::default(), LinearRgba::black());
}

#[test]
fn pressure_curve_linear_is_identity() {
    for p in [0.0_f32, 0.25, 0.5, 0.75, 1.0] {
        assert!((v(PressureCurve::Linear.apply(f(p))) - p).abs() < f32::EPSILON);
    }
}

#[test]
fn layer_new_has_sensible_defaults() {
    let mut ids = IdCounter::new();
    let l = Layer::new(&mut ids, "Test".to_string());
    assert_eq!(l.name, "Test");
    assert!(l.strokes.is_empty());
    assert_eq!(l.blend_mode, BlendMode::Normal);
    assert!((v(l.opacity) - 1.0).abs() < f32::EPSILON);
    assert!(l.visible);
}

#[test]
fn widths_stay_in_order() {
    let mut b = BrushParams::default();
    for width in [0.0_f32, 0.001, 3.7, 64.0, 1e30, -4.0, f32::INFINITY] {
        b.set_max_width(f(width));
        assert!(v(b.min_width) <= v(b.max_width));
        assert!(v(b.max_width) >= 0.01 && v(b.max_width) <= 64.0);
        b.set_min_ratio(f(0.3));
        assert_eq!(v(b.min_width), 0.3 * v(b.max_width));
        b.set_min_width(f(width));
        assert!(v(b.min_width) >= 0.0 && v(b.min_width) <= v(b.max_width));
    }
}
