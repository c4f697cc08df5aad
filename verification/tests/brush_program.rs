//! What the plain and the highlighter program do to a pixel.

use art_junk::brush::LinearRgba;
use art_junk::brush_program::{apply_highlighter as tint, apply_plain as lay_over};
use art_junk::float32::Float32;

type Pixel = (f32, f32, f32, f32);

fn f(x: f32) -> Float32 {
    Float32::from_bits(x.to_bits())
}

fn v(x: Float32) -> f32 {
    f32::from_bits(x.to_bits())
}

fn pixel(c: LinearRgba) -> Pixel {
    (v(c.r), v(c.g), v(c.b), v(c.a))
}

fn color(p: Pixel) -> LinearRgba {
    LinearRgba::new(f(p.0), f(p.1), f(p.2), f(p.3))
}

fn apply_plain(canvas: Pixel, rgb: (f32, f32, f32), alpha: f32, coverage: f32) -> Pixel {
    pixel(lay_over(color(canvas), color((rgb.0, rgb.1, rgb.2, alpha)), f(coverage)))
}

fn apply_highlighter(canvas: Pixel, rgb: (f32, f32, f32), alpha: f32, coverage: f32) -> Pixel {
    pixel(tint(color(canvas), color((rgb.0, rgb.1, rgb.2, alpha)), f(coverage)))
}

#[test]
fn plain_full_coverage_full_alpha_replaces_canvas() {
    let canvas = (0.7, 0.2, 0.4, 0.5);
    let out = apply_plain(canvas, (0.0, 1.0, 0.0), 1.0, 1.0);
    assert!((out.0 - 0.0).abs() < f32::EPSILON);
    assert!((out.1 - 1.0).abs() < f32::EPSILON);
    assert!((out.2 - 0.0).abs() < f32::EPSILON);
    assert!((out.3 - 1.0).abs() < f32::EPSILON);
}

#[test]
fn plain_zero_coverage_is_noop() {
    let canvas = (0.7, 0.2, 0.4, 0.5);
    let out = apply_plain(canvas, (0.0, 1.0, 0.0), 1.0, 0.0);
    assert!((out.0 - canvas.0).abs() < f32::EPSILON);
    assert!((out.1 - canvas.1).abs() < f32::EPSILON);
    assert!((out.2 - canvas.2).abs() < f32::EPSILON);
    assert!((out.3 - canvas.3).abs() < f32::EPSILON);
}

#[test]
fn alpha_accumulation_matches_porter_duff_over() {
    let blank = (0.0, 0.0, 0.0, 0.0);
    let after_one = apply_plain(blank, (1.0, 1.0, 1.0), 1.0, 0.5);
    let after_two = apply_plain(after_one, (1.0, 1.0, 1.0), 1.0, 0.5);
    assert!((after_two.3 - 0.75).abs() < 1e-6);
    let one_shot = apply_plain(blank, (1.0, 1.0, 1.0), 1.0, 0.75);
    assert!((after_two.3 - one_shot.3).abs() < 1e-6);
}

#[test]
fn highlighter_over_black_stays_black() {
    let black = (0.0, 0.0, 0.0, 1.0);
    let yellow = (1.0, 1.0, 0.0);
    let out = apply_highlighter(black, yellow, 1.0, 1.0);
    assert!(out.0.abs() < f32::EPSILON);
    assert!(out.1.abs() < f32::EPSILON);
    assert!(out.2.abs() < f32::EPSILON);
}

#[test]
fn highlighter_over_white_tints_to_brush_color() {
    let white = (1.0, 1.0, 1.0, 0.0);
    let yellow = (1.0, 1.0, 0.0);
    let out = apply_highlighter(white, yellow, 1.0, 1.0);
    assert!((out.0 - 1.0).abs() < f32::EPSILON);
    assert!((out.1 - 1.0).abs() < f32::EPSILON);
    assert!(out.2.abs() < f32::EPSILON);
}

#[test]
fn highlighter_overlap_saturates_further() {
    let white = (1.0, 1.0, 1.0, 0.0);
    let half_yellow = (1.0, 1.0, 0.5);
    let after_one = apply_highlighter(white, half_yellow, 1.0, 1.0);
    let after_two = apply_highlighter(after_one, half_yellow, 1.0, 1.0);
    assert!(after_two.2 < after_one.2, "second pass should darken further");
    assert!((after_two.2 - 0.25).abs() < 1e-6);
}

#[test]
fn pixels_agree_with_hardware_arithmetic() {
    for i in 0..50_u16 {
        let x = f32::from(i) / 49.0;
        let canvas = (x, 1.0 - x, 0.3 * x, 0.8 * x);
        let rgb = (0.2, x * x, 0.9);
        let (alpha, coverage) = (0.6, x);
        let t = (coverage * alpha).clamp(0.0, 1.0);
        let over = |c: f32, b: f32| c * (1.0 - t) + b * t;
        let tinted = |c: f32, b: f32| c * (1.0 - t * (1.0 - b));
        let a = canvas.3 + (1.0 - canvas.3) * t;
        assert_eq!(
            apply_plain(canvas, rgb, alpha, coverage),
            (over(canvas.0, rgb.0), over(canvas.1, rgb.1), over(canvas.2, rgb.2), a)
        );
        assert_eq!(
            apply_highlighter(canvas, rgb, alpha, coverage),
            (tinted(canvas.0, rgb.0), tinted(canvas.1, rgb.1), tinted(canvas.2, rgb.2), a)
        );
    }
}
