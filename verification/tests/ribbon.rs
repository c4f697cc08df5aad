//! The shape of a stroke.

use art_junk::brush::BrushParams;
use art_junk::float32::Float32;
use art_junk::geometry::{Float64, Point};
use art_junk::curve::{centripetal_catmull_rom, Cubic};
use art_junk::ribbon::cap::{cap_vertex_count, disc, disc_angles, round_cap, UnitDirection};
use art_junk::ribbon::layout::{caps, lay_out};
use art_junk::ribbon::walk::{
    accuracy, arcs_of_segments, screen_scale, segment_curve, step_arcs, step_count, world_step,
    Rails,
};
use art_junk::ribbon::{half_width_at_sample, outline, plan, width_along, Segment, Shape};
use art_junk::sample::{PointerId, Sample};
use art_junk::vector::Vector;
use kurbo::{Affine, CubicBez, ParamCurve, ParamCurveArclen, ParamCurveDeriv};

fn f(x: f32) -> Float32 {
    Float32::from_bits(x.to_bits())
}

fn v(x: Float32) -> f32 {
    f32::from_bits(x.to_bits())
}

fn d(x: f64) -> Float64 {
    Float64::from_bits(x.to_bits())
}

fn w(x: Float64) -> f64 {
    f64::from_bits(x.to_bits())
}

fn bezier(c: &Cubic) -> CubicBez {
    let p = |p: Point| (w(p.x), w(p.y));
    CubicBez::new(p(c.start), p(c.lead), p(c.trail), p(c.end))
}

fn directions(angles: Vec<Float64>) -> Vec<UnitDirection> {
    angles
        .into_iter()
        .map(|a| UnitDirection { cos: d(w(a).cos()), sin: d(w(a).sin()) })
        .collect()
}

/// The polygons of a stroke, with lengths and angles measured by the machine.
fn tessellate_stroke(
    samples: &Vec<Sample>,
    brush: BrushParams,
    world_to_screen: Affine,
) -> Vec<Vec<Point>> {
    let scale = screen_scale(d(world_to_screen.determinant()));
    let step = world_step(scale);
    let exact = w(accuracy(step));
    let segments = match plan(samples) {
        Shape::Empty => return Vec::new(),
        Shape::Disc => {
            let radius = Float64::from_f32(half_width_at_sample(&samples[0], brush));
            let rim = directions(disc_angles(radius, scale));
            return vec![disc(samples[0].position, radius, &rim)];
        }
        Shape::Ribbon(segments) => segments,
    };
    let curves: Vec<CubicBez> =
        segments.iter().map(|segment| bezier(&segment_curve(samples, *segment))).collect();
    let lengths: Vec<Float64> = curves.iter().map(|curve| d(curve.arclen(exact))).collect();
    let params: Vec<Vec<Float64>> = arcs_of_segments(&lengths, step)
        .into_iter()
        .zip(&curves)
        .map(|(arcs, c)| arcs.into_iter().map(|a| d(c.inv_arclen(w(a), exact))).collect())
        .collect();
    let rails = lay_out(samples, brush, &segments, &params);
    let mut polygons = vec![outline(rails.left(), rails.right())];
    for cap in caps(samples, brush, &rails, scale) {
        polygons.push(cap.polygon(&directions(cap.angles())));
    }
    polygons
}

/// Width and height of what the polygons cover.
fn extent(polygons: &[Vec<Point>]) -> (f64, f64) {
    let points: Vec<Point> = polygons.iter().flatten().copied().collect();
    let span = |of: &dyn Fn(&Point) -> f64| {
        let low = points.iter().map(|p| of(p)).fold(f64::INFINITY, f64::min);
        let high = points.iter().map(|p| of(p)).fold(f64::NEG_INFINITY, f64::max);
        high - low
    };
    (span(&|p| w(p.x)), span(&|p| w(p.y)))
}

fn vertex_count(polygons: &[Vec<Point>]) -> usize {
    polygons.iter().map(Vec::len).sum()
}

fn point(x: f64, y: f64) -> Point {
    Point::new(d(x), d(y))
}

fn samples(points: &[(f64, f64, f32)]) -> Vec<Sample> {
    points
        .iter()
        .map(|&(x, y, p)| {
            let mut s = Sample::mouse(point(x, y), 0, PointerId::mouse());
            s.pressure = f(p);
            s
        })
        .collect()
}

fn brush(min: f32, max: f32) -> BrushParams {
    BrushParams { min_width: f(min), max_width: f(max), ..BrushParams::default() }
}

#[test]
fn no_sample_has_no_shape() {
    assert_eq!(plan(&Vec::new()), Shape::Empty);
}

#[test]
fn a_stroke_that_does_not_move_is_a_disc() {
    assert_eq!(plan(&samples(&[(50.0, 50.0, 1.0)])), Shape::Disc);
    assert_eq!(
        plan(&samples(&[(5.0, 0.0, 1.0), (5.0, -0.0, 0.5), (5.0, 0.0, 0.1)])),
        Shape::Disc
    );
}

#[test]
fn segments_carry_their_neighbours() {
    let s = samples(&[(0.0, 0.0, 0.5), (1.0, 0.0, 0.5), (2.0, 0.0, 0.5), (3.0, 0.0, 0.5)]);
    assert_eq!(
        plan(&s),
        Shape::Ribbon(vec![
            Segment { before: 0, from: 0, to: 1, after: 2 },
            Segment { before: 0, from: 1, to: 2, after: 3 },
            Segment { before: 1, from: 2, to: 3, after: 3 },
        ])
    );
}

#[test]
fn a_pause_is_left_out() {
    let s = samples(&[(0.0, 0.0, 0.5), (50.0, 50.0, 0.5), (50.0, 50.0, 0.5), (100.0, 0.0, 0.5)]);
    assert_eq!(
        plan(&s),
        Shape::Ribbon(vec![
            Segment { before: 0, from: 0, to: 1, after: 2 },
            Segment { before: 1, from: 2, to: 3, after: 3 },
        ])
    );
}

#[test]
fn widths_follow_the_pressure() {
    let s = samples(&[(0.0, 0.0, 0.0), (1.0, 0.0, 1.0)]);
    let b = brush(2.0, 10.0);
    assert_eq!(v(half_width_at_sample(&s[0], b)), 1.0);
    assert_eq!(v(half_width_at_sample(&s[1], b)), 5.0);
    assert_eq!(v(width_along(&s[0], &s[1], b, f(0.25))), 4.0);
    assert_eq!(v(half_width_at_sample(&s[1], brush(0.1, 10.0))), (0.1 + (10.0 - 0.1)) / 2.0);
}

#[test]
fn caps_are_neither_coarse_nor_endless() {
    assert_eq!(cap_vertex_count(d(0.0), d(1.0)), 8);
    assert_eq!(cap_vertex_count(d(5.0), d(1.0)), 8);
    assert_eq!(cap_vertex_count(d(10.0), d(2.0)), 32);
    assert_eq!(cap_vertex_count(d(1e9), d(1.0)), 64);
    assert_eq!(cap_vertex_count(d(f64::NAN), d(1.0)), 8);
}

#[test]
fn later_segments_skip_their_first_vertex() {
    let arcs = |wrote_any: bool| -> Vec<f64> {
        step_arcs(d(2.5), d(1.0), wrote_any).into_iter().map(w).collect()
    };
    assert_eq!(
        arcs(false),
        vec![0.0, 2.5 * (1.0 / 3.0), 2.5 * (2.0 / 3.0), 2.5]
    );
    assert_eq!(arcs(true), vec![2.5 * (1.0 / 3.0), 2.5 * (2.0 / 3.0), 2.5]);
    assert_eq!(step_count(d(0.0), d(1.0)), 1);
    assert_eq!(step_count(d(f64::NAN), d(1.0)), 1);
}

#[test]
fn steps_are_as_long_as_a_pixel() {
    assert_eq!(w(screen_scale(d(-4.0))), 2.0);
    assert_eq!(w(world_step(d(4.0))), 0.25);
    assert_eq!(w(world_step(d(0.0))), 1.0);
    assert_eq!(w(world_step(d(f64::NAN))), 1.0);
    assert_eq!(w(accuracy(d(0.25))), 0.125);
}

#[test]
fn the_outline_runs_out_left_and_back_right() {
    let left = vec![point(0.0, 1.0), point(1.0, 1.0)];
    let right = vec![point(0.0, -1.0), point(1.0, -1.0)];
    assert_eq!(
        outline(&left, &right),
        vec![point(0.0, 1.0), point(1.0, 1.0), point(1.0, -1.0), point(0.0, -1.0)]
    );
}

#[test]
fn empty_stroke_returns_empty_path() {
    let polygons = tessellate_stroke(&Vec::new(), BrushParams::default(), Affine::IDENTITY);
    assert_eq!(polygons.len(), 0);
}

#[test]
fn single_sample_is_disc_of_expected_radius() {
    let s = samples(&[(50.0, 50.0, 1.0)]);
    let polygons = tessellate_stroke(&s, brush(0.1, 10.0), Affine::IDENTITY);
    let (width, height) = extent(&polygons);
    assert!((width - 10.0).abs() < 0.5, "width ≈ 10");
    assert!((height - 10.0).abs() < 0.5, "height ≈ 10");
}

#[test]
fn two_sample_constant_pressure_is_ribbon_with_caps() {
    let s = samples(&[(0.0, 0.0, 1.0), (100.0, 0.0, 1.0)]);
    let polygons = tessellate_stroke(&s, brush(1.0, 1.0), Affine::IDENTITY);
    let (width, height) = extent(&polygons);
    assert!(width >= 100.0, "covers the horizontal span");
    assert!(
        height >= 1.0 && height <= 2.0,
        "height ≈ width (1.0) plus cap bulges (negligible at pressure-1 min=max=1.0)"
    );
    assert_eq!(polygons.len(), 3);
}

#[test]
fn zoom_increases_vertex_count() {
    let s = samples(&[(0.0, 0.0, 1.0), (100.0, 0.0, 1.0), (100.0, 100.0, 1.0)]);
    let small = tessellate_stroke(&s, BrushParams::default(), Affine::IDENTITY);
    let large = tessellate_stroke(&s, BrushParams::default(), Affine::scale(10.0));
    assert!(
        vertex_count(&large) > vertex_count(&small),
        "{} > {}",
        vertex_count(&large),
        vertex_count(&small)
    );
}

#[test]
fn zero_length_midsegment_does_not_panic() {
    let s = samples(&[(0.0, 0.0, 0.5), (50.0, 50.0, 0.5), (50.0, 50.0, 0.5), (100.0, 0.0, 0.5)]);
    let polygons = tessellate_stroke(&s, BrushParams::default(), Affine::IDENTITY);
    for p in polygons.iter().flatten() {
        assert!(w(p.x).is_finite(), "x must be finite: {p:?}");
        assert!(w(p.y).is_finite(), "y must be finite: {p:?}");
    }
}

#[test]
fn pressure_ramp_widens_bounding_box() {
    let s = samples(&[
        (0.0, 0.0, 0.0),
        (25.0, 0.0, 0.25),
        (50.0, 0.0, 0.5),
        (75.0, 0.0, 0.75),
        (100.0, 0.0, 1.0),
    ]);
    let polygons = tessellate_stroke(&s, brush(0.1, 20.0), Affine::IDENTITY);
    let (_, height) = extent(&polygons);
    assert!(height >= 15.0, "bbox height {height} should be ≥ ~max_width");
}

#[test]
fn curves_are_those_of_the_geometry_crate() {
    let c = centripetal_catmull_rom(
        point(0.0, 1.0),
        point(3.0, 5.0),
        point(10.0, 4.0),
        point(12.5, -7.25),
    );
    let expected = {
        let p = [(0.0, 1.0), (3.0, 5.0), (10.0, 4.0), (12.5, -7.25)].map(kurbo::Point::from);
        let d01 = (p[1] - p[0]).hypot().sqrt().max(1e-6);
        let d12 = (p[2] - p[1]).hypot().sqrt().max(1e-6);
        let d23 = (p[3] - p[2]).hypot().sqrt().max(1e-6);
        let (t1, t2, t3) = (0.0 + d01, 0.0 + d01 + d12, 0.0 + d01 + d12 + d23);
        let out = (p[2] - p[0]) * ((t2 - t1) / ((t2 - 0.0).max(1e-6) * 3.0));
        let back = (p[3] - p[1]) * ((t2 - t1) / ((t3 - t1).max(1e-6) * 3.0));
        CubicBez::new(p[1], p[1] + out, p[2] - back, p[2])
    };
    assert_eq!(bezier(&c), expected);
    for t in [0.0, 0.1, 0.25, 0.5, 0.75, 1.0] {
        let p = c.eval(d(t));
        assert_eq!(kurbo::Point::new(w(p.x), w(p.y)), expected.eval(t));
        let p = c.deriv(d(t));
        assert_eq!(kurbo::Point::new(w(p.x), w(p.y)), expected.deriv().eval(t));
    }
}

#[test]
fn a_straight_step_lies_half_the_width_to_either_side() {
    let s = samples(&[(0.0, 0.0, 0.0), (8.0, 0.0, 1.0)]);
    let curve = segment_curve(&s, Segment { before: 0, from: 0, to: 1, after: 1 });
    let mut rails = Rails::new();
    assert!(!rails.wrote_any());
    rails.walk(&s[0], &s[1], brush(2.0, 10.0), &curve, &vec![d(-3.0), d(7.0)]);
    assert!(rails.wrote_any());
    assert_eq!(rails.left(), &vec![point(0.0, 1.0), point(8.0, 5.0)]);
    assert_eq!(rails.right(), &vec![point(0.0, -1.0), point(8.0, -5.0)]);
    let out = rails.leading_outward();
    assert_eq!((w(out.x), w(out.y)), (-1.0, 0.0));
    let out = rails.trailing_outward();
    assert_eq!((w(out.x), w(out.y)), (1.0, 0.0));
}

#[test]
fn caps_need_a_size_and_a_direction() {
    let right = Vector { x: d(2.0), y: d(0.0) };
    let still = Vector { x: d(1e-7), y: d(0.0) };
    assert!(round_cap(point(0.0, 0.0), right, f(0.0), d(1.0)).is_none());
    assert!(round_cap(point(0.0, 0.0), right, f(-1.0), d(1.0)).is_none());
    assert!(round_cap(point(0.0, 0.0), still, f(1.0), d(1.0)).is_none());
    let cap = round_cap(point(5.0, 5.0), right, f(2.0), d(1.0)).unwrap();
    assert_eq!(cap.parts, 8);
    let angles: Vec<f64> = cap.angles().into_iter().map(w).collect();
    assert_eq!(angles.len(), 7);
    assert_eq!(angles[3], std::f64::consts::PI * 4.0 / 8.0);
    let rim = cap.polygon(&vec![UnitDirection { cos: d(0.0), sin: d(1.0) }]);
    assert_eq!(rim, vec![point(5.0, 7.0), point(7.0, 5.0), point(5.0, 3.0)]);
}

#[test]
fn a_disc_starts_on_its_right() {
    let angles = disc_angles(d(1.0), d(1.0));
    assert_eq!(angles.len(), 7);
    assert_eq!(w(angles[1]), 2.0 * std::f64::consts::PI * 2.0 / 8.0);
    let rim = disc(point(1.0, 1.0), d(3.0), &vec![UnitDirection { cos: d(0.0), sin: d(1.0) }]);
    assert_eq!(rim, vec![point(4.0, 1.0), point(1.0, 4.0)]);
}

#[test]
fn a_ribbon_has_a_cap_at_either_end() {
    let s = samples(&[(0.0, 0.0, 0.0), (10.0, 0.0, 1.0), (10.0, 10.0, 0.5)]);
    let Shape::Ribbon(segments) = plan(&s) else { panic!("the stroke moves") };
    let params = vec![vec![d(0.0), d(1.0)], vec![d(1.0)]];
    let rails = lay_out(&s, brush(2.0, 4.0), &segments, &params);
    assert_eq!(rails.left().len(), 3);
    assert_eq!(rails.right().len(), 3);
    let caps = caps(&s, brush(2.0, 4.0), &rails, d(1.0));
    assert_eq!(caps.len(), 2);
    assert_eq!(caps[0].center, point(0.0, 0.0));
    assert_eq!(caps[1].center, point(10.0, 10.0));
    assert!(w(caps[0].radius) == 1.0 && w(caps[1].radius) == 1.5);
    // The first faces back along the stroke, the last ahead.
    assert!(w(caps[0].outward.x) < 0.0);
    assert!(w(caps[1].outward.y) > 0.0);
}

#[test]
fn a_brush_without_width_has_no_caps() {
    let s = samples(&[(0.0, 0.0, 1.0), (10.0, 0.0, 1.0)]);
    let Shape::Ribbon(segments) = plan(&s) else { panic!("the stroke moves") };
    let rails = lay_out(&s, brush(0.0, 0.0), &segments, &vec![vec![d(0.0), d(1.0)]]);
    assert!(caps(&s, brush(0.0, 0.0), &rails, d(1.0)).is_empty());
}

#[test]
fn a_ribbon_far_out_is_finite_and_has_both_caps() {
    let s = samples(&[(1e9, -1e9, 1.0), (1e9 + 3.0, -1e9, 0.0), (1e9 + 3.0, 5.0 - 1e9, 0.3)]);
    let polygons = tessellate_stroke(&s, BrushParams::default(), Affine::IDENTITY);
    assert_eq!(polygons.len(), 3);
    for p in polygons.iter().flatten() {
        assert!(w(p.x).is_finite() && w(p.y).is_finite());
    }
}

#[test]
fn only_the_first_segment_has_a_step_at_its_start() {
    let arcs = arcs_of_segments(&vec![d(2.0), d(3.0), d(0.5)], d(1.0));
    let arcs: Vec<Vec<f64>> = arcs.into_iter().map(|a| a.into_iter().map(w).collect()).collect();
    assert_eq!(arcs[0], vec![0.0, 1.0, 2.0]);
    assert_eq!(arcs[1], vec![1.0, 2.0, 3.0]);
    assert_eq!(arcs[2], vec![0.5]);
    assert!(arcs_of_segments(&Vec::new(), d(1.0)).is_empty());
}
