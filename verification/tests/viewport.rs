//! The view of the page.

use art_junk::float32::Float32;
use art_junk::float64::Float64;
use art_junk::engine::Command;
use art_junk::geometry::{Page, Point, Size};
use art_junk::page_border::page_border;
use art_junk::ui::ViewAction;
use art_junk::viewport::{
    pinch_factor, zoom_step, Viewport, WheelDelta, CSS_PER_PT, MAX_SCALE as MAX_BITS,
    MIN_SCALE as MIN_BITS, ZOOM_STEP,
};

fn d(x: f64) -> Float64 {
    Float64::from_bits(x.to_bits())
}

fn v(x: Float64) -> f64 {
    f64::from_bits(x.to_bits())
}

fn point(x: f64, y: f64) -> Point {
    Point::new(d(x), d(y))
}

fn size(width: f64, height: f64) -> Size {
    Size { width: d(width), height: d(height) }
}

fn close(a: f64, b: f64, eps: f64) -> bool {
    (a - b).abs() < eps
}

fn max_scale() -> f64 {
    f64::from_bits(MAX_BITS)
}

fn min_scale() -> f64 {
    f64::from_bits(MIN_BITS)
}

#[test]
fn default_is_identity_at_dpi_1() {
    let view = Viewport::default();
    let a = view.to_affine(d(1.0));
    let map = |x: f64, y: f64| (x * v(a.scale) + v(a.dx), y * v(a.scale) + v(a.dy));
    let origin = map(0.0, 0.0);
    let p72 = map(72.0, 72.0);
    assert!(close(origin.0, 0.0, 1e-9) && close(origin.1, 0.0, 1e-9));
    assert!(close(p72.0, 96.0, 1e-9) && close(p72.1, 96.0, 1e-9));
}

#[test]
fn screen_to_world_is_inverse_of_world_to_screen() {
    let view = Viewport { translate_pt: point(-50.0, 25.0), scale: d(1.7) };
    let dpi = d(2.0);
    for (wx, wy) in [(0.0, 0.0), (100.0, 200.0), (-17.5, 42.1)] {
        let world = point(wx, wy);
        let screen = view.world_to_screen(world, dpi);
        let back = view.screen_to_world(screen, dpi);
        assert!(close(v(back.x), wx, 1e-9), "x round-trip: {} != {}", v(back.x), wx);
        assert!(close(v(back.y), wy, 1e-9), "y round-trip: {} != {}", v(back.y), wy);
    }
}

#[test]
fn zoom_at_cursor_keeps_world_point_under_cursor() {
    let mut view = Viewport { translate_pt: point(10.0, -5.0), scale: d(1.0) };
    let dpi = d(1.5);
    let cursor = point(400.0, 300.0);
    let world_before = view.screen_to_world(cursor, dpi);
    view.zoom_at_cursor(cursor, d(2.5), dpi);
    let world_after_under_cursor = view.screen_to_world(cursor, dpi);
    assert!(close(v(world_before.x), v(world_after_under_cursor.x), 1e-9));
    assert!(close(v(world_before.y), v(world_after_under_cursor.y), 1e-9));
}

#[test]
fn zoom_round_trip_restores_state() {
    let mut view = Viewport { translate_pt: point(-33.3, 77.7), scale: d(1.0) };
    let dpi = d(2.0);
    let cursor = point(640.0, 480.0);
    view.zoom_at_cursor(cursor, d(4.0), dpi);
    view.zoom_at_cursor(cursor, d(1.0 / 4.0), dpi);
    assert!(close(v(view.scale), 1.0, 1e-9));
    assert!(close(v(view.translate_pt.x), -33.3, 1e-9));
    assert!(close(v(view.translate_pt.y), 77.7, 1e-9));
}

#[test]
fn zoom_clamps_at_bounds() {
    let mut view = Viewport::default();
    view.zoom_at_cursor(point(0.0, 0.0), d(1e6), d(1.0));
    assert!(close(v(view.scale), max_scale(), 1e-9));
    view.zoom_at_cursor(point(0.0, 0.0), d(1e-6), d(1.0));
    assert!(close(v(view.scale), min_scale(), 1e-9));
}

#[test]
fn pan_translates_view() {
    let mut view = Viewport::default();
    let dpi = d(1.0);
    let before = view.screen_to_world(point(100.0, 100.0), dpi);
    view.pan(point(50.0, 0.0), dpi);
    let after = view.screen_to_world(point(100.0, 100.0), dpi);
    assert!(close(v(after.x) - v(before.x), 37.5, 1e-9));
    assert!(close(v(after.y) - v(before.y), 0.0, 1e-9));
}

#[test]
fn fit_centers_page_in_window() {
    let mut view = Viewport::default();
    let window = size(1600.0, 900.0);
    let page = size(1920.0, 1080.0);
    view.zoom_to_fit(window, page, d(1.0));
    let page_center = point(960.0, 540.0);
    let projected = view.world_to_screen(page_center, d(1.0));
    assert!(close(v(projected.x), 800.0, 1e-6));
    assert!(close(v(projected.y), 450.0, 1e-6));
}

#[test]
fn a_page_without_size_is_not_fitted() {
    let mut view = Viewport { translate_pt: point(1.0, 2.0), scale: d(3.0) };
    let before = view;
    view.zoom_to_fit(size(800.0, 600.0), size(0.0, 10.0), d(1.0));
    assert_eq!(view, before);
    view.zoom_to_fit(size(800.0, 600.0), size(10.0, -1.0), d(1.0));
    assert_eq!(view, before);
}

#[test]
fn zoom_to_an_absolute_zoom_and_reset() {
    let mut view = Viewport { translate_pt: point(5.0, 6.0), scale: d(4.0) };
    let window = size(1000.0, 500.0);
    let center = point(500.0, 250.0);
    let before = view.screen_to_world(center, d(1.0));
    view.zoom_to(d(1.0), window, d(1.0));
    assert!(close(v(view.scale), 1.0, 1e-9));
    let after = view.screen_to_world(center, d(1.0));
    assert!(close(v(before.x), v(after.x), 1e-9) && close(v(before.y), v(after.y), 1e-9));
    view.zoom_to(d(1e9), window, d(1.0));
    assert!(close(v(view.scale), 256.0, 1e-9));
    view.reset();
    assert_eq!(view, Viewport::default());
}

#[test]
fn constants_are_what_they_are_called() {
    assert_eq!(f64::from_bits(CSS_PER_PT), 4.0 / 3.0);
    assert_eq!(min_scale(), 0.01);
    assert_eq!(max_scale(), 256.0);
    assert_eq!(f64::from_bits(ZOOM_STEP), 1.1);
    assert_eq!(v(zoom_step(true)), 1.1);
    assert_eq!(v(zoom_step(false)), 1.0 / 1.1);
    assert_eq!(v(pinch_factor(d(0.25))), 1.25);
}

#[test]
fn the_wheel_is_measured_in_lines_and_pixels() {
    let f = |x: f32| Float32::from_bits(x.to_bits());
    let lines = WheelDelta::Lines { x: f(0.5), y: f(-3.0) };
    assert_eq!(lines.pan_pixels(), point(10.0, -60.0));
    assert_eq!(v(lines.zoom_lines()), -3.0);
    let pixels = WheelDelta::Pixels { x: d(7.0), y: d(40.0) };
    assert_eq!(pixels.pan_pixels(), point(7.0, 40.0));
    assert_eq!(v(pixels.zoom_lines()), 0.5);
}

#[test]
fn views_agree_with_hardware_arithmetic() {
    for i in 0..40_u32 {
        let x = f64::from(i) * 1.37 - 11.0;
        let view = Viewport { translate_pt: point(x, -x * 0.3), scale: d(0.02 + x.abs()) };
        let dpi = 1.25;
        let k = (0.02 + x.abs()) * (4.0 / 3.0) * dpi;
        let p = view.screen_to_world(point(3.0, 4.5), d(dpi));
        assert_eq!(v(p.x), 3.0 / k + x);
        assert_eq!(v(p.y), 4.5 / k + -x * 0.3);
        let s = view.world_to_screen(point(3.0, 4.5), d(dpi));
        assert_eq!(v(s.x), (3.0 - x) * k);
        let a = view.to_affine(d(dpi));
        assert_eq!((v(a.scale), v(a.dx)), (k, -x * k));
    }
}

#[test]
fn view_actions_change_the_view_or_the_page() {
    let page = Page::default();
    let window = size(1200.0, 800.0);
    let anchor = point(300.0, 200.0);
    let start = Viewport { translate_pt: point(5.0, 6.0), scale: d(2.0) };
    let act = |action| {
        let mut view = start;
        let command = view.apply_view_action(action, anchor, window, page, d(1.0));
        (view, command)
    };
    let zoomed = |factor: f64| {
        let mut view = start;
        view.zoom_at_cursor(anchor, d(factor), d(1.0));
        view
    };
    let (view, command) = act(ViewAction::ZoomIn);
    assert!(view == zoomed(1.1) && command.is_none());
    assert!(act(ViewAction::ZoomOut).0 == zoomed(1.0 / 1.1));
    assert_eq!(v(act(ViewAction::ZoomTo100).0.scale), 1.0);
    let mut fitted = start;
    fitted.zoom_to_fit(window, page.size, d(1.0));
    assert!(act(ViewAction::ZoomToFit).0 == fitted);
    assert!(act(ViewAction::ResetView).0 == Viewport::default());
    let (view, command) = act(ViewAction::TogglePageBounds);
    assert!(view == start && matches!(command, Some(Command::SetShowBounds(false))));
    let (view, command) = act(ViewAction::ToggleClipToBounds);
    assert!(view == start && matches!(command, Some(Command::SetClipToBounds(true))));
}

#[test]
fn the_wheel_zooms_or_pans() {
    let start = Viewport::default();
    let delta = WheelDelta::Lines {
        x: Float32::from_bits(1.0_f32.to_bits()),
        y: Float32::from_bits((-2.0_f32).to_bits()),
    };
    let mut view = start;
    view.handle_wheel(delta, false, d(7.0), point(10.0, 10.0), d(1.0));
    assert_eq!(v(view.scale), 1.0);
    assert!(close(v(view.translate_pt.x), 15.0, 1e-9));
    assert!(close(v(view.translate_pt.y), -30.0, 1e-9));
    let mut view = start;
    view.handle_wheel(delta, true, d(2.0), point(0.0, 0.0), d(1.0));
    assert_eq!(v(view.scale), 2.0);
}

#[test]
fn the_border_is_as_thick_at_every_zoom() {
    let page = Page::default();
    assert_eq!(page_border(page, d(3.0)).map(v), Some(0.5));
    assert_eq!(page_border(page, d(0.0)).map(v), Some(1.5));
    assert_eq!(page_border(page, d(f64::NAN)).map(v), Some(1.5));
    assert!(page_border(Page { show_bounds: false, ..page }, d(3.0)).is_none());
}

#[test]
fn zooming_keeps_far_points_and_comes_back() {
    let mut view = Viewport { translate_pt: point(-3.5e5, 7.25e6), scale: d(0.02) };
    let cursor = point(16_000.0, 9_000.5);
    let dpi = d(1.25);
    for factor in [1.0 / 3.0, 7.0, 1e9, 1e-9] {
        let before = view.screen_to_world(cursor, dpi);
        let mut zoomed = view;
        zoomed.zoom_at_cursor(cursor, d(factor), dpi);
        let after = zoomed.screen_to_world(cursor, dpi);
        assert!(close(v(after.x), v(before.x), 1e-9 * v(before.x).abs().max(1.0)));
        assert!(close(v(after.y), v(before.y), 1e-9 * v(before.y).abs().max(1.0)));
        assert!((min_scale()..=max_scale()).contains(&v(zoomed.scale)));
    }
    let start = view;
    view.zoom_at_cursor(cursor, d(7.0), dpi);
    view.zoom_at_cursor(cursor, d(1.0 / 7.0), dpi);
    assert!(close(v(view.scale), v(start.scale), 1e-15));
    assert!(close(v(view.translate_pt.x), v(start.translate_pt.x), 1e-3));
    assert!(close(v(view.translate_pt.y), v(start.translate_pt.y), 1e-2));
}

#[test]
fn zooming_keeps_points_however_far() {
    for (tx, ty, px) in [(1e200, -3e250, 7.5), (2.5e-150, 1e-200, 1e150), (-4e15, 1.0, 4e15)] {
        for factor in [0.3, 5.0] {
            let dpi = 2.0;
            let mut view = Viewport { translate_pt: point(tx, ty), scale: d(0.5) };
            let cursor = point(px, -px);
            let before = view.screen_to_world(cursor, d(dpi));
            view.zoom_at_cursor(cursor, d(factor), d(dpi));
            let after = view.screen_to_world(cursor, d(dpi));
            let scale = v(view.scale);
            let span = v(view.translate_pt.x).abs() + (px / dpi).abs();
            assert!((v(after.x) - v(before.x)).abs() * scale <= 1e-14 * span);
            let span = v(view.translate_pt.y).abs() + (px / dpi).abs();
            assert!((v(after.y) - v(before.y)).abs() * scale <= 1e-14 * span);
        }
    }
}
