//! The engine's commands on page and brush, and cancelling.

use art_junk::brush::{BrushParams, LinearRgba};
use art_junk::engine::{apply, apply_batch, Command, EngineState};
use art_junk::float32::Float32;
use art_junk::geometry::{Float64, Point, Size};
use art_junk::ids::{IdCounter, StrokeId};
use art_junk::srgb::{decode_bases, Channels};
use art_junk::sample::{PointerId, Sample, ToolCaps};

fn f(x: f32) -> Float32 {
    Float32::from_bits(x.to_bits())
}

fn v(x: Float32) -> f32 {
    f32::from_bits(x.to_bits())
}

fn d(x: f64) -> Float64 {
    Float64::from_bits(x.to_bits())
}

fn size(width: f64, height: f64) -> Size {
    Size { width: d(width), height: d(height) }
}

fn raised(c: Channels, exponent: f32) -> Channels {
    let channel = |x: Float32| f(f32::from_bits(x.to_bits()).powf(exponent));
    Channels { r: channel(c.r), g: channel(c.g), b: channel(c.b) }
}

fn from_srgb8(c: [u8; 4]) -> LinearRgba {
    LinearRgba::from_srgb8(c, raised(decode_bases(c), 2.4))
}

#[test]
fn set_show_bounds_updates_snapshot() {
    let mut state = EngineState::new();
    assert!(state.doc.page().show_bounds, "default is show_bounds=true");
    apply(Command::SetShowBounds(false), &mut state);
    assert!(!state.doc.page().show_bounds);
    assert!(!state.snapshot().scene.page.show_bounds);
}

#[test]
fn set_clip_to_bounds_updates_snapshot() {
    let mut state = EngineState::new();
    assert!(!state.doc.page().clip_to_bounds);
    apply(Command::SetClipToBounds(true), &mut state);
    assert!(state.doc.page().clip_to_bounds);
    assert!(state.snapshot().scene.page.clip_to_bounds);
}

#[test]
fn set_page_size_updates_snapshot() {
    let mut state = EngineState::new();
    apply(Command::SetPageSize(size(800.0, 600.0)), &mut state);
    assert_eq!(state.snapshot().scene.page.size, size(800.0, 600.0));
}

#[test]
fn page_commands_do_not_touch_history() {
    let mut state = EngineState::new();
    apply(Command::SetShowBounds(false), &mut state);
    apply(Command::SetClipToBounds(true), &mut state);
    apply(Command::SetPageSize(size(800.0, 600.0)), &mut state);
    let status = state.history.status();
    assert!(!status.can_undo);
    assert!(!status.can_redo);
}

#[test]
fn set_brush_max_width_propagates_through_snapshot() {
    let mut state = EngineState::new();
    state.doc.set_brush(BrushParams { min_width: f(2.0), max_width: f(8.0), ..Default::default() });
    apply(Command::SetBrushMaxWidth(f(16.0)), &mut state);
    let b = state.snapshot().scene.brush;
    assert!((v(b.max_width) - 16.0).abs() < f32::EPSILON);
    assert!((v(b.min_width) - 4.0).abs() < f32::EPSILON);
}

#[test]
fn set_brush_min_width_propagates_through_snapshot() {
    let mut state = EngineState::new();
    apply(Command::SetBrushMinWidth(f(1.5)), &mut state);
    assert!((v(state.snapshot().scene.brush.min_width) - 1.5).abs() < f32::EPSILON);
}

#[test]
fn set_brush_min_ratio_propagates_through_snapshot() {
    let mut state = EngineState::new();
    state.doc.set_brush(BrushParams { min_width: f(0.5), max_width: f(4.0), ..Default::default() });
    apply(Command::SetBrushMinRatio(f(0.75)), &mut state);
    assert!((v(state.snapshot().scene.brush.min_width) - 3.0).abs() < f32::EPSILON);
}

#[test]
fn brush_commands_do_not_touch_history() {
    let mut state = EngineState::new();
    apply(Command::SetBrushMaxWidth(f(10.0)), &mut state);
    apply(Command::SetBrushMinWidth(f(2.0)), &mut state);
    apply(Command::SetBrushMinRatio(f(0.3)), &mut state);
    apply(Command::SetBrushColor(LinearRgba::white()), &mut state);
    let status = state.history.status();
    assert!(!status.can_undo);
    assert!(!status.can_redo);
}

#[test]
fn set_brush_color_propagates_through_snapshot() {
    let mut state = EngineState::new();
    let c = from_srgb8([10, 200, 30, 255]);
    apply(Command::SetBrushColor(c), &mut state);
    assert_eq!(state.snapshot().scene.brush.color, c);
}

#[test]
fn cancel_stroke_drops_active_without_history() {
    let mut state = EngineState::new();
    let mut stroke_ids = IdCounter::new();
    let id = StrokeId::next(&mut stroke_ids);
    let sample = Sample::mouse(Point::new(d(0.0), d(0.0)), 0, PointerId::mouse());
    apply(
        Command::BeginStroke {
            id,
            sample,
            caps: ToolCaps::empty(),
            brush: BrushParams::default(),
        },
        &mut state,
    );
    assert!(state.doc.has_active_stroke());
    apply(Command::CancelStroke { id }, &mut state);
    assert!(!state.doc.has_active_stroke(), "cancel clears active stroke");
    let status = state.history.status();
    assert!(!status.can_undo, "cancel does not record a history entry");
    assert!(state.snapshot().scene.strokes.is_empty(), "cancelled stroke not in snapshot");
}

#[test]
fn cancel_stroke_for_wrong_id_is_noop() {
    let mut state = EngineState::new();
    let mut stroke_ids = IdCounter::new();
    let id = StrokeId::next(&mut stroke_ids);
    let other = StrokeId::next(&mut stroke_ids);
    let sample = Sample::mouse(Point::new(d(0.0), d(0.0)), 0, PointerId::mouse());
    apply(
        Command::BeginStroke {
            id,
            sample,
            caps: ToolCaps::empty(),
            brush: BrushParams::default(),
        },
        &mut state,
    );
    apply(Command::CancelStroke { id: other }, &mut state);
    assert!(state.doc.has_active_stroke(), "wrong-id cancel leaves stroke intact");
}

#[test]
fn a_batch_is_carried_out_to_its_end() {
    let mut state = EngineState::new();
    assert_eq!(apply_batch(vec![Command::SetShowBounds(false)], &mut state), Ok(false));
    assert!(!state.doc.page().show_bounds);
    let batch = vec![
        Command::SetShowBounds(true),
        Command::Shutdown,
        Command::AddLayer { name: "Later".to_string() },
    ];
    assert_eq!(apply_batch(batch, &mut state), Ok(true));
    assert!(state.doc.page().show_bounds);
    assert_eq!(state.snapshot().scene.layers.len(), 2);
    assert_eq!(apply_batch(Vec::new(), &mut state), Ok(false));
}

#[test]
fn a_batch_stops_before_what_cannot_be_carried_out() {
    let mut state = EngineState::new();
    let batch = vec![
        Command::SetBrushMaxWidth(f(f32::NAN)),
        Command::SetBrushMinWidth(f(1.0)),
        Command::SetShowBounds(false),
    ];
    assert_eq!(apply_batch(batch, &mut state), Err(1));
    assert!(v(state.doc.brush().max_width).is_nan());
    assert!(state.doc.page().show_bounds);
}

#[test]
fn numbers_keep_the_widths_in_order() {
    let mut state = EngineState::new();
    let commands = [
        Command::SetBrushMaxWidth(f(f32::INFINITY)),
        Command::SetBrushMinWidth(f(1.0e30)),
        Command::SetBrushMaxWidth(f(-3.0)),
        Command::SetBrushMinRatio(f(7.0)),
        Command::SetBrushMinWidth(f(f32::NEG_INFINITY)),
    ];
    for command in commands {
        assert!(state.can_apply(&command));
        apply(command, &mut state);
        let brush = state.doc.brush();
        assert!(v(brush.max_width) > 0.0 && v(brush.max_width).is_finite());
        assert!(v(brush.min_width) >= 0.0 && v(brush.min_width) <= v(brush.max_width));
    }
    apply(Command::SetBrushMaxWidth(f(f32::NAN)), &mut state);
    assert!(!state.can_apply(&Command::SetBrushMinWidth(f(1.0))));
}
