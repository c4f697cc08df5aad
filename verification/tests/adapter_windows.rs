//! The stylus adapter: pens on Windows.

use art_junk::adapter::windows::{WindowsPointerPhase, WindowsProximitySample, WindowsRawSample};
use art_junk::adapter::{optimistic_pen_caps, StylusAdapter};
use art_junk::float32::Float32;
use art_junk::geometry::{Float64, Point};
use art_junk::sample::{PointerId, Sample, SampleClass, Tilt, ToolCaps, ToolKind};
use art_junk::stylus::{Phase, StylusEvent};

fn f(x: f32) -> Float32 {
    Float32::from_bits(x.to_bits())
}

fn d(x: f64) -> Float64 {
    Float64::from_bits(x.to_bits())
}

/// When every event of a test reaches the adapter.
const NOW: u128 = 5_000_000;

fn adapter() -> StylusAdapter {
    StylusAdapter::new()
}

fn drained(a: &mut StylusAdapter) -> Vec<StylusEvent> {
    a.drain()
}

fn expect_sample(ev: &StylusEvent) -> (&Sample, Phase, ToolCaps) {
    match ev {
        StylusEvent::Sample { sample, phase, caps } => (sample, *phase, *caps),
        other => panic!("expected Sample, got {other:?}"),
    }
}

fn win_raw(
    device_id: u32,
    phase: WindowsPointerPhase,
    pos: (f64, f64),
    ts: f64,
    pressure: f32,
) -> WindowsRawSample {
    WindowsRawSample {
        position_physical_px: Point::new(d(pos.0), d(pos.1)),
        timestamp_secs: d(ts),
        pressure: f(pressure),
        tilt: Some(Tilt { x_deg: f(0.0), y_deg: f(0.0) }),
        twist_deg: Some(f(0.0)),
        button_mask: 0,
        device_id,
        pointing_device_type: ToolKind::Pen,
        source_phase: phase,
    }
}

fn win_prox(
    device_id: u32,
    tool: ToolKind,
    caps: ToolCaps,
    is_entering: bool,
) -> WindowsProximitySample {
    WindowsProximitySample { device_id, pointing_device_type: tool, caps, is_entering }
}

#[test]
fn windows_down_move_up_emits_committed_samples() {
    let mut a = adapter();
    a.handle_windows_proximity(win_prox(1, ToolKind::Pen, ToolCaps::pressure_only(), true), NOW);
    a.handle_windows_raw(win_raw(1, WindowsPointerPhase::Down, (10.0, 20.0), 100.0, 0.3), NOW);
    a.handle_windows_raw(win_raw(1, WindowsPointerPhase::Move, (11.0, 21.0), 100.008, 0.5), NOW);
    a.handle_windows_raw(win_raw(1, WindowsPointerPhase::Up, (11.0, 21.0), 100.016, 0.5), NOW);

    let events = drained(&mut a);
    let phases: Vec<Phase> = events.iter().map(|e| expect_sample(e).1).collect();
    assert_eq!(phases, vec![Phase::Down, Phase::Move, Phase::Up]);
    for ev in &events {
        let (sample, _, _) = expect_sample(ev);
        assert_eq!(sample.class, SampleClass::Committed);
    }
    assert!(a.active_pen_pointer().is_none());
}

#[test]
fn windows_hover_emits_hover_phase_without_stroke() {
    let mut a = adapter();
    a.handle_windows_proximity(win_prox(1, ToolKind::Pen, ToolCaps::pressure_only(), true), NOW);
    a.handle_windows_raw(win_raw(1, WindowsPointerPhase::Hover, (5.0, 5.0), 0.0, 0.0), NOW);

    let events = drained(&mut a);
    assert_eq!(events.len(), 1);
    let (sample, phase, _) = expect_sample(&events[0]);
    assert_eq!(phase, Phase::Hover);
    assert_eq!(sample.pointer_id, PointerId::mouse());
    assert!(a.active_pen_pointer().is_none(), "hover must not start a stroke");
}

#[test]
fn windows_capture_lost_emits_cancel() {
    let mut a = adapter();
    a.handle_windows_proximity(win_prox(1, ToolKind::Pen, ToolCaps::pressure_only(), true), NOW);
    a.handle_windows_raw(win_raw(1, WindowsPointerPhase::Down, (0.0, 0.0), 0.0, 0.4), NOW);
    let _ = drained(&mut a);

    a.handle_windows_raw(win_raw(1, WindowsPointerPhase::Cancel, (1.0, 1.0), 0.016, 0.4), NOW);

    let events = drained(&mut a);
    let (_, phase, _) = expect_sample(&events[0]);
    assert_eq!(phase, Phase::Cancel);
    assert!(a.active_pen_pointer().is_none());
}

#[test]
fn windows_eraser_tool_flags_inverted() {
    let mut a = adapter();
    a.handle_windows_proximity(win_prox(1, ToolKind::Eraser, optimistic_pen_caps(), true), NOW);
    let mut raw = win_raw(1, WindowsPointerPhase::Down, (0.0, 0.0), 0.0, 0.4);
    raw.pointing_device_type = ToolKind::Eraser;
    a.handle_windows_raw(raw, NOW);

    let events = drained(&mut a);
    let (sample, _, _) = expect_sample(&events[0]);
    assert_eq!(sample.tool, ToolKind::Eraser);
    assert!(sample.buttons.inverted);
}

#[test]
fn windows_tangential_pressure_always_none() {
    let mut a = adapter();
    a.handle_windows_proximity(win_prox(1, ToolKind::Pen, optimistic_pen_caps(), true), NOW);
    a.handle_windows_raw(win_raw(1, WindowsPointerPhase::Down, (0.0, 0.0), 0.0, 0.5), NOW);
    let events = drained(&mut a);
    let (sample, _, _) = expect_sample(&events[0]);
    assert!(sample.tangential_pressure.is_none());
}

#[test]
fn windows_proximity_out_with_active_stroke_cancels() {
    let mut a = adapter();
    a.handle_windows_proximity(win_prox(1, ToolKind::Pen, optimistic_pen_caps(), true), NOW);
    a.handle_windows_raw(win_raw(1, WindowsPointerPhase::Down, (0.0, 0.0), 0.0, 0.4), NOW);
    let _ = drained(&mut a);

    a.handle_windows_proximity(win_prox(1, ToolKind::Pen, optimistic_pen_caps(), false), NOW);
    let events = drained(&mut a);
    let (_, phase, _) = expect_sample(&events[0]);
    assert_eq!(phase, Phase::Cancel);
    assert!(a.active_pen_pointer().is_none());
}

#[test]
fn windows_move_without_prior_down_is_dropped() {
    let mut a = adapter();
    a.handle_windows_proximity(win_prox(1, ToolKind::Pen, optimistic_pen_caps(), true), NOW);
    a.handle_windows_raw(win_raw(1, WindowsPointerPhase::Move, (1.0, 1.0), 0.0, 0.5), NOW);
    assert!(drained(&mut a).is_empty());
}
