//! The stylus adapter: pens on macOS, the mouse, fingers, and losing the focus.

use art_junk::adapter::mac::{
    MacTabletOrigin, MacTabletPhase, MacTabletProximitySample, MacTabletRawSample,
};
use art_junk::adapter::{
    normalize_force, optimistic_pen_caps, Force, StylusAdapter, TouchInput, TouchPhase,
    WindowInput,
};
use art_junk::float32::Float32;
use art_junk::geometry::{Float64, Point};
use art_junk::sample::{Sample, SampleClass, Tilt, ToolCaps, ToolKind};
use art_junk::stylus::{Phase, StylusEvent};

fn f(x: f32) -> Float32 {
    Float32::from_bits(x.to_bits())
}

fn v(x: Float32) -> f32 {
    f32::from_bits(x.to_bits())
}

fn d(x: f64) -> Float64 {
    Float64::from_bits(x.to_bits())
}

/// When every event of a test reaches the adapter.
const NOW: u128 = 5_000_000;

fn caps_of(names: &[&str]) -> ToolCaps {
    ToolCaps {
        pressure: names.contains(&"pressure"),
        tilt: names.contains(&"tilt"),
        twist: names.contains(&"twist"),
        tangential_pressure: names.contains(&"tangential"),
        hover: false,
        barrel_button: false,
    }
}

fn adapter() -> StylusAdapter {
    StylusAdapter::new()
}

fn drained(a: &mut StylusAdapter) -> Vec<StylusEvent> {
    a.drain()
}

fn expect_sample(ev: &StylusEvent) -> (&Sample, Phase, ToolCaps) {
    match ev {
        StylusEvent::Sample { sample, phase, caps } => (sample, *phase, *caps),
        other => panic!("expected Sample, got {other:?}"),
    }
}

fn raw(
    device_id: u32,
    phase: MacTabletPhase,
    pos: (f64, f64),
    ts: f64,
    pressure: f32,
) -> MacTabletRawSample {
    raw_with_origin(device_id, phase, pos, ts, pressure, MacTabletOrigin::MouseSubtype)
}

fn raw_with_origin(
    device_id: u32,
    phase: MacTabletPhase,
    pos: (f64, f64),
    ts: f64,
    pressure: f32,
    origin: MacTabletOrigin,
) -> MacTabletRawSample {
    MacTabletRawSample {
        position_physical_px: Point::new(d(pos.0), d(pos.1)),
        timestamp_secs: d(ts),
        pressure: f(pressure),
        tilt: Tilt { x_deg: f(0.0), y_deg: f(0.0) },
        twist_deg: f(0.0),
        tangential_pressure: f(0.0),
        button_mask: 0,
        device_id,
        pointing_device_type: ToolKind::Pen,
        origin,
        source_phase: phase,
    }
}

fn proximity(
    device_id: u32,
    tool: ToolKind,
    caps: ToolCaps,
    is_entering: bool,
) -> MacTabletProximitySample {
    MacTabletProximitySample {
        device_id,
        unique_id: Some(42),
        pointing_device_type: tool,
        caps,
        is_entering,
    }
}

#[test]
fn pen_down_emits_estimated_sample_with_update_index() {
    let mut a = adapter();
    a.handle_mac_proximity(proximity(1, ToolKind::Pen, ToolCaps::pressure_only(), true), NOW);
    a.handle_mac_raw(raw(1, MacTabletPhase::Down, (100.0, 200.0), 0.0, 0.1), NOW);

    let events = drained(&mut a);
    assert_eq!(events.len(), 1);
    let (sample, phase, caps) = expect_sample(&events[0]);
    assert_eq!(phase, Phase::Down);
    assert_eq!(sample.tool, ToolKind::Pen);
    assert!(matches!(sample.class, SampleClass::Estimated { .. }));
    assert!(caps.contains(ToolCaps::pressure_only()));
    assert!(a.active_pen_pointer().is_some());
}

#[test]
fn pen_follow_up_sample_emits_revise_then_move() {
    let mut a = adapter();
    a.handle_mac_proximity(proximity(1, ToolKind::Pen, optimistic_pen_caps(), true), NOW);
    a.handle_mac_raw(raw(1, MacTabletPhase::Down, (10.0, 10.0), 0.0, 0.0), NOW);
    let _ = drained(&mut a);

    a.handle_mac_raw(raw(1, MacTabletPhase::Move, (11.0, 11.0), 0.01, 0.8), NOW);
    let events = drained(&mut a);
    assert_eq!(events.len(), 2, "revise + move");

    match &events[0] {
        StylusEvent::Revise { revision, .. } => {
            assert!((v(revision.pressure.unwrap()) - 0.8).abs() < f32::EPSILON);
        }
        other => panic!("expected Revise first, got {other:?}"),
    }
    let (sample, phase, _) = expect_sample(&events[1]);
    assert_eq!(phase, Phase::Move);
    assert_eq!(sample.class, SampleClass::Committed);
}

#[test]
fn pen_subsequent_moves_emit_committed_only() {
    let mut a = adapter();
    a.handle_mac_proximity(proximity(1, ToolKind::Pen, optimistic_pen_caps(), true), NOW);
    a.handle_mac_raw(raw(1, MacTabletPhase::Down, (0.0, 0.0), 0.0, 0.2), NOW);
    a.handle_mac_raw(raw(1, MacTabletPhase::Move, (1.0, 1.0), 0.01, 0.5), NOW);
    let _ = drained(&mut a);

    a.handle_mac_raw(raw(1, MacTabletPhase::Move, (2.0, 2.0), 0.02, 0.6), NOW);
    let events = drained(&mut a);
    assert_eq!(events.len(), 1, "no revise after pending cleared");
    let (sample, phase, _) = expect_sample(&events[0]);
    assert_eq!(phase, Phase::Move);
    assert_eq!(sample.class, SampleClass::Committed);
}

#[test]
fn pen_up_clears_active_pen_and_pending_estimated() {
    let mut a = adapter();
    a.handle_mac_proximity(proximity(1, ToolKind::Pen, optimistic_pen_caps(), true), NOW);
    a.handle_mac_raw(raw(1, MacTabletPhase::Down, (0.0, 0.0), 0.0, 0.2), NOW);
    let _ = drained(&mut a);

    a.handle_mac_raw(raw(1, MacTabletPhase::Up, (0.0, 0.0), 0.05, 0.7), NOW);
    let _ = drained(&mut a);

    assert!(a.active_pen_pointer().is_none());
    assert!(a.pending_count() == 0);
}

#[test]
fn first_sample_without_prior_proximity_uses_optimistic_caps() {
    let mut a = adapter();
    // Skip proximity — simulate app launched with pen already hovering.
    a.handle_mac_raw(raw(5, MacTabletPhase::Down, (0.0, 0.0), 0.0, 0.3), NOW);

    let events = drained(&mut a);
    assert_eq!(events.len(), 1);
    let (_, _, caps) = expect_sample(&events[0]);
    assert!(caps.contains(ToolCaps::pressure_only()));
    assert!(caps.contains(caps_of(&["tilt"])));
    assert!(caps.contains(caps_of(&["twist"])));
    assert!(caps.contains(caps_of(&["tangential"])));
}

#[test]
fn proximity_refreshes_caps_on_subsequent_strokes() {
    let mut a = adapter();
    a.handle_mac_raw(raw(7, MacTabletPhase::Down, (0.0, 0.0), 0.0, 0.3), NOW);
    a.handle_mac_raw(raw(7, MacTabletPhase::Up, (0.0, 0.0), 0.01, 0.3), NOW);
    let _ = drained(&mut a);

    // Proximity arrives with a stricter (no-TILT) cap set.
    a.handle_mac_proximity(proximity(7, ToolKind::Pen, ToolCaps::pressure_only(), true), NOW);
    a.handle_mac_raw(raw(7, MacTabletPhase::Down, (0.0, 0.0), 0.02, 0.4), NOW);
    let events = drained(&mut a);
    let (_, _, caps) = expect_sample(&events[0]);
    assert!(caps.contains(ToolCaps::pressure_only()));
    assert!(!caps.contains(caps_of(&["tilt"])), "second stroke uses real caps");
}

#[test]
fn pen_eraser_flip_via_proximity_changes_tool_kind() {
    let mut a = adapter();
    a.handle_mac_proximity(proximity(3, ToolKind::Pen, optimistic_pen_caps(), true), NOW);
    a.handle_mac_proximity(proximity(3, ToolKind::Eraser, optimistic_pen_caps(), true), NOW);

    a.handle_mac_raw(raw(3, MacTabletPhase::Down, (0.0, 0.0), 0.0, 0.5), NOW);
    let events = drained(&mut a);
    let (sample, _, _) = expect_sample(&events[0]);
    assert_eq!(sample.tool, ToolKind::Eraser);
    assert!(sample.buttons.inverted);
}

#[test]
fn active_pen_suppresses_winit_mouse_events() {
    let mut a = adapter();
    a.handle_mac_proximity(proximity(1, ToolKind::Pen, optimistic_pen_caps(), true), NOW);
    a.handle_mac_raw(raw(1, MacTabletPhase::Down, (0.0, 0.0), 0.0, 0.3), NOW);
    let _ = drained(&mut a);

    // Synthesize a winit MouseInput(Pressed) that *would* arrive from the
    // same physical pen press (tablet driver sends both).
    a.on_window_event(WindowInput::LeftButton { pressed: true }, NOW);
    a.on_window_event(WindowInput::CursorMoved { position: Point::new(d(1.0), d(1.0)) }, NOW);
    assert!(drained(&mut a).is_empty(), "mouse events must be suppressed during pen stroke");
}

#[test]
fn focus_loss_cancels_active_pen_stroke() {
    let mut a = adapter();
    a.handle_mac_proximity(proximity(1, ToolKind::Pen, optimistic_pen_caps(), true), NOW);
    a.handle_mac_raw(raw(1, MacTabletPhase::Down, (10.0, 10.0), 0.0, 0.3), NOW);
    let _ = drained(&mut a);

    a.on_focus_lost(NOW);

    let events = drained(&mut a);
    assert_eq!(events.len(), 1);
    let (_, phase, _) = expect_sample(&events[0]);
    assert_eq!(phase, Phase::Cancel);
    assert!(a.active_pen_pointer().is_none());
    assert!(a.pending_count() == 0);
}

#[test]
fn focus_loss_cancels_mouse_and_touches() {
    let mut a = adapter();
    a.on_window_event(WindowInput::CursorMoved { position: Point::new(d(5.0), d(5.0)) }, NOW);
    a.on_window_event(WindowInput::LeftButton { pressed: true }, NOW);
    a.on_window_event(WindowInput::Touch(TouchInput {
        phase: TouchPhase::Started,
        location: Point::new(d(1.0), d(1.0)),
        force: None,
        id: 7,
    }), NOW);
    let _ = drained(&mut a);

    a.on_focus_lost(NOW);

    let events = drained(&mut a);
    let phases: Vec<Phase> = events.iter().map(|e| expect_sample(e).1).collect();
    assert!(phases.iter().all(|p| *p == Phase::Cancel));
    assert_eq!(phases.len(), 2, "one cancel per active pointer");
    assert!(!a.is_mouse_down());
    assert!(a.touch_count() == 0);
}

#[test]
fn proximity_out_with_active_pen_synthesizes_cancel() {
    let mut a = adapter();
    a.handle_mac_proximity(proximity(1, ToolKind::Pen, optimistic_pen_caps(), true), NOW);
    a.handle_mac_raw(raw(1, MacTabletPhase::Down, (0.0, 0.0), 0.0, 0.3), NOW);
    let _ = drained(&mut a);

    // Pen leaves proximity while stroke is still active (Up was lost).
    a.handle_mac_proximity(proximity(1, ToolKind::Pen, optimistic_pen_caps(), false), NOW);

    let events = drained(&mut a);
    assert_eq!(events.len(), 1);
    let (_, phase, _) = expect_sample(&events[0]);
    assert_eq!(phase, Phase::Cancel);
    assert!(a.active_pen_pointer().is_none());
    assert!(a.pen(1).is_none(), "pen removed on proximity-out");
}

#[test]
fn mac_timestamps_are_monotonic_and_aligned_to_adapter_epoch() {
    let mut a = adapter();
    a.handle_mac_proximity(proximity(1, ToolKind::Pen, optimistic_pen_caps(), true), NOW);
    a.handle_mac_raw(raw(1, MacTabletPhase::Down, (0.0, 0.0), 100.0, 0.3), NOW);
    a.handle_mac_raw(raw(1, MacTabletPhase::Move, (1.0, 1.0), 100.016, 0.4), NOW);
    a.handle_mac_raw(raw(1, MacTabletPhase::Up, (2.0, 2.0), 100.032, 0.4), NOW);

    let events = drained(&mut a);
    let timestamps: Vec<u128> = events
        .iter()
        .filter_map(|e| {
            if let StylusEvent::Sample { sample, .. } = e {
                Some(sample.timestamp)
            } else {
                None
            }
        })
        .collect();
    assert_eq!(timestamps.len(), 3);
    for pair in timestamps.windows(2) {
        assert!(pair[0] <= pair[1]);
    }
}

#[test]
fn native_tabletpoint_moves_do_not_emit_extra_sample() {
    // Some drivers (Wacom) interleave NSTabletPoint events with
    // LeftMouseDragged events at the same physical instant; treating
    // both as sample sources produces a visible zig-zag / pixel-jagged
    // stroke. Native TabletPoint should refine a pending Estimated
    // sample but never emit a new Move Sample.
    let mut a = adapter();
    a.handle_mac_proximity(proximity(1, ToolKind::Pen, optimistic_pen_caps(), true), NOW);
    a.handle_mac_raw(raw(1, MacTabletPhase::Down, (10.0, 10.0), 0.0, 0.0), NOW);
    let _ = drained(&mut a); // drain Down

    // Native TabletPoint Move: should emit a Revise (pending from Down),
    // but no new Sample.
    a.handle_mac_raw(raw_with_origin(
        1,
        MacTabletPhase::Move,
        (10.5, 10.5),
        0.005,
        0.7,
        MacTabletOrigin::NativeTabletPoint,
    ), NOW);
    let events = drained(&mut a);
    assert_eq!(events.len(), 1, "native TabletPoint must emit only a Revise");
    match &events[0] {
        StylusEvent::Revise { revision, .. } => {
            assert!((v(revision.pressure.unwrap()) - 0.7).abs() < f32::EPSILON);
        }
        other => panic!("expected Revise, got {other:?}"),
    }

    // Mouse-subtype Move arriving immediately after must emit a Move
    // Sample (the authoritative position source), no duplicate Revise.
    a.handle_mac_raw(raw(1, MacTabletPhase::Move, (11.0, 11.0), 0.008, 0.75), NOW);
    let events = drained(&mut a);
    assert_eq!(events.len(), 1);
    let (_, phase, _) = expect_sample(&events[0]);
    assert_eq!(phase, Phase::Move);
}

#[test]
fn native_tabletpoint_without_pending_revise_emits_nothing() {
    // After the pending Estimated has been resolved, a stray native
    // TabletPoint during the stroke should not emit anything — it's
    // neither a new position nor a revision.
    let mut a = adapter();
    a.handle_mac_proximity(proximity(1, ToolKind::Pen, optimistic_pen_caps(), true), NOW);
    a.handle_mac_raw(raw(1, MacTabletPhase::Down, (0.0, 0.0), 0.0, 0.2), NOW);
    a.handle_mac_raw(raw(1, MacTabletPhase::Move, (1.0, 1.0), 0.01, 0.5), NOW);
    let _ = drained(&mut a);

    a.handle_mac_raw(raw_with_origin(
        1,
        MacTabletPhase::Move,
        (1.5, 1.5),
        0.012,
        0.6,
        MacTabletOrigin::NativeTabletPoint,
    ), NOW);
    assert!(drained(&mut a).is_empty(), "interleaved native TabletPoint must be silent");
}

#[test]
fn forces_are_parts_of_the_most() {
    let calibrated = |force: f64, max: f64| {
        v(normalize_force(Force::Calibrated { force: d(force), max_possible_force: d(max) }))
    };
    assert_eq!(calibrated(1.5, 6.0), 0.25);
    assert_eq!(calibrated(1.0, 3.0), (1.0_f64 / 3.0) as f32);
    assert_eq!(calibrated(1.0, 0.0), 0.0);
    assert_eq!(calibrated(1.0, -1.0), 0.0);
    assert_eq!(calibrated(1.0, f64::NAN), 0.0);
    assert_eq!(v(normalize_force(Force::Normalized(d(0.1)))), 0.1_f64 as f32);

    let mut a = adapter();
    a.on_window_event(WindowInput::Touch(TouchInput {
        phase: TouchPhase::Started,
        location: Point::new(d(1.0), d(1.0)),
        force: Some(Force::Calibrated { force: d(2.0), max_possible_force: d(4.0) }),
        id: 3,
    }), NOW);
    let events = drained(&mut a);
    let (sample, phase, caps) = expect_sample(&events[0]);
    assert_eq!(v(sample.pressure), 0.5);
    assert_eq!(phase, Phase::Down);
    assert!(caps == ToolCaps::pressure_only());
}

#[test]
fn a_pen_that_is_still_down_is_tracked() {
    let mut a = adapter();
    a.handle_mac_raw(raw(1, MacTabletPhase::Down, (1.0, 1.0), 0.0, 0.3), NOW);
    a.handle_mac_raw(raw(2, MacTabletPhase::Down, (2.0, 2.0), 0.1, 0.3), NOW);
    a.handle_mac_raw(raw(2, MacTabletPhase::Up, (2.0, 2.0), 0.2, 0.0), NOW);
    assert!(a.is_tracking_pointer());
    a.handle_mac_raw(raw(1, MacTabletPhase::Up, (1.0, 1.0), 0.3, 0.0), NOW);
    assert!(!a.is_tracking_pointer());
}

#[test]
fn focus_loss_cancels_every_pen() {
    let mut a = adapter();
    a.handle_mac_raw(raw(1, MacTabletPhase::Down, (1.0, 1.0), 0.0, 0.3), NOW);
    a.handle_mac_raw(raw(2, MacTabletPhase::Down, (2.0, 2.0), 0.1, 0.3), NOW);
    let _ = drained(&mut a);
    a.on_focus_lost(NOW);
    let events = drained(&mut a);
    let mut pointers: Vec<u64> = Vec::new();
    for event in &events {
        let (sample, phase, _) = expect_sample(event);
        assert_eq!(phase, Phase::Cancel);
        pointers.push(sample.pointer_id.0);
    }
    pointers.sort_unstable();
    assert_eq!(pointers, vec![1, 2]);
    assert!(!a.is_tracking_pointer());
    assert!(a.pen(1).is_some_and(|pen| pen.active_pointer_id.is_none()));
    assert_eq!(a.pending_count(), 0);
}

#[test]
fn a_down_is_revised_once() {
    let mut a = adapter();
    a.handle_mac_raw(raw(1, MacTabletPhase::Down, (1.0, 1.0), 0.0, 0.3), NOW);
    let _ = drained(&mut a);
    a.handle_mac_raw(raw(1, MacTabletPhase::Move, (2.0, 1.0), 0.1, 0.4), NOW);
    assert_eq!(drained(&mut a).len(), 2);
    a.handle_mac_raw(raw(1, MacTabletPhase::Move, (3.0, 1.0), 0.2, 0.4), NOW);
    assert_eq!(drained(&mut a).len(), 1);
}

#[test]
fn each_pen_has_its_own_estimate_whatever_else_comes_in() {
    let mut a = adapter();
    a.handle_mac_raw(raw(1, MacTabletPhase::Down, (0.0, 0.0), 0.0, 0.1), NOW);
    a.on_window_event(WindowInput::CursorMoved { position: Point::new(d(3.0), d(4.0)) }, NOW);
    a.handle_mac_raw(raw(2, MacTabletPhase::Down, (9.0, 0.0), 0.1, 0.2), NOW);
    let downs = drained(&mut a);
    assert_eq!(downs.len(), 2);
    assert_eq!(a.pending_count(), 2);
    let first = expect_sample(&downs[0]).0.pointer_id;
    let second = expect_sample(&downs[1]).0.pointer_id;
    assert_ne!(first, second);

    a.handle_mac_raw(raw(2, MacTabletPhase::Move, (9.0, 1.0), 0.2, 0.4), NOW);
    let native = MacTabletOrigin::NativeTabletPoint;
    a.handle_mac_raw(raw_with_origin(1, MacTabletPhase::Move, (1.0, 1.0), 0.3, 0.5, native), NOW);
    a.handle_mac_raw(raw(1, MacTabletPhase::Up, (1.0, 2.0), 0.4, 0.0), NOW);
    let events = drained(&mut a);
    assert_eq!(events.len(), 4);
    assert!(matches!(&events[0], StylusEvent::Revise { pointer_id, .. } if *pointer_id == second));
    let (sample, phase, _) = expect_sample(&events[1]);
    assert_eq!((sample.pointer_id, phase), (second, Phase::Move));
    assert!(matches!(&events[2], StylusEvent::Revise { pointer_id, .. } if *pointer_id == first));
    let (sample, phase, _) = expect_sample(&events[3]);
    assert_eq!((sample.pointer_id, phase), (first, Phase::Up));
    assert_eq!(a.pending_count(), 0);
}
