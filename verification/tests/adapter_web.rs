//! The stylus adapter: pointers in a browser.

use art_junk::adapter::web::{
    WebPointerType, WebProximitySample, WebRawSample, WebSourcePhase,
};
use art_junk::adapter::{optimistic_pen_caps, StylusAdapter};
use art_junk::float32::Float32;
use art_junk::geometry::{Float64, Point};
use art_junk::sample::{PointerId, Sample, SampleClass, Tilt, ToolCaps, ToolKind};
use art_junk::stylus::{Phase, StylusEvent};

fn f(x: f32) -> Float32 {
    Float32::from_bits(x.to_bits())
}

fn d(x: f64) -> Float64 {
    Float64::from_bits(x.to_bits())
}

/// When every event of a test reaches the adapter.
const NOW: u128 = 5_000_000;

fn adapter() -> StylusAdapter {
    StylusAdapter::new()
}

fn drained(a: &mut StylusAdapter) -> Vec<StylusEvent> {
    a.drain()
}

fn expect_sample(ev: &StylusEvent) -> (&Sample, Phase, ToolCaps) {
    match ev {
        StylusEvent::Sample { sample, phase, caps } => (sample, *phase, *caps),
        other => panic!("expected Sample, got {other:?}"),
    }
}

fn web_raw(
    pointer_id: i32,
    phase: WebSourcePhase,
    pos: (f64, f64),
    ts: f64,
    pressure: f32,
    pointer_type: WebPointerType,
) -> WebRawSample {
    WebRawSample {
        position_physical_px: Point::new(d(pos.0), d(pos.1)),
        timestamp_secs: d(ts),
        pressure: f(pressure),
        tilt: Some(Tilt { x_deg: f(0.0), y_deg: f(0.0) }),
        twist_deg: Some(f(0.0)),
        tangential_pressure: None,
        button_mask: 0,
        pointer_id,
        pointer_type,
        source_phase: phase,
    }
}

#[test]
fn web_down_move_up_emits_committed_samples() {
    let mut a = adapter();
    a.handle_web_raw(web_raw(
        7,
        WebSourcePhase::Down,
        (0.0, 0.0),
        0.0,
        0.4,
        WebPointerType::Pen,
    ), NOW);
    a.handle_web_raw(web_raw(
        7,
        WebSourcePhase::Move,
        (1.0, 1.0),
        0.008,
        0.5,
        WebPointerType::Pen,
    ), NOW);
    a.handle_web_raw(web_raw(
        7,
        WebSourcePhase::Up,
        (1.0, 1.0),
        0.016,
        0.0,
        WebPointerType::Pen,
    ), NOW);

    let events = drained(&mut a);
    let phases: Vec<Phase> = events.iter().map(|e| expect_sample(e).1).collect();
    assert_eq!(phases, vec![Phase::Down, Phase::Move, Phase::Up]);
    for ev in &events {
        let (s, _, _) = expect_sample(ev);
        assert_eq!(s.class, SampleClass::Committed);
    }
    assert!(a.active_pen_pointer().is_none());
}

#[test]
fn web_predicted_samples_tagged_predicted_class() {
    let mut a = adapter();
    a.handle_web_raw(web_raw(
        1,
        WebSourcePhase::Down,
        (0.0, 0.0),
        0.0,
        0.3,
        WebPointerType::Pen,
    ), NOW);
    let _ = drained(&mut a);

    a.handle_web_raw(web_raw(
        1,
        WebSourcePhase::Predicted,
        (2.0, 2.0),
        0.016,
        0.4,
        WebPointerType::Pen,
    ), NOW);
    let events = drained(&mut a);
    let (sample, phase, _) = expect_sample(&events[0]);
    assert_eq!(phase, Phase::Move);
    assert_eq!(sample.class, SampleClass::Predicted);
}

#[test]
fn web_eraser_via_buttons_bit_0x20() {
    let mut a = adapter();
    let mut raw = web_raw(1, WebSourcePhase::Down, (0.0, 0.0), 0.0, 0.4, WebPointerType::Pen);
    raw.button_mask = 0x20;
    a.handle_web_raw(raw, NOW);

    let events = drained(&mut a);
    let (sample, _, _) = expect_sample(&events[0]);
    assert_eq!(sample.tool, ToolKind::Eraser);
    assert!(sample.buttons.inverted);
}

#[test]
fn web_pen_hover_emits_hover_phase() {
    let mut a = adapter();
    a.handle_web_raw(web_raw(
        1,
        WebSourcePhase::Hover,
        (5.0, 5.0),
        0.0,
        0.0,
        WebPointerType::Pen,
    ), NOW);

    let events = drained(&mut a);
    assert_eq!(events.len(), 1);
    let (sample, phase, _) = expect_sample(&events[0]);
    assert_eq!(phase, Phase::Hover);
    assert_eq!(sample.pointer_id, PointerId::mouse());
    assert!(a.active_pen_pointer().is_none());
}

#[test]
fn web_pointercancel_synthesizes_cancel() {
    let mut a = adapter();
    a.handle_web_raw(web_raw(
        1,
        WebSourcePhase::Down,
        (0.0, 0.0),
        0.0,
        0.3,
        WebPointerType::Pen,
    ), NOW);
    let _ = drained(&mut a);

    a.handle_web_raw(web_raw(
        1,
        WebSourcePhase::Cancel,
        (1.0, 1.0),
        0.016,
        0.0,
        WebPointerType::Pen,
    ), NOW);
    let events = drained(&mut a);
    let (_, phase, _) = expect_sample(&events[0]);
    assert_eq!(phase, Phase::Cancel);
    assert!(a.active_pen_pointer().is_none());
}

#[test]
fn web_proximity_out_mid_stroke_cancels() {
    let mut a = adapter();
    a.handle_web_raw(web_raw(
        1,
        WebSourcePhase::Down,
        (0.0, 0.0),
        0.0,
        0.3,
        WebPointerType::Pen,
    ), NOW);
    let _ = drained(&mut a);

    a.handle_web_proximity(WebProximitySample {
        pointer_id: 1,
        pointer_type: WebPointerType::Pen,
        caps: optimistic_pen_caps(),
        is_entering: false,
    }, NOW);
    let events = drained(&mut a);
    let (_, phase, _) = expect_sample(&events[0]);
    assert_eq!(phase, Phase::Cancel);
}

#[test]
fn web_mouse_pointer_maps_to_mouse_tool() {
    let mut a = adapter();
    a.handle_web_raw(web_raw(
        0,
        WebSourcePhase::Down,
        (0.0, 0.0),
        0.0,
        0.5,
        WebPointerType::Mouse,
    ), NOW);
    let events = drained(&mut a);
    let (sample, _, _) = expect_sample(&events[0]);
    assert_eq!(sample.tool, ToolKind::Mouse);
}

#[test]
fn web_move_without_prior_down_is_dropped() {
    let mut a = adapter();
    a.handle_web_raw(web_raw(
        1,
        WebSourcePhase::Move,
        (1.0, 1.0),
        0.0,
        0.5,
        WebPointerType::Pen,
    ), NOW);
    assert!(drained(&mut a).is_empty());
}

#[test]
fn web_touch_and_unknown_pointer_types_map_correctly() {
    let mut a = adapter();
    a.handle_web_raw(web_raw(
        2,
        WebSourcePhase::Down,
        (0.0, 0.0),
        0.0,
        0.5,
        WebPointerType::Touch,
    ), NOW);
    let events = drained(&mut a);
    assert_eq!(expect_sample(&events[0]).0.tool, ToolKind::Finger);

    let mut b = adapter();
    b.handle_web_raw(web_raw(
        3,
        WebSourcePhase::Down,
        (0.0, 0.0),
        0.0,
        0.5,
        WebPointerType::Unknown,
    ), NOW);
    let events = drained(&mut b);
    assert_eq!(expect_sample(&events[0]).0.tool, ToolKind::Unknown);
}

#[test]
fn focus_loss_cancels_pointers_of_the_browser() {
    let mut a = adapter();
    a.handle_web_raw(
        web_raw(7, WebSourcePhase::Down, (1.0, 1.0), 0.0, 0.3, WebPointerType::Pen),
        NOW,
    );
    a.handle_web_raw(
        web_raw(9, WebSourcePhase::Down, (2.0, 2.0), 0.1, 0.3, WebPointerType::Touch),
        NOW,
    );
    let _ = drained(&mut a);
    assert!(a.is_tracking_pointer());
    a.on_focus_lost(NOW);
    let events = drained(&mut a);
    assert_eq!(events.len(), 2);
    for event in &events {
        assert_eq!(expect_sample(event).1, Phase::Cancel);
    }
    assert!(!a.is_tracking_pointer());
    a.on_focus_lost(NOW);
    assert!(drained(&mut a).is_empty());
}
