//! The stylus adapter: pens on X11.

use art_junk::adapter::x11::{X11ProximitySample, X11RawSample, X11TabletPhase};
use art_junk::adapter::StylusAdapter;
use art_junk::float32::Float32;
use art_junk::geometry::{Float64, Point};
use art_junk::sample::{Sample, SampleClass, Tilt, ToolCaps, ToolKind};
use art_junk::stylus::{Phase, StylusEvent};

fn f(x: f32) -> Float32 {
    Float32::from_bits(x.to_bits())
}

fn d(x: f64) -> Float64 {
    Float64::from_bits(x.to_bits())
}

/// When every event of a test reaches the adapter.
const NOW: u128 = 5_000_000;

fn caps_of(names: &[&str]) -> ToolCaps {
    ToolCaps {
        pressure: names.contains(&"pressure"),
        tilt: names.contains(&"tilt"),
        twist: names.contains(&"twist"),
        tangential_pressure: names.contains(&"tangential"),
        hover: false,
        barrel_button: false,
    }
}

fn adapter() -> StylusAdapter {
    StylusAdapter::new()
}

fn drained(a: &mut StylusAdapter) -> Vec<StylusEvent> {
    a.drain()
}

fn expect_sample(ev: &StylusEvent) -> (&Sample, Phase, ToolCaps) {
    match ev {
        StylusEvent::Sample { sample, phase, caps } => (sample, *phase, *caps),
        other => panic!("expected Sample, got {other:?}"),
    }
}

fn x11_raw(
    device_id: u32,
    phase: X11TabletPhase,
    pos: (f64, f64),
    pressure: f32,
) -> X11RawSample {
    X11RawSample {
        position_physical_px: Point::new(d(pos.0), d(pos.1)),
        pressure: f(pressure),
        tilt: Tilt { x_deg: f(0.0), y_deg: f(0.0) },
        twist_deg: f(0.0),
        tangential_pressure: f(0.0),
        button_mask: 0,
        device_id,
        pointing_device_type: ToolKind::Pen,
        source_phase: phase,
    }
}

fn x11_proximity(device_id: u32, tool: ToolKind, is_entering: bool) -> X11ProximitySample {
    X11ProximitySample {
        device_id,
        unique_id: Some(0xBEEF),
        pointing_device_type: tool,
        caps: caps_of(&["pressure", "tilt"]),
        is_entering,
    }
}

#[test]
fn x11_down_move_up_emits_committed_samples() {
    let mut a = adapter();
    a.handle_x11_proximity(x11_proximity(1, ToolKind::Pen, true), NOW);
    a.handle_x11_raw(x11_raw(1, X11TabletPhase::Down, (10.0, 20.0), 0.3), NOW);
    a.handle_x11_raw(x11_raw(1, X11TabletPhase::Move, (11.0, 21.0), 0.5), NOW);
    a.handle_x11_raw(x11_raw(1, X11TabletPhase::Up, (11.0, 21.0), 0.5), NOW);

    let events = drained(&mut a);
    assert_eq!(events.len(), 3);
    let phases: Vec<Phase> = events.iter().map(|e| expect_sample(e).1).collect();
    assert_eq!(phases, vec![Phase::Down, Phase::Move, Phase::Up]);
    for ev in &events {
        let (sample, _, _) = expect_sample(ev);
        assert_eq!(sample.class, SampleClass::Committed);
    }
    assert!(a.active_pen_pointer().is_none());
}

#[test]
fn x11_proximity_out_with_active_stroke_cancels() {
    let mut a = adapter();
    a.handle_x11_proximity(x11_proximity(2, ToolKind::Pen, true), NOW);
    a.handle_x11_raw(x11_raw(2, X11TabletPhase::Down, (0.0, 0.0), 0.4), NOW);
    let _ = drained(&mut a);

    a.handle_x11_proximity(x11_proximity(2, ToolKind::Pen, false), NOW);
    let events = drained(&mut a);
    assert_eq!(events.len(), 1);
    let (_, phase, _) = expect_sample(&events[0]);
    assert_eq!(phase, Phase::Cancel);
    assert!(a.active_pen_pointer().is_none());
}

#[test]
fn x11_eraser_tool_yields_inverted_buttons() {
    let mut a = adapter();
    a.handle_x11_proximity(x11_proximity(3, ToolKind::Eraser, true), NOW);
    let mut r = x11_raw(3, X11TabletPhase::Down, (5.0, 5.0), 0.2);
    r.pointing_device_type = ToolKind::Eraser;
    a.handle_x11_raw(r, NOW);

    let events = drained(&mut a);
    let (sample, _, _) = expect_sample(&events[0]);
    assert_eq!(sample.tool, ToolKind::Eraser);
    assert!(sample.buttons.inverted);
}

#[test]
fn x11_move_without_prior_down_is_dropped() {
    let mut a = adapter();
    a.handle_x11_proximity(x11_proximity(4, ToolKind::Pen, true), NOW);
    a.handle_x11_raw(x11_raw(4, X11TabletPhase::Move, (1.0, 1.0), 0.5), NOW);
    assert!(drained(&mut a).is_empty());
}
