//! The stylus adapter: pens on Wayland.

use art_junk::adapter::wayland::{WaylandProximitySample, WaylandRawSample, WaylandTabletPhase};
use art_junk::adapter::{optimistic_pen_caps, StylusAdapter};
use art_junk::float32::Float32;
use art_junk::geometry::{Float64, Point};
use art_junk::sample::{Sample, SampleClass, ToolCaps, ToolKind};
use art_junk::stylus::{Phase, StylusEvent};

fn f(x: f32) -> Float32 {
    Float32::from_bits(x.to_bits())
}

fn v(x: Float32) -> f32 {
    f32::from_bits(x.to_bits())
}

fn d(x: f64) -> Float64 {
    Float64::from_bits(x.to_bits())
}

/// When every event of a test reaches the adapter.
const NOW: u128 = 5_000_000;

fn adapter() -> StylusAdapter {
    StylusAdapter::new()
}

fn drained(a: &mut StylusAdapter) -> Vec<StylusEvent> {
    a.drain()
}

fn expect_sample(ev: &StylusEvent) -> (&Sample, Phase, ToolCaps) {
    match ev {
        StylusEvent::Sample { sample, phase, caps } => (sample, *phase, *caps),
        other => panic!("expected Sample, got {other:?}"),
    }
}

fn wl_raw(
    device_id: u32,
    phase: WaylandTabletPhase,
    pos: (f64, f64),
    ts: f64,
    pressure: f32,
) -> WaylandRawSample {
    WaylandRawSample {
        position_physical_px: Point::new(d(pos.0), d(pos.1)),
        timestamp_secs: d(ts),
        pressure: f(pressure),
        tilt: None,
        twist_deg: None,
        tangential_pressure: None,
        button_mask: 0,
        device_id,
        hardware_serial: Some(0xABCD_1234_5678_9ABC),
        pointing_device_type: ToolKind::Pen,
        source_phase: phase,
    }
}

fn wl_prox(
    device_id: u32,
    tool: ToolKind,
    caps: ToolCaps,
    is_entering: bool,
) -> WaylandProximitySample {
    WaylandProximitySample {
        device_id,
        hardware_serial: Some(0xABCD_1234_5678_9ABC),
        pointing_device_type: tool,
        caps,
        is_entering,
    }
}

#[test]
fn wayland_down_emits_committed_sample_no_estimated() {
    let mut a = adapter();
    a.handle_wayland_proximity(wl_prox(1, ToolKind::Pen, ToolCaps::pressure_only(), true), NOW);
    a.handle_wayland_raw(wl_raw(1, WaylandTabletPhase::Down, (10.0, 20.0), 1.0, 0.5), NOW);

    let events = drained(&mut a);
    assert_eq!(events.len(), 1);
    let (sample, phase, caps) = expect_sample(&events[0]);
    assert_eq!(phase, Phase::Down);
    assert_eq!(sample.class, SampleClass::Committed);
    assert!(caps.contains(ToolCaps::pressure_only()));
    assert!(a.active_pen_pointer().is_some());
}

#[test]
fn wayland_frame_sequence_emits_one_sample_per_frame() {
    let mut a = adapter();
    a.handle_wayland_proximity(wl_prox(1, ToolKind::Pen, ToolCaps::pressure_only(), true), NOW);
    a.handle_wayland_raw(wl_raw(1, WaylandTabletPhase::Down, (0.0, 0.0), 0.0, 0.1), NOW);
    a.handle_wayland_raw(wl_raw(1, WaylandTabletPhase::Move, (1.0, 1.0), 0.008, 0.3), NOW);
    a.handle_wayland_raw(wl_raw(1, WaylandTabletPhase::Move, (2.0, 2.0), 0.016, 0.5), NOW);
    a.handle_wayland_raw(wl_raw(1, WaylandTabletPhase::Up, (3.0, 3.0), 0.024, 0.0), NOW);

    let events = drained(&mut a);
    let phases: Vec<Phase> = events.iter().map(|e| expect_sample(e).1).collect();
    assert_eq!(phases, vec![Phase::Down, Phase::Move, Phase::Move, Phase::Up]);
}

#[test]
fn wayland_pressure_clamps_to_unit_range() {
    let mut a = adapter();
    a.handle_wayland_proximity(wl_prox(1, ToolKind::Pen, ToolCaps::pressure_only(), true), NOW);
    a.handle_wayland_raw(wl_raw(1, WaylandTabletPhase::Down, (0.0, 0.0), 0.0, 1.7), NOW);

    let events = drained(&mut a);
    let (sample, _, _) = expect_sample(&events[0]);
    assert!((v(sample.pressure) - 1.0).abs() < f32::EPSILON);
}

#[test]
fn wayland_eraser_tool_flags_inverted() {
    let mut a = adapter();
    a.handle_wayland_proximity(wl_prox(2, ToolKind::Eraser, optimistic_pen_caps(), true), NOW);
    let mut raw = wl_raw(2, WaylandTabletPhase::Down, (0.0, 0.0), 0.0, 0.4);
    raw.pointing_device_type = ToolKind::Eraser;
    a.handle_wayland_raw(raw, NOW);

    let events = drained(&mut a);
    let (sample, _, _) = expect_sample(&events[0]);
    assert_eq!(sample.tool, ToolKind::Eraser);
    assert!(sample.buttons.inverted);
}

#[test]
fn wayland_proximity_out_mid_stroke_synthesizes_cancel() {
    let mut a = adapter();
    a.handle_wayland_proximity(wl_prox(1, ToolKind::Pen, optimistic_pen_caps(), true), NOW);
    a.handle_wayland_raw(wl_raw(1, WaylandTabletPhase::Down, (0.0, 0.0), 0.0, 0.4), NOW);
    let _ = drained(&mut a);

    a.handle_wayland_proximity(wl_prox(1, ToolKind::Pen, optimistic_pen_caps(), false), NOW);

    let events = drained(&mut a);
    assert_eq!(events.len(), 1);
    let (_, phase, _) = expect_sample(&events[0]);
    assert_eq!(phase, Phase::Cancel);
    assert!(a.active_pen_pointer().is_none());
    assert!(a.pen(1).is_none());
}

#[test]
fn wayland_hardware_serial_lands_on_pen_unique_id() {
    let mut a = adapter();
    let serial = 0xDEAD_BEEF_CAFE_BABE_u64;
    let prox = WaylandProximitySample {
        device_id: 9,
        hardware_serial: Some(serial),
        pointing_device_type: ToolKind::Pen,
        caps: ToolCaps::pressure_only(),
        is_entering: true,
    };
    a.handle_wayland_proximity(prox, NOW);

    let pen = a.pen(9).expect("pen state created by proximity");
    assert_eq!(pen.unique_id, Some(serial));
}

#[test]
fn wayland_timestamps_monotonic_and_anchored() {
    let mut a = adapter();
    a.handle_wayland_proximity(wl_prox(1, ToolKind::Pen, optimistic_pen_caps(), true), NOW);
    a.handle_wayland_raw(wl_raw(1, WaylandTabletPhase::Down, (0.0, 0.0), 1000.0, 0.3), NOW);
    a.handle_wayland_raw(wl_raw(1, WaylandTabletPhase::Move, (1.0, 1.0), 1000.008, 0.4), NOW);
    a.handle_wayland_raw(wl_raw(1, WaylandTabletPhase::Up, (2.0, 2.0), 1000.016, 0.4), NOW);

    let events = drained(&mut a);
    let timestamps: Vec<u128> = events
        .iter()
        .filter_map(|e| {
            if let StylusEvent::Sample { sample, .. } = e {
                Some(sample.timestamp)
            } else {
                None
            }
        })
        .collect();
    assert_eq!(timestamps.len(), 3);
    for pair in timestamps.windows(2) {
        assert!(pair[0] <= pair[1]);
    }
}
