//! The decisions of the tablet backends.

use art_junk::adapter::mac::{MacTabletOrigin, MacTabletPhase};
use art_junk::adapter::windows::WindowsPointerPhase;
use art_junk::adapter::StylusAdapter;
use art_junk::float32::Float32;
use art_junk::geometry::{Float64, Point};
use art_junk::ios_touch::{check_view, IosStylusInstallError};
use art_junk::mac_tablet::{
    build_proximity, build_raw_sample, dispatch_event, map_capability_mask,
    map_pointing_device_type, route_event, u32_from_usize, MacEvent, MacEventRoute,
    MacEventSubtype, MacEventType, MacPointingDevice, MacTabletInstallError,
};
use art_junk::sample::ToolKind;
use art_junk::windows_tablet::{
    build_cancel, build_pen_history, build_pen_info, deliver_proximity, get_pointer_id_wparam,
    hash_source_device, install_precheck, optimistic_caps, performance_secs, MessageStep,
    PenInfo, PointerKind, PointerMessage, SubclassState, WindowsTabletInstallError,
};

fn f(x: f32) -> Float32 {
    Float32::from_bits(x.to_bits())
}

fn v(x: Float32) -> f32 {
    f32::from_bits(x.to_bits())
}

fn d(x: f64) -> Float64 {
    Float64::from_bits(x.to_bits())
}

fn w(x: Float64) -> f64 {
    f64::from_bits(x.to_bits())
}

fn point(x: f64, y: f64) -> Point {
    Point::new(d(x), d(y))
}

fn mac_event(event_type: MacEventType, subtype: MacEventSubtype) -> MacEvent {
    MacEvent {
        event_type,
        subtype,
        view_position: Some(point(3.0, 4.0)),
        backing_scale: d(2.0),
        timestamp_secs: d(77.5),
        pressure: f(0.5),
        tilt_x: d(0.5),
        tilt_y: d(-1.0),
        rotation: f(12.0),
        tangential_pressure: f(0.25),
        button_mask: 3,
        device_id: 9,
        unique_id: 0,
        pointing_device: MacPointingDevice::Eraser,
        capability_mask: 0x480,
        is_entering: true,
    }
}

#[test]
fn mac_events_find_their_route() {
    let sample = MacEventRoute::Sample(MacTabletOrigin::MouseSubtype);
    let native = MacEventRoute::Sample(MacTabletOrigin::NativeTabletPoint);
    for (event_type, subtype, route) in [
        (MacEventType::LeftMouseDown, MacEventSubtype::TabletPoint, sample),
        (MacEventType::MouseMoved, MacEventSubtype::TabletProximity, MacEventRoute::Proximity),
        (MacEventType::LeftMouseUp, MacEventSubtype::Other, MacEventRoute::Ignore),
        (MacEventType::TabletPoint, MacEventSubtype::Other, native),
        (MacEventType::TabletProximity, MacEventSubtype::Other, MacEventRoute::Proximity),
        (MacEventType::Other, MacEventSubtype::TabletPoint, MacEventRoute::Ignore),
    ] {
        assert_eq!(route_event(&mac_event(event_type, subtype)), route);
    }
}

#[test]
fn mac_samples_carry_the_fields_of_the_event() {
    let event = mac_event(MacEventType::LeftMouseDragged, MacEventSubtype::TabletPoint);
    let raw = build_raw_sample(&event, MacTabletOrigin::MouseSubtype).expect("a sample");
    assert_eq!(raw.source_phase, MacTabletPhase::Move);
    assert_eq!(v(raw.tilt.x_deg), 45.0);
    assert_eq!(v(raw.tilt.y_deg), -90.0);
    assert_eq!(v(raw.twist_deg), 12.0);
    assert_eq!(raw.pointing_device_type, ToolKind::Eraser);
    assert_eq!(raw.position_physical_px, point(6.0, 8.0));
    assert_eq!((raw.device_id, raw.button_mask, w(raw.timestamp_secs)), (9, 3, 77.5));
    let nowhere = MacEvent { view_position: None, ..event };
    assert!(build_raw_sample(&nowhere, MacTabletOrigin::MouseSubtype).is_none());
    let other = mac_event(MacEventType::Other, MacEventSubtype::TabletPoint);
    assert!(build_raw_sample(&other, MacTabletOrigin::MouseSubtype).is_none());
}

#[test]
fn mac_proximity_reads_identity_and_capabilities() {
    let event = mac_event(MacEventType::TabletProximity, MacEventSubtype::Other);
    let prox = build_proximity(&event);
    assert_eq!(prox.unique_id, None);
    assert!(prox.caps.pressure && prox.caps.tilt);
    assert!(!prox.caps.twist && !prox.caps.tangential_pressure);
    assert!(prox.is_entering);
    let known = build_proximity(&MacEvent { unique_id: 5, ..event });
    assert_eq!(known.unique_id, Some(5));
    assert!(map_capability_mask(0x2000).twist);
    assert!(map_capability_mask(0x800).tangential_pressure);
    assert!(map_capability_mask(0x100).tilt);
    assert!(map_capability_mask(0x40).barrel_button);
    assert_eq!(map_pointing_device_type(MacPointingDevice::Cursor), ToolKind::Mouse);
    assert_eq!(map_pointing_device_type(MacPointingDevice::Pen), ToolKind::Pen);
    assert_eq!(map_pointing_device_type(MacPointingDevice::Other), ToolKind::Unknown);
    assert_eq!(u32_from_usize(usize::MAX), u32::MAX);
    assert_eq!(u32_from_usize(17), 17);
}

#[test]
fn mac_events_reach_the_adapter() {
    let mut adapter = StylusAdapter::new();
    dispatch_event(
        &mac_event(MacEventType::TabletProximity, MacEventSubtype::Other),
        &mut adapter,
        1,
    );
    assert!(adapter.pen(9).is_some());
    dispatch_event(
        &mac_event(MacEventType::LeftMouseDown, MacEventSubtype::TabletPoint),
        &mut adapter,
        2,
    );
    assert_eq!(adapter.drain().len(), 1);
    dispatch_event(
        &mac_event(MacEventType::LeftMouseDragged, MacEventSubtype::Other),
        &mut adapter,
        3,
    );
    assert!(adapter.drain().is_empty());
}

#[test]
fn install_errors_explain_themselves() {
    assert_eq!(
        MacTabletInstallError::MonitorInstallFailed.message(),
        "NSEvent::addLocalMonitorForEventsMatchingMask_handler returned nil"
    );
    assert_eq!(
        WindowsTabletInstallError::SubclassFailed.message(),
        "SetWindowSubclass failed"
    );
    assert_eq!(
        WindowsTabletInstallError::NoQpcFrequency.message(),
        "QueryPerformanceFrequency returned zero (system timer unavailable)"
    );
    assert_eq!(WindowsTabletInstallError::NullHwnd.message(), "HWND is null");
    assert_eq!(IosStylusInstallError::NullView.message(), "UIView handle is null");
    assert_eq!(check_view(true), Err(IosStylusInstallError::NullView));
    assert_eq!(check_view(false), Ok(()));
    assert_eq!(
        install_precheck(true, Some(1)),
        Some(WindowsTabletInstallError::NullHwnd)
    );
    assert_eq!(
        install_precheck(false, Some(0)),
        Some(WindowsTabletInstallError::NoQpcFrequency)
    );
    assert_eq!(install_precheck(false, None), Some(WindowsTabletInstallError::NoQpcFrequency));
    assert_eq!(install_precheck(false, Some(10_000_000)), None);
}

fn pen_info(pointer_flags: u32, pen_flags: u32) -> PenInfo {
    PenInfo {
        pointer_flags,
        position: point(7.0, 8.0),
        performance_count: 30_000_000,
        pressure: 512,
        tilt_x: -30,
        tilt_y: 15,
        rotation: 359,
        pen_flags,
        source_device: 0x1_0000_0002,
    }
}

#[test]
fn windows_messages_find_their_step() {
    let mut state = SubclassState::new();
    assert_eq!(
        state.on_message(PointerMessage::Update, Some(PointerKind::Touch)),
        MessageStep::PassOn
    );
    assert_eq!(
        state.on_message(PointerMessage::DeviceInRange, None),
        MessageStep::Proximity { is_entering: true }
    );
    assert_eq!(
        state.on_message(PointerMessage::Update, Some(PointerKind::Touch)),
        MessageStep::Swallow
    );
    assert_eq!(
        state.on_message(PointerMessage::Down, Some(PointerKind::Pen)),
        MessageStep::Samples
    );
    assert_eq!(
        state.on_message(PointerMessage::CaptureChanged, Some(PointerKind::Pen)),
        MessageStep::Cancel
    );
    assert_eq!(state.on_message(PointerMessage::Up, None), MessageStep::PassOn);
    assert_eq!(
        state.on_message(PointerMessage::Other, Some(PointerKind::Pen)),
        MessageStep::PassOn
    );
    assert_eq!(
        state.on_message(PointerMessage::DeviceOutOfRange, None),
        MessageStep::Proximity { is_entering: false }
    );
    assert!(!state.pen_in_range);
    assert_eq!(state.on_message(PointerMessage::Destroy, None), MessageStep::Release);
}

#[test]
fn a_palm_is_not_heard_while_a_pen_is_near() {
    let mut state = SubclassState::new();
    assert_eq!(state.on_message(PointerMessage::Mouse, None), MessageStep::PassOn);
    state.on_message(PointerMessage::DeviceInRange, None);
    assert_eq!(state.on_message(PointerMessage::Mouse, None), MessageStep::Swallow);
    assert_eq!(
        state.on_message(PointerMessage::Down, Some(PointerKind::Touch)),
        MessageStep::Swallow
    );
    state.on_message(PointerMessage::DeviceOutOfRange, None);
    assert_eq!(state.on_message(PointerMessage::Mouse, None), MessageStep::PassOn);
}

#[test]
fn a_clock_without_a_frequency_gives_no_finite_time() {
    let raw = build_pen_info(&pen_info(0x6, 0), PointerMessage::Update, 0).expect("a sample");
    assert_eq!(w(raw.timestamp_secs), f64::INFINITY);
    assert_eq!(w(build_cancel(Some(pen_info(0, 0)), 0).timestamp_secs), f64::INFINITY);
}

#[test]
fn windows_pen_information_becomes_a_sample() {
    let raw = build_pen_info(&pen_info(0x6, 0x7), PointerMessage::Update, 10_000_000)
        .expect("a sample");
    assert_eq!(raw.source_phase, WindowsPointerPhase::Move);
    assert_eq!(w(raw.timestamp_secs), 3.0);
    assert_eq!(v(raw.pressure), 0.5);
    let tilt = raw.tilt.expect("a tilt");
    assert_eq!((v(tilt.x_deg), v(tilt.y_deg)), (-30.0, 15.0));
    assert_eq!(raw.twist_deg.map(v), Some(359.0));
    assert_eq!(raw.button_mask, 5);
    assert_eq!(raw.pointing_device_type, ToolKind::Eraser);
    assert_eq!(raw.device_id, 2_u32.wrapping_mul(0x9e37_79b9));

    let phase = |flags, msg| {
        build_pen_info(&pen_info(flags, 0), msg, 1).map(|raw| raw.source_phase)
    };
    assert_eq!(phase(0, PointerMessage::Down), Some(WindowsPointerPhase::Down));
    assert_eq!(phase(0, PointerMessage::Up), Some(WindowsPointerPhase::Up));
    assert_eq!(phase(2, PointerMessage::Update), Some(WindowsPointerPhase::Hover));
    assert_eq!(phase(0, PointerMessage::Update), None);
    let heavy = PenInfo { pressure: 5000, ..pen_info(4, 0) };
    let raw = build_pen_info(&heavy, PointerMessage::Update, 1).expect("a sample");
    assert_eq!(v(raw.pressure), 1.0);
}

#[test]
fn windows_history_is_put_in_the_order_of_time() {
    let at = |count, flags| PenInfo { performance_count: count, ..pen_info(flags, 0) };
    let newest_first = vec![at(30, 4), at(20, 0), at(10, 4)];
    let samples = build_pen_history(&newest_first, PointerMessage::Update, 10);
    let times: Vec<f64> = samples.iter().map(|s| w(s.timestamp_secs)).collect();
    assert_eq!(times, vec![1.0, 3.0]);
}

#[test]
fn windows_cancel_uses_what_is_known() {
    let c = build_cancel(Some(pen_info(0, 4)), 10_000_000);
    assert_eq!(c.source_phase, WindowsPointerPhase::Cancel);
    assert_eq!(c.position_physical_px, point(7.0, 8.0));
    assert_eq!(c.pointing_device_type, ToolKind::Eraser);
    let none = build_cancel(None, 10_000_000);
    assert_eq!(none.device_id, 0);
    assert_eq!(none.pointing_device_type, ToolKind::Pen);
    assert_eq!(w(none.timestamp_secs), 0.0);
}

#[test]
fn windows_numbers_stay_in_range() {
    assert_eq!(w(performance_secs(u64::MAX, 1)), u64::MAX as f64);
    assert_eq!(w(performance_secs(7, 3)), 7.0 / 3.0);
    assert_eq!(get_pointer_id_wparam(0x1234_5678), 0x5678);
    assert_eq!(hash_source_device(0), 0);
    assert_eq!(hash_source_device(1), 0x9e37_79b9);
    let caps = optimistic_caps();
    assert!(caps.pressure && caps.tilt && caps.twist && caps.hover);
    assert!(!caps.tangential_pressure);
}

#[test]
fn windows_proximity_reaches_the_adapter() {
    let mut adapter = StylusAdapter::new();
    deliver_proximity(&mut adapter, true, 5);
    assert!(adapter.pen(0).is_some());
    deliver_proximity(&mut adapter, false, 6);
    assert!(adapter.pen(0).is_none());
}
