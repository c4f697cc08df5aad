//! What each native event becomes in the stream: which phase it gives, for which pointer, where,
//! and how hard; and which gestures begin, go on and end with it.

use crate::adapter::mac::{MacTabletOrigin, MacTabletPhase, MacTabletRawSample};
use crate::adapter::wayland::{WaylandRawSample, WaylandTabletPhase};
use crate::adapter::web::{WebPointerType, WebRawSample, WebSourcePhase};
use crate::adapter::windows::{WindowsPointerPhase, WindowsRawSample};
use crate::adapter::x11::{X11RawSample, X11TabletPhase};
use crate::adapter::{
    drawing, held, AdapterView, Holder, PlatformTimestampAnchor, TouchInput, TouchPhase,
    WindowInput,
};
use crate::adapter_laws::pointers_wf;
use crate::brush::ONE;
use crate::float32::Float32;
use crate::float64::error::distance;
use crate::float64::nanos::SPAN_MAX;
use crate::float64::Float64;
use crate::geometry::Point;
use crate::mac_tablet::{MacEvent, MacEventRoute, MacEventType};
use crate::sample::{PointerId, Sample, SampleClass, Tilt, ToolKind};
use crate::stylus::{Phase, StylusEvent};
use crate::windows_tablet::{MessageStep, PenInfo, PointerKind, PointerMessage, SubclassState};
use vstd::arithmetic::power2::*;
use vstd::prelude::*;

verus! {

/// The sample of an event.
pub open spec fn sample_of(event: StylusEvent) -> Sample {
    event->sample
}

/// The event is a sample of the pointer in the phase.
pub open spec fn is_sample(event: StylusEvent, phase: Phase, pid: PointerId) -> bool {
    event matches StylusEvent::Sample { sample, phase: p, .. } && p == phase && sample.pointer_id
        == pid
}

/// The pressure of a sample is that which was reported, kept from 0 to 1.
pub open spec fn presses(sample: Sample, reported: Float32) -> bool {
    &&& Float32(0).at_most(reported) && reported.at_most(Float32(ONE)) ==> sample.pressure
        == reported
    &&& reported.below(Float32(0)) ==> sample.pressure == Float32(0)
    &&& Float32(ONE).below(reported) ==> sample.pressure == Float32(ONE)
}

/// The last event of the queue is new: a sample of the pointer in the phase.
pub open spec fn queued(v: AdapterView, w: AdapterView, phase: Phase, pid: PointerId) -> bool {
    &&& w.queue.len() > v.queue.len()
    &&& is_sample(w.queue.last(), phase, pid)
}

/// A gesture of the holder begins, under a pointer that was not handed out before.
pub open spec fn begins(v: AdapterView, w: AdapterView, h: Holder) -> bool {
    &&& queued(v, w, Phase::Down, PointerId(v.next_pointer))
    &&& held(w, h) == Some(PointerId(v.next_pointer))
}

/// The gesture of the holder goes on, if there is one; else nothing is queued.
pub open spec fn goes_on(v: AdapterView, w: AdapterView, h: Holder) -> bool {
    &&& held(w, h) == held(v, h)
    &&& match held(v, h) {
        Some(pid) => queued(v, w, Phase::Move, pid),
        None => w.queue == v.queue,
    }
}

/// The gesture of the holder ends, if there is one; else nothing is queued.
pub open spec fn ends(v: AdapterView, w: AdapterView, h: Holder, phase: Phase) -> bool {
    &&& held(w, h) is None
    &&& match held(v, h) {
        Some(pid) => queued(v, w, phase, pid) && w.active_pen != Some(pid),
        None => w.queue == v.queue,
    }
}

/// Of a tablet event of macOS: a down begins a stroke of the pen, a move goes on with it and an
/// up ends it. The sample is where the event was and presses as hard; a down is an estimate.
pub proof fn lemma_mac_events_draw(
    v: AdapterView,
    raw: MacTabletRawSample,
    keys: Seq<u64>,
    now: u128,
)
    requires
        raw.origin == MacTabletOrigin::MouseSubtype,
    ensures
        ({
            let w = v.after_mac_raw(raw, keys, now);
            let h = Holder::Pen(raw.device_id);
            let s = sample_of(w.queue.last());
            &&& raw.source_phase == MacTabletPhase::Down ==> {
                &&& begins(v, w, h)
                &&& w.active_pen == Some(PointerId(v.next_pointer))
                &&& s.class == (SampleClass::Estimated { update_index: v.next_update })
                &&& w.pending.contains_pair(v.next_update, PointerId(v.next_pointer))
            }
            &&& raw.source_phase == MacTabletPhase::Move ==> goes_on(v, w, h)
            &&& raw.source_phase == MacTabletPhase::Up ==> ends(v, w, h, Phase::Up)
            &&& raw.source_phase != MacTabletPhase::Down && held(v, h) is Some ==> s.class
                == SampleClass::Committed
            &&& raw.source_phase == MacTabletPhase::Down || held(v, h) is Some ==> {
                &&& s.position == raw.position_physical_px
                &&& presses(s, raw.pressure)
                &&& s.tilt == Some(raw.tilt)
                &&& s.twist_deg == Some(raw.twist_deg)
                &&& s.tangential_pressure == Some(raw.tangential_pressure)
                &&& s.buttons.contact
                &&& s.buttons.inverted == (s.tool == ToolKind::Eraser)
                &&& s.tool == if v.pens.contains_key(raw.device_id) {
                    v.pens[raw.device_id].tool
                } else {
                    raw.pointing_device_type
                }
            }
        }),
{
}

/// A native tablet point gives no sample, and begins and ends nothing that is not a down.
pub proof fn lemma_native_points_give_no_sample(
    v: AdapterView,
    raw: MacTabletRawSample,
    keys: Seq<u64>,
    now: u128,
)
    requires
        raw.origin == MacTabletOrigin::NativeTabletPoint,
        raw.source_phase != MacTabletPhase::Down,
    ensures
        ({
            let w = v.after_mac_raw(raw, keys, now);
            &&& forall|i: int|
                v.queue.len() <= i < w.queue.len() ==> (#[trigger] w.queue[i]) is Revise
            &&& forall|h: Holder| #[trigger] held(w, h) == held(v, h)
        }),
{
    let w = v.after_mac_raw(raw, keys, now);
    assert forall|h: Holder| #[trigger] held(w, h) == held(v, h) by {}
}

/// A mouse event of macOS whose button goes down.
pub open spec fn presses_button(t: MacEventType) -> bool {
    t is LeftMouseDown || t is RightMouseDown || t is OtherMouseDown
}

/// A mouse event of macOS whose button comes up.
pub open spec fn releases_button(t: MacEventType) -> bool {
    t is LeftMouseUp || t is RightMouseUp || t is OtherMouseUp
}

/// A mouse event of macOS that moves, with a button or without.
pub open spec fn moves_mouse(t: MacEventType) -> bool {
    t is LeftMouseDragged || t is RightMouseDragged || t is OtherMouseDragged || t is MouseMoved
}

/// A mouse event of macOS that carries a tablet point and has a position begins, goes on with or
/// ends the stroke of its pen, by its button. After a release the last event queued for the
/// pointer is an up, and the pen draws no more.
pub proof fn lemma_mac_buttons_draw(event: MacEvent, v: AdapterView, keys: Seq<u64>, now: u128)
    requires
        event.subtype is TabletPoint,
        presses_button(event.event_type) || releases_button(event.event_type) || moves_mouse(
            event.event_type,
        ),
        event.view_position is Some,
        event.device_id <= u32::MAX,
        v.awaited(event.raw_sample(MacTabletOrigin::MouseSubtype)->0, keys),
    ensures
        event.route() == MacEventRoute::Sample(MacTabletOrigin::MouseSubtype),
        event.raw_sample(MacTabletOrigin::MouseSubtype) is Some,
        ({
            let raw = event.raw_sample(MacTabletOrigin::MouseSubtype)->0;
            let w = v.after_mac_raw(raw, keys, now);
            let h = Holder::Pen(event.device_id as u32);
            let s = sample_of(w.queue.last());
            &&& presses_button(event.event_type) ==> begins(v, w, h)
            &&& moves_mouse(event.event_type) ==> goes_on(v, w, h)
            &&& releases_button(event.event_type) ==> ends(v, w, h, Phase::Up)
            &&& releases_button(event.event_type) && pointers_wf(v) ==> forall|pid: PointerId|
                held(v, h) == Some(pid) ==> !(#[trigger] drawing(w, pid))
            &&& presses_button(event.event_type) || held(v, h) is Some ==> {
                &&& s.position.x == (event.view_position->0).x.product(event.backing_scale)
                &&& s.position.y == (event.view_position->0).y.product(event.backing_scale)
                &&& presses(s, event.pressure)
                &&& s.twist_deg == Some(event.rotation)
                &&& s.tangential_pressure == Some(event.tangential_pressure)
                &&& s.tilt == Some(
                    Tilt { x_deg: in_degrees(event.tilt_x), y_deg: in_degrees(event.tilt_y) },
                )
            }
        }),
{
    let raw = event.raw_sample(MacTabletOrigin::MouseSubtype)->0;
    let w = v.after_mac_raw(raw, keys, now);
    let h = Holder::Pen(event.device_id as u32);
    lemma_mac_events_draw(v, raw, keys, now);
    if releases_button(event.event_type) && pointers_wf(v) {
        assert forall|pid: PointerId| held(v, h) == Some(pid) implies !(#[trigger] drawing(
            w,
            pid,
        )) by {
            assert forall|g: Holder| #[trigger] held(w, g) != Some(pid) by {
                if g != h {
                    assert(held(w, g) == held(v, g));
                    assert(held(v, g) is Some && held(v, g) == held(v, h) ==> g == h);
                }
            }
        }
    }
}

/// A ratio of full tilt in degrees.
pub open spec fn in_degrees(ratio: Float64) -> Float32 {
    Float32::narrowed(ratio).product(Float32(0x42b4_0000))
}

/// A native tablet point of macOS is a move that gives no sample of its own.
pub proof fn lemma_mac_points_are_moves(event: MacEvent)
    requires
        event.event_type is TabletPoint,
        event.view_position is Some,
    ensures
        event.route() == MacEventRoute::Sample(MacTabletOrigin::NativeTabletPoint),
        event.raw_sample(MacTabletOrigin::NativeTabletPoint) matches Some(raw)
            && raw.source_phase == MacTabletPhase::Move && raw.origin
            == MacTabletOrigin::NativeTabletPoint && raw.pressure == event.pressure,
{
}

/// An event of macOS without a position gives nothing; one that carries no tablet data is left
/// to the window system.
pub proof fn lemma_mac_events_without_data(event: MacEvent, origin: MacTabletOrigin)
    ensures
        event.view_position is None ==> event.raw_sample(origin) is None,
        event.event_type is Other ==> event.route() is Ignore,
        (presses_button(event.event_type) || releases_button(event.event_type) || moves_mouse(
            event.event_type,
        )) && event.subtype is Other ==> event.route() is Ignore,
{
}

/// A pen of macOS that comes near is known from then on by its tool and what it can report, and a
/// stroke of its goes on; one that goes away is forgotten, and a stroke of its is cancelled.
pub proof fn lemma_mac_proximity_is_noted(event: MacEvent, v: AdapterView, now: u128)
    requires
        event.event_type is TabletProximity || (presses_button(event.event_type)
            || releases_button(event.event_type) || moves_mouse(event.event_type))
            && event.subtype is TabletProximity,
        event.device_id <= u32::MAX,
    ensures
        event.route() == MacEventRoute::Proximity,
        ({
            let w = v.after_mac_proximity(event.proximity(), now);
            let d = event.device_id as u32;
            let h = Holder::Pen(d);
            &&& event.is_entering ==> {
                &&& w.pens.contains_key(d)
                &&& event.pointing_device is Pen ==> w.pens[d].tool == ToolKind::Pen
                &&& event.pointing_device is Eraser ==> w.pens[d].tool == ToolKind::Eraser
                &&& event.pointing_device is Cursor ==> w.pens[d].tool == ToolKind::Mouse
                &&& event.pointing_device is Other ==> w.pens[d].tool == ToolKind::Unknown
                &&& event.unique_id == 0 ==> w.pens[d].unique_id is None
                &&& event.unique_id != 0 ==> w.pens[d].unique_id == Some(event.unique_id)
                &&& w.pens[d].caps.pressure == (event.capability_mask & 0x400 != 0)
                &&& w.pens[d].caps.tilt == (event.capability_mask & 0x80 != 0
                    || event.capability_mask & 0x100 != 0)
                &&& w.pens[d].caps.twist == (event.capability_mask & 0x2000 != 0)
                &&& w.pens[d].caps.tangential_pressure == (event.capability_mask & 0x800 != 0)
                &&& w.pens[d].caps.barrel_button == (event.capability_mask & 0x40 != 0)
                &&& held(w, h) == held(v, h)
                &&& w.queue == v.queue
            }
            &&& !event.is_entering ==> {
                &&& !w.pens.contains_key(d)
                &&& ends(v, w, h, Phase::Cancel)
            }
        }),
{
}

/// Of a Wayland tablet event: a down begins a stroke of the pen, a move goes on with it and an up
/// ends it. The sample is where the event was and says what it said.
pub proof fn lemma_wayland_events_draw(v: AdapterView, raw: WaylandRawSample, now: u128)
    ensures
        ({
            let w = v.after_wayland_raw(raw, now);
            let h = Holder::Pen(raw.device_id);
            let s = sample_of(w.queue.last());
            &&& raw.source_phase == WaylandTabletPhase::Down ==> begins(v, w, h) && w.active_pen
                == Some(PointerId(v.next_pointer))
            &&& raw.source_phase == WaylandTabletPhase::Move ==> goes_on(v, w, h)
            &&& raw.source_phase == WaylandTabletPhase::Up ==> ends(v, w, h, Phase::Up)
            &&& raw.source_phase == WaylandTabletPhase::Down || held(v, h) is Some ==> {
                &&& s.position == raw.position_physical_px
                &&& presses(s, raw.pressure)
                &&& s.tilt == raw.tilt
                &&& s.twist_deg == raw.twist_deg
                &&& s.tangential_pressure == raw.tangential_pressure
                &&& s.class == SampleClass::Committed
                &&& s.buttons.contact
                &&& s.buttons.barrel == (raw.button_mask & 1 != 0)
                &&& s.buttons.secondary == (raw.button_mask & 2 != 0)
                &&& s.buttons.inverted == (s.tool == ToolKind::Eraser)
                &&& s.tool == if v.pens.contains_key(raw.device_id) {
                    v.pens[raw.device_id].tool
                } else {
                    raw.pointing_device_type
                }
            }
        }),
{
}

/// Of an X11 tablet event: a down begins a stroke of the pen, a move goes on with it and an up
/// ends it. The sample is where the event was and says what it said, at the time of receipt.
pub proof fn lemma_x11_events_draw(v: AdapterView, raw: X11RawSample, now: u128)
    ensures
        ({
            let w = v.after_x11_raw(raw, now);
            let h = Holder::Pen(raw.device_id);
            let s = sample_of(w.queue.last());
            &&& raw.source_phase == X11TabletPhase::Down ==> begins(v, w, h) && w.active_pen
                == Some(PointerId(v.next_pointer))
            &&& raw.source_phase == X11TabletPhase::Move ==> goes_on(v, w, h)
            &&& raw.source_phase == X11TabletPhase::Up ==> ends(v, w, h, Phase::Up)
            &&& raw.source_phase == X11TabletPhase::Down || held(v, h) is Some ==> {
                &&& s.position == raw.position_physical_px
                &&& s.timestamp == now
                &&& presses(s, raw.pressure)
                &&& s.tilt == Some(raw.tilt)
                &&& s.twist_deg == Some(raw.twist_deg)
                &&& s.tangential_pressure == Some(raw.tangential_pressure)
                &&& s.class == SampleClass::Committed
                &&& s.buttons.contact
                &&& s.buttons.barrel == (raw.button_mask & 2 != 0)
                &&& s.buttons.secondary == (raw.button_mask & 4 != 0)
                &&& s.buttons.inverted == (s.tool == ToolKind::Eraser)
                &&& s.tool == if v.pens.contains_key(raw.device_id) {
                    v.pens[raw.device_id].tool
                } else {
                    raw.pointing_device_type
                }
            }
        }),
{
}

/// Of a Windows pointer event: a down begins a stroke of the pen, a move goes on with it, an up
/// or a cancel ends it, and a hover is one without a stroke. The sample is where the event was
/// and says what it said.
pub proof fn lemma_windows_events_draw(v: AdapterView, raw: WindowsRawSample, now: u128)
    ensures
        ({
            let w = v.after_windows_raw(raw, now);
            let h = Holder::Pen(raw.device_id);
            let s = sample_of(w.queue.last());
            &&& raw.source_phase == WindowsPointerPhase::Down ==> begins(v, w, h) && w.active_pen
                == Some(PointerId(v.next_pointer))
            &&& raw.source_phase == WindowsPointerPhase::Move ==> goes_on(v, w, h)
            &&& raw.source_phase == WindowsPointerPhase::Up ==> ends(v, w, h, Phase::Up)
            &&& raw.source_phase == WindowsPointerPhase::Cancel ==> ends(v, w, h, Phase::Cancel)
            &&& raw.source_phase == WindowsPointerPhase::Hover ==> {
                &&& queued(v, w, Phase::Hover, PointerId(0))
                &&& held(w, h) == held(v, h)
            }
            &&& raw.source_phase == WindowsPointerPhase::Down || raw.source_phase
                == WindowsPointerPhase::Hover || held(v, h) is Some ==> {
                &&& s.position == raw.position_physical_px
                &&& presses(s, raw.pressure)
                &&& s.tilt == raw.tilt
                &&& s.twist_deg == raw.twist_deg
                &&& s.tangential_pressure is None
                &&& s.class == SampleClass::Committed
                &&& s.buttons.contact
                &&& s.buttons.barrel == (raw.button_mask & 1 != 0)
                &&& s.buttons.secondary == (raw.button_mask & 2 != 0)
                &&& s.buttons.inverted == (raw.button_mask & 4 != 0 || s.tool == ToolKind::Eraser)
                &&& s.tool == if raw.source_phase != WindowsPointerPhase::Hover
                    && v.pens.contains_key(raw.device_id) {
                    v.pens[raw.device_id].tool
                } else {
                    raw.pointing_device_type
                }
            }
        }),
{
}

/// Of a pointer event of a browser: a down begins a gesture of the pointer, a move goes on with
/// it, and so does a prediction, which is marked as one; an up or a cancel ends it; a hover of a
/// pen is one without a gesture. The sample is where the event was and says what it said.
pub proof fn lemma_web_events_draw(v: AdapterView, raw: WebRawSample, now: u128)
    ensures
        ({
            let w = v.after_web_raw(raw, now);
            let h = Holder::Browser(raw.pointer_id);
            let s = sample_of(w.queue.last());
            let phase = raw.source_phase;
            &&& phase == WebSourcePhase::Down ==> begins(v, w, h)
            &&& phase == WebSourcePhase::Down && raw.pointer_type == WebPointerType::Pen
                ==> w.active_pen == Some(PointerId(v.next_pointer))
            &&& phase == WebSourcePhase::Down && raw.pointer_type != WebPointerType::Pen
                ==> w.active_pen == v.active_pen
            &&& phase == WebSourcePhase::Move || phase == WebSourcePhase::Predicted ==> goes_on(
                v,
                w,
                h,
            )
            &&& phase == WebSourcePhase::Up ==> ends(v, w, h, Phase::Up)
            &&& phase == WebSourcePhase::Cancel ==> ends(v, w, h, Phase::Cancel)
            &&& phase == WebSourcePhase::Hover && raw.pointer_type == WebPointerType::Pen
                ==> queued(v, w, Phase::Hover, PointerId(0)) && held(w, h) == held(v, h)
            &&& phase == WebSourcePhase::Hover && raw.pointer_type != WebPointerType::Pen
                ==> w.queue == v.queue && held(w, h) == held(v, h)
            &&& phase == WebSourcePhase::Down || (phase != WebSourcePhase::Hover && held(
                v,
                h,
            ) is Some) || (phase == WebSourcePhase::Hover && raw.pointer_type
                == WebPointerType::Pen) ==> {
                &&& s.position == raw.position_physical_px
                &&& presses(s, raw.pressure)
                &&& s.tilt == raw.tilt
                &&& s.twist_deg == raw.twist_deg
                &&& s.tangential_pressure == raw.tangential_pressure
                &&& s.buttons.contact
                &&& s.buttons.barrel == (raw.button_mask & 2 != 0)
                &&& !s.buttons.secondary
                &&& s.buttons.inverted == (s.tool == ToolKind::Eraser)
                &&& (s.class == SampleClass::Predicted) == (phase == WebSourcePhase::Predicted)
                &&& phase != WebSourcePhase::Predicted ==> s.class == SampleClass::Committed
            }
            &&& phase == WebSourcePhase::Down ==> {
                &&& raw.pointer_type == WebPointerType::Pen && raw.button_mask & 0x20 == 0
                    ==> s.tool == ToolKind::Pen
                &&& raw.pointer_type == WebPointerType::Pen && raw.button_mask & 0x20 != 0
                    ==> s.tool == ToolKind::Eraser
                &&& raw.pointer_type == WebPointerType::Mouse ==> s.tool == ToolKind::Mouse
                &&& raw.pointer_type == WebPointerType::Touch ==> s.tool == ToolKind::Finger
                &&& raw.pointer_type == WebPointerType::Unknown ==> s.tool == ToolKind::Unknown
                &&& w.web_pointers[raw.pointer_id].tool == s.tool
            }
            &&& (phase == WebSourcePhase::Move || phase == WebSourcePhase::Predicted) && held(
                v,
                h,
            ) is Some ==> s.tool == v.web_pointers[raw.pointer_id].tool
                && w.web_pointers[raw.pointer_id].tool == s.tool
            &&& (phase == WebSourcePhase::Up || phase == WebSourcePhase::Cancel) && held(
                v,
                h,
            ) is Some ==> s.tool == v.web_pointers[raw.pointer_id].tool
        }),
{
}

/// A finger that is set down begins a gesture, one that moves goes on with it, and one that is
/// lifted or taken away ends it. The sample is where the finger was. While a pen draws, fingers
/// do nothing.
pub proof fn lemma_fingers_draw(v: AdapterView, touch: TouchInput, now: u128)
    ensures
        ({
            let w = v.after_window_event(WindowInput::Touch(touch), now);
            let h = Holder::Finger(touch.id);
            let s = sample_of(w.queue.last());
            &&& v.active_pen is Some ==> w == v
            &&& v.active_pen is None ==> {
                &&& touch.phase == TouchPhase::Started ==> begins(v, w, h)
                &&& touch.phase == TouchPhase::Moved ==> goes_on(v, w, h)
                &&& touch.phase == TouchPhase::Ended ==> ends(v, w, h, Phase::Up)
                &&& touch.phase == TouchPhase::Cancelled ==> ends(v, w, h, Phase::Cancel)
                &&& touch.phase == TouchPhase::Started || held(v, h) is Some ==> {
                    &&& s.position == touch.location
                    &&& s.timestamp == now
                    &&& s.tool == ToolKind::Finger
                    &&& touch.force is None ==> s.pressure == Float32(ONE)
                    &&& s.tilt is None && s.twist_deg is None && s.tangential_pressure is None
                    &&& s.class == SampleClass::Committed
                }
            }
        }),
{
}

/// The left button, pressed where the cursor was seen, begins a stroke of the mouse, a cursor
/// that moves goes on with it, and the button that comes up ends it, where the cursor is. While a
/// pen draws, the mouse does nothing.
pub proof fn lemma_mouse_draws(v: AdapterView, position: Point, now: u128)
    ensures
        ({
            let moved = v.after_window_event(WindowInput::CursorMoved { position }, now);
            let down = v.after_window_event(WindowInput::LeftButton { pressed: true }, now);
            let up = v.after_window_event(WindowInput::LeftButton { pressed: false }, now);
            &&& moved.cursor == Some(position)
            &&& moved.mouse_down == v.mouse_down
            &&& v.active_pen is Some ==> {
                &&& moved.queue == v.queue
                &&& down == v
                &&& up == v
            }
            &&& v.active_pen is None ==> {
                &&& v.mouse_down ==> mouse_sample(v, moved, Phase::Move, position, now)
                &&& !v.mouse_down ==> moved.queue == v.queue
                &&& !v.mouse_down && v.cursor is Some ==> down.mouse_down && mouse_sample(
                    v,
                    down,
                    Phase::Down,
                    v.cursor->0,
                    now,
                )
                &&& v.mouse_down || v.cursor is None ==> down == v
                &&& v.mouse_down && v.cursor is Some ==> !up.mouse_down && mouse_sample(
                    v,
                    up,
                    Phase::Up,
                    v.cursor->0,
                    now,
                )
                &&& !v.mouse_down ==> up == v
            }
        }),
{
}

/// The last event is new: a sample of the mouse at the position, pressed fully.
pub open spec fn mouse_sample(
    v: AdapterView,
    w: AdapterView,
    phase: Phase,
    position: Point,
    now: u128,
) -> bool {
    let s = sample_of(w.queue.last());
    &&& queued(v, w, phase, PointerId(0))
    &&& w.queue.len() == v.queue.len() + 1
    &&& s.position == position
    &&& s.timestamp == now
    &&& s.pressure == Float32(ONE)
    &&& s.tool == ToolKind::Mouse
    &&& s.buttons.contact
    &&& s.class == SampleClass::Committed
}

/// What a message of Windows with pen information gives: its down begins a stroke, its up ends
/// it, and any other is a move in contact, a hover in range, or nothing.
pub proof fn lemma_windows_messages_draw(info: PenInfo, msg: PointerMessage, frequency: u64)
    ensures
        ({
            let raw = info.raw_sample(msg, frequency);
            let phase = (raw->0).source_phase;
            let contact = info.pointer_flags & 0x4 != 0;
            let near = info.pointer_flags & 0x2 != 0;
            &&& msg is Down ==> raw is Some && phase == WindowsPointerPhase::Down
            &&& msg is Up ==> raw is Some && phase == WindowsPointerPhase::Up
            &&& !(msg is Down) && !(msg is Up) && contact ==> raw is Some && phase
                == WindowsPointerPhase::Move
            &&& !(msg is Down) && !(msg is Up) && !contact && near ==> raw is Some && phase
                == WindowsPointerPhase::Hover
            &&& !(msg is Down) && !(msg is Up) && !contact && !near ==> raw is None
            &&& raw matches Some(raw) ==> {
                &&& raw.position_physical_px == info.position
                &&& raw.pointing_device_type == if info.pen_flags & 0x4 != 0 {
                    ToolKind::Eraser
                } else {
                    ToolKind::Pen
                }
                &&& (raw.button_mask & 1 != 0) == (info.pen_flags & 1 != 0)
                &&& (raw.button_mask & 4 != 0) == (info.pen_flags & 2 != 0)
                &&& raw.button_mask & 2 == 0
                &&& raw.tilt matches Some(tilt) && tilt.x_deg == Float32::of_whole(
                    info.tilt_x as int,
                ) && tilt.y_deg == Float32::of_whole(info.tilt_y as int)
                &&& raw.twist_deg == Some(Float32::of_whole(info.rotation as int))
            }
        }),
{
    assert(5u32 & 1 != 0 && 5u32 & 4 != 0 && 5u32 & 2 == 0) by (bit_vector);
    assert(1u32 & 1 != 0 && 1u32 & 4 == 0 && 1u32 & 2 == 0) by (bit_vector);
    assert(4u32 & 1 == 0 && 4u32 & 4 != 0 && 4u32 & 2 == 0) by (bit_vector);
    assert(0u32 & 1 == 0 && 0u32 & 4 == 0 && 0u32 & 2 == 0) by (bit_vector);
}

/// Windows messages about a pen are taken in, one that loses the capture cancels its stroke, a
/// pen that comes near or goes away is noted, and what concerns neither a pen nor a resting palm
/// is passed on.
pub proof fn lemma_windows_messages_are_sorted(
    state: SubclassState,
    msg: PointerMessage,
    kind: Option<PointerKind>,
)
    ensures
        ({
            let step = state.step(msg, kind);
            let after = state.after(msg);
            let pen = kind == Some(PointerKind::Pen);
            &&& msg is DeviceInRange ==> after.pen_in_range && step == (MessageStep::Proximity {
                is_entering: true,
            })
            &&& msg is DeviceOutOfRange ==> !after.pen_in_range && step == (
            MessageStep::Proximity { is_entering: false })
            &&& !(msg is DeviceInRange) && !(msg is DeviceOutOfRange) ==> after == state
            &&& pen && (msg is Down || msg is Up || msg is Update || msg is Enter || msg is Leave)
                ==> step is Samples
            &&& pen && msg is CaptureChanged ==> step is Cancel
            &&& msg is Destroy ==> step is Release
            &&& msg is Other ==> step is PassOn
            &&& step is Swallow ==> state.pen_in_range
            &&& !state.pen_in_range && msg is Mouse ==> step is PassOn
            &&& !state.pen_in_range && !pen && (msg is Down || msg is Up || msg is Update
                || msg is Enter || msg is Leave || msg is CaptureChanged) ==> step is PassOn
        }),
{
}

/// The first sample of a platform clock is stamped with the time at which it came in. A later
/// one is stamped that many nanoseconds later, to the nearest, by which the clock has moved on.
pub proof fn lemma_session_time_follows_the_clock(
    first: Float64,
    first_now: u128,
    later: Float64,
    now: u128,
)
    requires
        first.finite(),
        later.finite(),
        later.difference(first).finite(),
        Float64(0).at_most(later.difference(first)),
        later.difference(first).as_nanos() < SPAN_MAX,
        first_now + SPAN_MAX <= u128::MAX,
    ensures
        ({
            let anchor = PlatformTimestampAnchor::anchored(None, first, first_now);
            let kept = PlatformTimestampAnchor::anchored(Some(anchor), later, now);
            let stamp = kept.translated(later);
            &&& anchor.translated(first) == first_now
            &&& stamp >= first_now
            &&& 2 * distance(
                (stamp - first_now) * pow2(1074),
                later.difference(first).value() * 1_000_000_000,
            ) <= pow2(1074)
        }),
{
    crate::float64::nanos::lemma_span_since_itself(first);
    crate::float64::nanos::lemma_nanos_are_nearest(later.difference(first));
    crate::float64::nanos::lemma_nanos_are_not_negative(later.difference(first));
}

} // verus!
