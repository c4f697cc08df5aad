//! What holds of the stream of stylus events as a whole: every stroke is a down, then moves,
//! then an up or a cancel, and the clocks of the platforms never run backwards.

use crate::adapter::mac::{MacTabletPhase, MacTabletRawSample};
use crate::adapter::wayland::WaylandRawSample;
use crate::adapter::web::{WebProximitySample, WebRawSample, WebSourcePhase};
use crate::adapter::windows::WindowsRawSample;
use crate::adapter::x11::X11RawSample;
use crate::adapter::{
    drawing, held, AdapterView, Holder, PenState, PlatformTimestampAnchor, TouchInput, TouchPhase,
    WindowInput,
};
use crate::float64::Float64;
use crate::geometry::Point;
use crate::sample::{PointerId, Sample, ToolCaps, ToolKind};
use crate::stylus::{Phase, StylusEvent};
use vstd::prelude::*;

verus! {

/// Every held pointer was handed out before, is not the mouse, and is held once.
pub open spec fn pointers_wf(v: AdapterView) -> bool {
    &&& v.next_pointer > 0
    &&& forall|h: Holder|
        (#[trigger] held(v, h)) is Some ==> 0 < (held(v, h)->0).0 < v.next_pointer
    &&& forall|h: Holder, g: Holder|
        (#[trigger] held(v, h)) is Some && held(v, h) == #[trigger] held(v, g) ==> h == g
}

/// An event queued on the way from `v` to `w` is in its place: a down begins a stroke of a
/// pointer that had none, a move or a revision goes on with one, an up or a cancel ends one.
pub open spec fn in_place(v: AdapterView, w: AdapterView, event: StylusEvent) -> bool {
    match event {
        StylusEvent::Sample { sample, phase, caps } => match phase {
            Phase::Hover => sample.pointer_id == PointerId(0),
            Phase::Down => !drawing(v, sample.pointer_id) && drawing(w, sample.pointer_id),
            Phase::Move => drawing(v, sample.pointer_id) && drawing(w, sample.pointer_id),
            Phase::Up | Phase::Cancel => drawing(v, sample.pointer_id) && !drawing(
                w,
                sample.pointer_id,
            ),
        },
        StylusEvent::Revise { pointer_id, .. } => drawing(v, pointer_id),
        StylusEvent::PencilInteraction { .. } => true,
    }
}

/// On the way from `v` to `w` events were only added to the queue, and each is in its place.
pub open spec fn orderly(v: AdapterView, w: AdapterView) -> bool {
    &&& pointers_wf(w)
    &&& v.queue.len() <= w.queue.len()
    &&& forall|i: int| 0 <= i < v.queue.len() ==> w.queue[i] == v.queue[i]
    &&& forall|i: int|
        v.queue.len() <= i < w.queue.len() ==> in_place(v, w, #[trigger] w.queue[i])
}

/// Every holder but `h` holds what it held.
spec fn same_but(v: AdapterView, w: AdapterView, h: Holder) -> bool {
    forall|g: Holder| g != h ==> #[trigger] held(w, g) == held(v, g)
}

spec fn all_same(v: AdapterView, w: AdapterView) -> bool {
    forall|g: Holder| #[trigger] held(w, g) == held(v, g)
}

proof fn lemma_taken_up(v: AdapterView, w: AdapterView, h: Holder)
    requires
        pointers_wf(v),
        v.next_pointer < u64::MAX,
        same_but(v, w, h),
        held(w, h) == Some(PointerId(v.next_pointer)),
        w.next_pointer == v.next_pointer + 1,
    ensures
        pointers_wf(w),
        !drawing(v, PointerId(v.next_pointer)),
        drawing(w, PointerId(v.next_pointer)),
{
    let pid = PointerId(v.next_pointer);
    assert forall|g: Holder| (#[trigger] held(w, g)) is Some implies 0 < (held(w, g)->0).0
        < w.next_pointer by {
        if g != h {
            assert(held(w, g) == held(v, g));
        }
    }
    assert forall|a: Holder, b: Holder|
        (#[trigger] held(w, a)) is Some && held(w, a) == #[trigger] held(w, b) implies a == b by {
        if a != h && b != h {
            assert(held(w, a) == held(v, a) && held(w, b) == held(v, b));
        } else if a != h {
            assert(held(w, a) == held(v, a));
        } else if b != h {
            assert(held(w, b) == held(v, b));
        }
    }
}

proof fn lemma_let_down(v: AdapterView, w: AdapterView, h: Holder, pid: PointerId)
    requires
        pointers_wf(v),
        same_but(v, w, h),
        held(v, h) == Some(pid),
        held(w, h) is None,
        w.next_pointer == v.next_pointer,
    ensures
        pointers_wf(w),
        drawing(v, pid),
        !drawing(w, pid),
{
    assert forall|g: Holder| (#[trigger] held(w, g)) is Some implies 0 < (held(w, g)->0).0
        < w.next_pointer by {
        assert(held(w, g) == held(v, g));
    }
    assert forall|a: Holder, b: Holder|
        (#[trigger] held(w, a)) is Some && held(w, a) == #[trigger] held(w, b) implies a == b by {
        assert(held(w, a) == held(v, a) && held(w, b) == held(v, b));
    }
    assert forall|g: Holder| #[trigger] held(w, g) != Some(pid) by {
        if g != h {
            assert(held(w, g) == held(v, g));
            assert(held(v, g) != held(v, h));
        }
    }
}

proof fn lemma_unmoved(v: AdapterView, w: AdapterView)
    requires
        pointers_wf(v),
        all_same(v, w),
        w.next_pointer == v.next_pointer,
    ensures
        pointers_wf(w),
        forall|h: Holder|
            (#[trigger] held(v, h)) is Some ==> drawing(v, held(v, h)->0) && drawing(
                w,
                held(v, h)->0,
            ),
        !drawing(v, PointerId(0)) || v.mouse_down,
        !drawing(w, PointerId(0)) || w.mouse_down,
{
    assert forall|g: Holder| (#[trigger] held(w, g)) is Some implies 0 < (held(w, g)->0).0
        < w.next_pointer by {
        assert(held(w, g) == held(v, g));
    }
    assert forall|a: Holder, b: Holder|
        (#[trigger] held(w, a)) is Some && held(w, a) == #[trigger] held(w, b) implies a == b by {
        assert(held(w, a) == held(v, a) && held(w, b) == held(v, b));
    }
    assert forall|h: Holder| (#[trigger] held(v, h)) is Some implies drawing(v, held(v, h)->0)
        && drawing(w, held(v, h)->0) by {
        assert(held(w, h) == held(v, h));
    }
}

/// Events of the window system come out in order.
pub proof fn lemma_window_events_are_orderly(v: AdapterView, event: WindowInput, now: u128)
    requires
        pointers_wf(v),
        v.next_pointer < u64::MAX,
    ensures
        orderly(v, v.after_window_event(event, now)),
{
    let w = v.after_window_event(event, now);
    match event {
        WindowInput::Touch(touch) if v.active_pen is None => {
            lemma_touch_is_orderly(v, touch, now);
        },
        _ => {
            lemma_unmoved(v, w);
        },
    }
}

proof fn lemma_touch_is_orderly(v: AdapterView, touch: TouchInput, now: u128)
    requires
        pointers_wf(v),
        v.next_pointer < u64::MAX,
    ensures
        orderly(v, v.after_touch(touch, now)),
{
    let w = v.after_touch(touch, now);
    let h = Holder::Finger(touch.id);
    match touch.phase {
        TouchPhase::Started => {
            assert(held(w, h) == Some(PointerId(v.next_pointer)));
            lemma_taken_up(v, w, h);
        },
        TouchPhase::Moved => {
            lemma_unmoved(v, w);
            if v.touches.contains_key(touch.id) {
                assert(held(v, h) == Some(v.touches[touch.id]));
            }
        },
        _ => {
            if v.touches.contains_key(touch.id) {
                lemma_let_down(v, w, h, v.touches[touch.id]);
            } else {
                lemma_unmoved(v, w);
            }
        },
    }
}

/// Tablet events of macOS come out in order.
pub proof fn lemma_mac_events_are_orderly(
    v: AdapterView,
    raw: MacTabletRawSample,
    keys: Seq<u64>,
    now: u128,
)
    requires
        pointers_wf(v),
        v.next_pointer < u64::MAX,
    ensures
        orderly(v, v.after_mac_raw(raw, keys, now)),
{
    let w = v.after_mac_raw(raw, keys, now);
    let h = Holder::Pen(raw.device_id);
    if raw.source_phase == MacTabletPhase::Down {
        assert(held(w, h) == Some(PointerId(v.next_pointer)));
        lemma_taken_up(v, w, h);
    } else {
        match held(v, h) {
            Some(pid) => {
                assert(drawing(v, pid));
                if raw.source_phase == MacTabletPhase::Up && raw.origin
                    == crate::adapter::mac::MacTabletOrigin::MouseSubtype {
                    lemma_let_down(v, w, h, pid);
                } else {
                    lemma_unmoved(v, w);
                }
            },
            None => {
                lemma_unmoved(v, w);
            },
        }
    }
}

/// A pen that is seen holds what it held.
proof fn lemma_seen_is_unmoved(
    v: AdapterView,
    timed: AdapterView,
    device: u32,
    fresh: PenState,
    position: Point,
)
    requires
        pointers_wf(v),
        fresh.active_pointer_id is None,
        timed.pens == v.pens,
        timed.touches == v.touches,
        timed.web_pointers == v.web_pointers,
        timed.next_pointer == v.next_pointer,
        timed.mouse_down == v.mouse_down,
        timed.queue == v.queue,
    ensures
        all_same(v, timed.pen_seen(device, fresh, position)),
        timed.pen_seen(device, fresh, position).pens.contains_key(device),
        timed.pen_seen(device, fresh, position).queue == v.queue,
        timed.pen_seen(device, fresh, position).mouse_down == v.mouse_down,
        timed.pen_seen(device, fresh, position).next_pointer == v.next_pointer,
        pointers_wf(timed.pen_seen(device, fresh, position)),
{
    lemma_unmoved(v, timed.pen_seen(device, fresh, position));
}

/// A sample of a pen that was seen comes out in order.
proof fn lemma_pen_sample_is_orderly(seen: AdapterView, device: u32, phase: Phase, sample: Sample)
    requires
        pointers_wf(seen),
        seen.next_pointer < u64::MAX,
        seen.pens.contains_key(device),
        phase != Phase::Hover,
        seen.pen_pointer(device, phase) == Some(sample.pointer_id),
    ensures
        orderly(seen, seen.after_pen_sample(device, phase, sample)),
{
    let w = seen.after_pen_sample(device, phase, sample);
    let h = Holder::Pen(device);
    if phase == Phase::Down {
        assert(held(w, h) == Some(PointerId(seen.next_pointer)));
        lemma_taken_up(seen, w, h);
    } else {
        assert(held(seen, h) == Some(sample.pointer_id));
        if phase == Phase::Move {
            lemma_unmoved(seen, w);
        } else {
            lemma_let_down(seen, w, h, sample.pointer_id);
        }
    }
}

/// What is in order after a step that moved no pointer is in order before it.
proof fn lemma_order_carries_over(v: AdapterView, seen: AdapterView, w: AdapterView)
    requires
        all_same(v, seen),
        seen.queue == v.queue,
        seen.mouse_down == v.mouse_down,
        orderly(seen, w),
    ensures
        orderly(v, w),
{
    assert forall|pid: PointerId| #[trigger] drawing(v, pid) == drawing(seen, pid) by {
        if exists|h: Holder| #[trigger] held(v, h) == Some(pid) {
            let h = choose|h: Holder| #[trigger] held(v, h) == Some(pid);
            assert(held(seen, h) == Some(pid));
        }
        if exists|h: Holder| #[trigger] held(seen, h) == Some(pid) {
            let h = choose|h: Holder| #[trigger] held(seen, h) == Some(pid);
            assert(held(v, h) == Some(pid));
        }
    }
}

/// Tablet events of Wayland come out in order.
pub proof fn lemma_wayland_events_are_orderly(v: AdapterView, raw: WaylandRawSample, now: u128)
    requires
        pointers_wf(v),
        v.next_pointer < u64::MAX,
    ensures
        orderly(v, v.after_wayland_raw(raw, now)),
{
    let anchor = PlatformTimestampAnchor::anchored(v.wayland_anchor, raw.timestamp_secs, now);
    let timed = AdapterView { wayland_anchor: Some(anchor), ..v };
    let seen = timed.pen_seen(raw.device_id, raw.fresh_pen(), raw.position_physical_px);
    lemma_seen_is_unmoved(v, timed, raw.device_id, raw.fresh_pen(), raw.position_physical_px);
    let phase = raw.source_phase.phase();
    if let Some(pid) = seen.pen_pointer(raw.device_id, phase) {
        let sample = raw.sample(
            anchor.translated(raw.timestamp_secs),
            pid,
            seen.pens[raw.device_id].tool,
        );
        lemma_pen_sample_is_orderly(seen, raw.device_id, phase, sample);
        lemma_order_carries_over(v, seen, v.after_wayland_raw(raw, now));
    }
}

/// Tablet events of X11 come out in order.
pub proof fn lemma_x11_events_are_orderly(v: AdapterView, raw: X11RawSample, now: u128)
    requires
        pointers_wf(v),
        v.next_pointer < u64::MAX,
    ensures
        orderly(v, v.after_x11_raw(raw, now)),
{
    let seen = v.pen_seen(raw.device_id, raw.fresh_pen(), raw.position_physical_px);
    lemma_seen_is_unmoved(v, v, raw.device_id, raw.fresh_pen(), raw.position_physical_px);
    let phase = raw.source_phase.phase();
    if let Some(pid) = seen.pen_pointer(raw.device_id, phase) {
        let sample = raw.sample(now, pid, seen.pens[raw.device_id].tool);
        lemma_pen_sample_is_orderly(seen, raw.device_id, phase, sample);
        lemma_order_carries_over(v, seen, v.after_x11_raw(raw, now));
    }
}

/// Pointer events of Windows come out in order.
pub proof fn lemma_windows_events_are_orderly(v: AdapterView, raw: WindowsRawSample, now: u128)
    requires
        pointers_wf(v),
        v.next_pointer < u64::MAX,
    ensures
        orderly(v, v.after_windows_raw(raw, now)),
{
    let anchor = PlatformTimestampAnchor::anchored(v.windows_anchor, raw.timestamp_secs, now);
    let timed = AdapterView { windows_anchor: Some(anchor), ..v };
    let seen = timed.pen_seen(raw.device_id, raw.fresh_pen(), raw.position_physical_px);
    lemma_seen_is_unmoved(v, timed, raw.device_id, raw.fresh_pen(), raw.position_physical_px);
    let phase = raw.source_phase.phase();
    if phase == Phase::Hover {
        lemma_unmoved(v, v.after_windows_raw(raw, now));
    } else if let Some(pid) = seen.pen_pointer(raw.device_id, phase) {
        let sample = raw.sample(
            anchor.translated(raw.timestamp_secs),
            pid,
            seen.pens[raw.device_id].tool,
        );
        lemma_pen_sample_is_orderly(seen, raw.device_id, phase, sample);
        lemma_order_carries_over(v, seen, v.after_windows_raw(raw, now));
    }
}

/// Browser pointer events come out in order.
pub proof fn lemma_web_events_are_orderly(v: AdapterView, raw: WebRawSample, now: u128)
    requires
        pointers_wf(v),
        v.next_pointer < u64::MAX,
    ensures
        orderly(v, v.after_web_raw(raw, now)),
{
    let w = v.after_web_raw(raw, now);
    let h = Holder::Browser(raw.pointer_id);
    match raw.source_phase {
        WebSourcePhase::Down => {
            assert(held(w, h) == Some(PointerId(v.next_pointer)));
            lemma_taken_up(v, w, h);
        },
        WebSourcePhase::Up | WebSourcePhase::Cancel => {
            if v.web_pointers.contains_key(raw.pointer_id) {
                lemma_let_down(v, w, h, v.web_pointers[raw.pointer_id].adapter_pointer_id);
            } else {
                lemma_unmoved(v, w);
            }
        },
        _ => {
            lemma_unmoved(v, w);
            if v.web_pointers.contains_key(raw.pointer_id) {
                assert(held(v, h) == Some(v.web_pointers[raw.pointer_id].adapter_pointer_id));
            }
        },
    }
}

/// A browser pointer that comes near or goes away keeps the order: a gesture that is cut off
/// is cancelled.
pub proof fn lemma_web_proximity_is_orderly(v: AdapterView, prox: WebProximitySample, now: u128)
    requires
        pointers_wf(v),
    ensures
        orderly(v, v.after_web_proximity(prox, now)),
{
    let w = v.after_web_proximity(prox, now);
    let h = Holder::Browser(prox.pointer_id);
    if v.web_pointers.contains_key(prox.pointer_id) && !prox.is_entering {
        lemma_let_down(v, w, h, v.web_pointers[prox.pointer_id].adapter_pointer_id);
    } else {
        lemma_unmoved(v, w);
    }
}

/// A pen that comes near keeps the order and cuts no stroke off.
pub proof fn lemma_entering_is_orderly(
    v: AdapterView,
    device: u32,
    caps: ToolCaps,
    tool: ToolKind,
    unique_id: Option<u64>,
)
    requires
        pointers_wf(v),
    ensures
        orderly(v, v.pen_entered(device, caps, tool, unique_id)),
        v.pen_entered(device, caps, tool, unique_id).queue == v.queue,
{
    lemma_unmoved(v, v.pen_entered(device, caps, tool, unique_id));
}

/// A pen that goes away keeps the order: its stroke, if one was under way, is cancelled, the
/// pen is forgotten, nothing of its is awaited any more and it does not drive the pointer.
pub proof fn lemma_leaving_is_orderly(v: AdapterView, device: u32, now: u128)
    requires
        pointers_wf(v),
    ensures
        orderly(v, v.pen_left(device, now)),
        !v.pen_left(device, now).pens.contains_key(device),
        held(v, Holder::Pen(device)) matches Some(pid) ==> {
            &&& v.pen_left(device, now).queue.len() == v.queue.len() + 1
            &&& v.pen_left(device, now).active_pen != Some(pid)
            &&& forall|k: u64|
                v.pen_left(device, now).pending.contains_key(k)
                    ==> #[trigger] v.pen_left(device, now).pending[k] != pid
        },
{
    let w = v.pen_left(device, now);
    let h = Holder::Pen(device);
    match held(v, h) {
        Some(pid) => {
            lemma_let_down(v, w, h, pid);
        },
        None => {
            lemma_unmoved(v, w);
        },
    }
}

/// While a pen drives the pointer, the window system's events put nothing in the queue.
pub proof fn lemma_pen_suppresses_mouse(v: AdapterView, event: WindowInput, now: u128)
    requires
        v.active_pen is Some,
    ensures
        v.after_window_event(event, now).queue == v.queue,
        v.after_window_event(event, now).mouse_down == v.mouse_down,
{
}

/// The event cancels the stroke of the pointer.
pub open spec fn cancels(event: StylusEvent, pid: PointerId) -> bool {
    event matches StylusEvent::Sample { sample, phase, .. } && phase == Phase::Cancel
        && sample.pointer_id == pid
}

/// The lists name each pen with a stroke under way, each finger and each pointer of the
/// browser once.
pub open spec fn lists_holders(
    v: AdapterView,
    devices: Seq<u32>,
    fingers: Seq<u64>,
    browsers: Seq<i32>,
) -> bool {
    &&& crate::adapter::lists_drawing_pens(devices, v.pens)
    &&& crate::adapter::lists_keys(fingers, v.touches)
    &&& crate::adapter::lists_browsers(browsers, v.web_pointers)
}

/// Entry `i` of the three lists one after the other.
spec fn holder_at(
    devices: Seq<u32>,
    fingers: Seq<u64>,
    browsers: Seq<i32>,
    i: int,
) -> Holder {
    if i < devices.len() {
        Holder::Pen(devices[i])
    } else if i < devices.len() + fingers.len() {
        Holder::Finger(fingers[i - devices.len()])
    } else {
        Holder::Browser(browsers[i - devices.len() - fingers.len()])
    }
}

/// The holders in the lists are distinct, and each holds a pointer.
proof fn lemma_holders_are_listed(
    v: AdapterView,
    devices: Seq<u32>,
    fingers: Seq<u64>,
    browsers: Seq<i32>,
)
    requires
        lists_holders(v, devices, fingers, browsers),
    ensures
        ({
            let n = devices.len() + fingers.len() + browsers.len();
            &&& forall|i: int|
                0 <= i < n ==> held(
                    v,
                    #[trigger] holder_at(devices, fingers, browsers, i),
                ) is Some
            &&& forall|i: int, j: int|
                0 <= i < j < n ==> #[trigger] holder_at(devices, fingers, browsers, i)
                    != #[trigger] holder_at(devices, fingers, browsers, j)
            &&& forall|h: Holder|
                (#[trigger] held(v, h)) is Some ==> exists|i: int|
                    0 <= i < n && #[trigger] holder_at(devices, fingers, browsers, i) == h
        }),
{
    let n = devices.len() + fingers.len() + browsers.len();
    let a = devices.len() as int;
    let b = fingers.len() as int;
    assert forall|i: int| 0 <= i < n implies held(
        v,
        #[trigger] holder_at(devices, fingers, browsers, i),
    ) is Some by {
        if i < a {
            assert(devices.contains(devices[i]));
        } else if i < a + b {
            assert(fingers.to_set().contains(fingers[i - a]));
        } else {
            assert(browsers.to_set().contains(browsers[i - a - b]));
        }
    }
    assert forall|h: Holder| (#[trigger] held(v, h)) is Some implies exists|i: int|
        0 <= i < n && #[trigger] holder_at(devices, fingers, browsers, i) == h by {
        match h {
            Holder::Pen(d) => {
                assert(devices.contains(d));
                let i = choose|i: int| 0 <= i < devices.len() && devices[i] == d;
                assert(holder_at(devices, fingers, browsers, i) == h);
            },
            Holder::Finger(f) => {
                assert(fingers.to_set().contains(f));
                let i = choose|i: int| 0 <= i < fingers.len() && fingers[i] == f;
                assert(holder_at(devices, fingers, browsers, a + i) == h);
            },
            Holder::Browser(w) => {
                assert(browsers.to_set().contains(w));
                let i = choose|i: int| 0 <= i < browsers.len() && browsers[i] == w;
                assert(holder_at(devices, fingers, browsers, a + b + i) == h);
            },
        }
    }
}

/// The events that losing the focus queues, one after the other.
proof fn lemma_focus_loss_queue(
    v: AdapterView,
    devices: Seq<u32>,
    fingers: Seq<u64>,
    browsers: Seq<i32>,
    now: u128,
)
    requires
        lists_holders(v, devices, fingers, browsers),
    ensures
        ({
            let w = v.after_focus_lost(devices, fingers, browsers, now);
            let mouse: int = if v.mouse_down { 1 } else { 0 };
            let n = devices.len() + fingers.len() + browsers.len();
            &&& w.queue.len() == v.queue.len() + mouse + n
            &&& forall|i: int| 0 <= i < v.queue.len() ==> w.queue[i] == v.queue[i]
            &&& v.mouse_down ==> cancels(w.queue[v.queue.len() as int], PointerId(0))
            &&& forall|i: int|
                0 <= i < n ==> cancels(
                    w.queue[v.queue.len() + mouse + i],
                    held(v, #[trigger] holder_at(devices, fingers, browsers, i))->0,
                )
        }),
{
    let w = v.after_focus_lost(devices, fingers, browsers, now);
    let mouse: int = if v.mouse_down { 1 } else { 0 };
    let n = devices.len() + fingers.len() + browsers.len();
    lemma_holders_are_listed(v, devices, fingers, browsers);
    assert forall|i: int| 0 <= i < n implies cancels(
        w.queue[v.queue.len() + mouse + i],
        held(v, #[trigger] holder_at(devices, fingers, browsers, i))->0,
    ) by {
        let at = v.queue.len() + mouse + i;
        assert(held(v, holder_at(devices, fingers, browsers, i)) is Some);
        if i < devices.len() {
            assert(w.queue[at] == crate::adapter::pen_cancels(devices, v.pens, now)[i]);
        } else if i < devices.len() + fingers.len() {
            assert(w.queue[at] == crate::adapter::finger_cancels(
                fingers,
                v.touches,
                crate::adapter::or_origin(v.cursor),
                now,
            )[i - devices.len()]);
        } else {
            assert(w.queue[at] == crate::adapter::browser_cancels(browsers, v.web_pointers, now)[i
                - devices.len() - fingers.len()]);
        }
    }
}

/// Losing the focus cancels each stroke that is under way, once, and queues nothing else.
/// Afterwards no pointer is in the middle of a gesture and no revision is awaited.
pub proof fn lemma_focus_loss_cancels(
    v: AdapterView,
    devices: Seq<u32>,
    fingers: Seq<u64>,
    browsers: Seq<i32>,
    now: u128,
)
    requires
        pointers_wf(v),
        lists_holders(v, devices, fingers, browsers),
    ensures
        ({
            let w = v.after_focus_lost(devices, fingers, browsers, now);
            &&& !w.tracking()
            &&& w.active_pen is None
            &&& w.pending.dom().len() == 0
            &&& v.queue.len() <= w.queue.len()
            &&& forall|i: int| 0 <= i < v.queue.len() ==> w.queue[i] == v.queue[i]
            &&& forall|i: int|
                v.queue.len() <= i < w.queue.len() ==> exists|pid: PointerId|
                    drawing(v, pid) && cancels(#[trigger] w.queue[i], pid)
            &&& forall|pid: PointerId|
                drawing(v, pid) ==> exists|i: int|
                    v.queue.len() <= i < w.queue.len() && cancels(#[trigger] w.queue[i], pid)
            &&& forall|i: int, j: int, pid: PointerId|
                v.queue.len() <= i < j < w.queue.len() && #[trigger] cancels(w.queue[i], pid)
                    ==> !(#[trigger] cancels(w.queue[j], pid))
        }),
{
    let w = v.after_focus_lost(devices, fingers, browsers, now);
    let mouse: int = if v.mouse_down { 1 } else { 0 };
    let start = v.queue.len() + mouse;
    lemma_holders_are_listed(v, devices, fingers, browsers);
    lemma_focus_loss_queue(v, devices, fingers, browsers, now);
    assert forall|pid: PointerId| !drawing(w, pid) by {
        assert forall|h: Holder| #[trigger] held(w, h) is None by {}
    }
    assert forall|i: int| v.queue.len() <= i < w.queue.len() implies exists|pid: PointerId|
        drawing(v, pid) && cancels(#[trigger] w.queue[i], pid) by {
        if i < start {
            assert(drawing(v, PointerId(0)) && cancels(w.queue[i], PointerId(0)));
        } else {
            let h = holder_at(devices, fingers, browsers, i - start);
            let pid = held(v, h)->0;
            assert(held(v, h) == Some(pid));
            assert(drawing(v, pid) && cancels(w.queue[i], pid));
        }
    }
    assert forall|pid: PointerId| drawing(v, pid) implies exists|i: int|
        v.queue.len() <= i < w.queue.len() && cancels(#[trigger] w.queue[i], pid) by {
        if pid == PointerId(0) && v.mouse_down {
            assert(cancels(w.queue[v.queue.len() as int], pid));
        } else {
            let h = choose|h: Holder| #[trigger] held(v, h) == Some(pid);
            assert(held(v, h) is Some);
            let i = choose|i: int|
                0 <= i < devices.len() + fingers.len() + browsers.len()
                    && #[trigger] holder_at(devices, fingers, browsers, i) == h;
            assert(cancels(w.queue[start + i], pid));
        }
    }
    assert forall|i: int, j: int, pid: PointerId|
        v.queue.len() <= i < j < w.queue.len() && #[trigger] cancels(w.queue[i], pid) implies
        !(#[trigger] cancels(w.queue[j], pid)) by {
        let g = holder_at(devices, fingers, browsers, j - start);
        assert(held(v, g) is Some);
        if i >= start {
            let h = holder_at(devices, fingers, browsers, i - start);
            assert(held(v, h) is Some);
            assert(g != h);
        }
    }
}

/// The cancels that losing the focus gives end strokes that were under way.
pub proof fn lemma_focus_loss_is_orderly(
    v: AdapterView,
    devices: Seq<u32>,
    fingers: Seq<u64>,
    browsers: Seq<i32>,
    now: u128,
)
    requires
        pointers_wf(v),
        lists_holders(v, devices, fingers, browsers),
    ensures
        orderly(v, v.after_focus_lost(devices, fingers, browsers, now)),
{
    let w = v.after_focus_lost(devices, fingers, browsers, now);
    lemma_focus_loss_cancels(v, devices, fingers, browsers, now);
    assert forall|h: Holder| #[trigger] held(w, h) is None by {}
    assert forall|i: int| v.queue.len() <= i < w.queue.len() implies in_place(
        v,
        w,
        #[trigger] w.queue[i],
    ) by {
        let pid = choose|pid: PointerId| drawing(v, pid) && cancels(w.queue[i], pid);
        assert(drawing(v, pid) && !drawing(w, pid));
    }
}

/// The index and the pointer of an estimate were handed out before.
pub open spec fn estimate_known(v: AdapterView, k: u64, pid: PointerId) -> bool {
    k < v.next_update && pid.0 < v.next_pointer
}

/// Every pending estimate was handed out before, for a pointer that was, and no pointer has
/// two of them.
pub open spec fn estimates_wf(v: AdapterView) -> bool {
    &&& forall|k: u64|
        v.pending.contains_key(k) ==> estimate_known(v, k, #[trigger] v.pending[k])
    &&& forall|j: u64, k: u64|
        v.pending.contains_key(j) && v.pending.contains_key(k) && #[trigger] v.pending[j]
            == #[trigger] v.pending[k] ==> j == k
}

/// Nothing new is awaited and no counter goes back.
proof fn lemma_estimates_dwindle(v: AdapterView, w: AdapterView)
    requires
        estimates_wf(v),
        w.next_update == v.next_update,
        w.next_pointer >= v.next_pointer,
        forall|k: u64|
            w.pending.contains_key(k) ==> v.pending.contains_key(k) && #[trigger] w.pending[k]
                == v.pending[k],
    ensures
        estimates_wf(w),
{
    assert forall|k: u64| w.pending.contains_key(k) implies estimate_known(
        w,
        k,
        #[trigger] w.pending[k],
    ) by {
        assert(w.pending[k] == v.pending[k]);
    }
    assert forall|j: u64, k: u64|
        w.pending.contains_key(j) && w.pending.contains_key(k) && #[trigger] w.pending[j]
            == #[trigger] w.pending[k] implies j == k by {
        assert(v.pending.contains_key(j) && w.pending[j] == v.pending[j]);
        assert(v.pending.contains_key(k) && w.pending[k] == v.pending[k]);
    }
}

/// A new adapter awaits nothing.
pub proof fn lemma_new_adapter_awaits_nothing()
    ensures
        estimates_wf(AdapterView::initial()),
{
}

/// Tablet events of macOS leave every pointer with at most one pending estimate.
pub proof fn lemma_mac_events_keep_estimates(
    v: AdapterView,
    raw: MacTabletRawSample,
    keys: Seq<u64>,
    now: u128,
)
    requires
        estimates_wf(v),
        v.next_pointer < u64::MAX,
        v.next_update < u64::MAX,
    ensures
        estimates_wf(v.after_mac_raw(raw, keys, now)),
{
    let w = v.after_mac_raw(raw, keys, now);
    if raw.source_phase == MacTabletPhase::Down {
        let pid = PointerId(v.next_pointer);
        assert(w.pending == v.pending.insert(v.next_update, pid));
        assert(w.next_update == v.next_update + 1 && w.next_pointer == v.next_pointer + 1);
        assert forall|k: u64| w.pending.contains_key(k) implies estimate_known(
            w,
            k,
            #[trigger] w.pending[k],
        ) by {
            if k != v.next_update {
                assert(v.pending.contains_key(k) && v.pending[k] == w.pending[k]);
            }
        }
        assert forall|j: u64, k: u64|
            w.pending.contains_key(j) && w.pending.contains_key(k) && #[trigger] w.pending[j]
                == #[trigger] w.pending[k] implies j == k by {
            if j != v.next_update {
                assert(v.pending.contains_key(j) && v.pending[j] == w.pending[j]);
            }
            if k != v.next_update {
                assert(v.pending.contains_key(k) && v.pending[k] == w.pending[k]);
            }
        }
    } else {
        lemma_estimates_dwindle(v, w);
    }
}

/// Whatever else comes in leaves every pointer with at most one pending estimate: events of
/// the window system, of the other tablets and of the browser, pens that come near or go away,
/// and losing the focus.
pub proof fn lemma_other_events_keep_estimates(v: AdapterView, now: u128)
    requires
        estimates_wf(v),
        v.next_pointer < u64::MAX,
    ensures
        forall|event: WindowInput| estimates_wf(#[trigger] v.after_window_event(event, now)),
        forall|raw: WaylandRawSample| estimates_wf(#[trigger] v.after_wayland_raw(raw, now)),
        forall|raw: X11RawSample| estimates_wf(#[trigger] v.after_x11_raw(raw, now)),
        forall|raw: WindowsRawSample| estimates_wf(#[trigger] v.after_windows_raw(raw, now)),
        forall|raw: WebRawSample| estimates_wf(#[trigger] v.after_web_raw(raw, now)),
        forall|prox: WebProximitySample|
            estimates_wf(#[trigger] v.after_web_proximity(prox, now)),
        forall|device: u32, caps: ToolCaps, tool: ToolKind, unique_id: Option<u64>|
            estimates_wf(#[trigger] v.pen_entered(device, caps, tool, unique_id)),
        forall|device: u32| estimates_wf(#[trigger] v.pen_left(device, now)),
        forall|devices: Seq<u32>, fingers: Seq<u64>, browsers: Seq<i32>|
            estimates_wf(#[trigger] v.after_focus_lost(devices, fingers, browsers, now)),
{
    assert forall|event: WindowInput| estimates_wf(
        #[trigger] v.after_window_event(event, now),
    ) by {
        lemma_estimates_dwindle(v, v.after_window_event(event, now));
    }
    assert forall|raw: WaylandRawSample| estimates_wf(#[trigger] v.after_wayland_raw(raw, now)) by {
        lemma_estimates_dwindle(v, v.after_wayland_raw(raw, now));
    }
    assert forall|raw: X11RawSample| estimates_wf(#[trigger] v.after_x11_raw(raw, now)) by {
        lemma_estimates_dwindle(v, v.after_x11_raw(raw, now));
    }
    assert forall|raw: WindowsRawSample| estimates_wf(#[trigger] v.after_windows_raw(raw, now)) by {
        lemma_estimates_dwindle(v, v.after_windows_raw(raw, now));
    }
    assert forall|raw: WebRawSample| estimates_wf(#[trigger] v.after_web_raw(raw, now)) by {
        lemma_estimates_dwindle(v, v.after_web_raw(raw, now));
    }
    assert forall|prox: WebProximitySample| estimates_wf(
        #[trigger] v.after_web_proximity(prox, now),
    ) by {
        lemma_estimates_dwindle(v, v.after_web_proximity(prox, now));
    }
    assert forall|device: u32, caps: ToolCaps, tool: ToolKind, unique_id: Option<u64>|
        estimates_wf(#[trigger] v.pen_entered(device, caps, tool, unique_id)) by {
        lemma_estimates_dwindle(v, v.pen_entered(device, caps, tool, unique_id));
    }
    assert forall|device: u32| estimates_wf(#[trigger] v.pen_left(device, now)) by {
        lemma_estimates_dwindle(v, v.pen_left(device, now));
    }
}

/// A tablet event of macOS revises at most one estimate: that of its stroke, if the stroke
/// still has one.
pub proof fn lemma_at_most_one_revision(v: AdapterView, raw: MacTabletRawSample, keys: Seq<u64>)
    requires
        estimates_wf(v),
        v.awaited(raw, keys),
    ensures
        keys.len() <= 1,
{
    if keys.len() > 1 {
        assert(keys.contains(keys[0]) && keys.contains(keys[1]));
        assert(v.pending[keys[0]] == v.pending[keys[1]]);
        assert(keys[0] == keys[1]);
    }
}

/// The first event of a macOS stroke after its down revises the down, and only it.
pub proof fn lemma_down_is_revised_once(
    v: AdapterView,
    down: MacTabletRawSample,
    next: MacTabletRawSample,
    keys: Seq<u64>,
    now: u128,
)
    requires
        estimates_wf(v),
        v.next_pointer < u64::MAX,
        v.next_update < u64::MAX,
        down.source_phase == MacTabletPhase::Down,
        next.source_phase != MacTabletPhase::Down,
        next.device_id == down.device_id,
        v.after_mac_raw(down, Seq::empty(), now).awaited(next, keys),
    ensures
        keys =~= seq![v.next_update],
{
    let w = v.after_mac_raw(down, Seq::empty(), now);
    lemma_mac_events_keep_estimates(v, down, Seq::empty(), now);
    lemma_at_most_one_revision(w, next, keys);
    assert(w.pending == v.pending.insert(v.next_update, PointerId(v.next_pointer)));
    assert(keys.contains(v.next_update));
}

/// Later events of the stroke revise nothing.
pub proof fn lemma_later_events_revise_nothing(
    v: AdapterView,
    first: MacTabletRawSample,
    awaited: Seq<u64>,
    next: MacTabletRawSample,
    keys: Seq<u64>,
    now: u128,
)
    requires
        first.source_phase != MacTabletPhase::Down,
        next.source_phase != MacTabletPhase::Down,
        next.device_id == first.device_id,
        v.after_mac_raw(first, awaited, now).awaited(next, keys),
    ensures
        keys.len() == 0,
{
    let w = v.after_mac_raw(first, awaited, now);
    if keys.len() > 0 {
        assert(keys.contains(keys[0]));
        assert(w.pending.contains_key(keys[0]));
    }
}

/// What another pen does leaves the estimate of a stroke pending.
pub proof fn lemma_other_pens_leave_estimates(
    v: AdapterView,
    raw: MacTabletRawSample,
    keys: Seq<u64>,
    device: u32,
    k: u64,
    now: u128,
)
    requires
        pointers_wf(v),
        estimates_wf(v),
        raw.device_id != device,
        held(v, Holder::Pen(device)) is Some,
        v.pending.contains_key(k),
        v.pending[k] == held(v, Holder::Pen(device))->0,
    ensures
        v.after_mac_raw(raw, keys, now).pending.contains_key(k),
        v.after_mac_raw(raw, keys, now).pending[k] == v.pending[k],
{
    let h = Holder::Pen(raw.device_id);
    if held(v, h) is Some {
        assert(held(v, h) != held(v, Holder::Pen(device)));
    }
}

/// A new adapter holds no pointer.
pub proof fn lemma_new_adapter_is_wf()
    ensures
        pointers_wf(AdapterView::initial()),
        forall|pid: PointerId| !drawing(AdapterView::initial(), pid),
{
}

/// Session times of one platform clock never run backwards and are never before its first
/// sample.
pub proof fn lemma_translated_times_are_monotone(
    anchor: PlatformTimestampAnchor,
    earlier: Float64,
    later: Float64,
)
    requires
        anchor.first_platform_secs.finite(),
        earlier.finite(),
        later.finite(),
        earlier.at_most(later),
    ensures
        anchor.adapter_nanos_at_first <= anchor.translated(earlier) <= anchor.translated(later),
{
    let first = anchor.first_platform_secs;
    crate::float64::nanos::lemma_later_is_further(earlier, later, first);
    crate::float64::nanos::lemma_nanos_are_not_negative(
        earlier.difference(first).larger(Float64(0)),
    );
}

/// An anchor, once set, stays.
pub proof fn lemma_anchor_is_kept(
    slot: Option<PlatformTimestampAnchor>,
    first: Float64,
    first_now: u128,
    second: Float64,
    second_now: u128,
)
    ensures
        PlatformTimestampAnchor::anchored(
            Some(PlatformTimestampAnchor::anchored(slot, first, first_now)),
            second,
            second_now,
        ) == PlatformTimestampAnchor::anchored(slot, first, first_now),
{
}

} // verus!
