//! What holds of an adapter whatever came in since it was made.

use crate::adapter::mac::{
    revisions, MacTabletOrigin, MacTabletPhase, MacTabletProximitySample, MacTabletRawSample,
};
use crate::adapter::wayland::{WaylandProximitySample, WaylandRawSample};
use crate::adapter::web::{WebProximitySample, WebRawSample};
use crate::adapter::windows::{WindowsProximitySample, WindowsRawSample};
use crate::adapter::x11::{X11ProximitySample, X11RawSample};
use crate::adapter::{held, AdapterView, Holder, WindowInput};
use crate::adapter_laws::{
    estimates_wf, lemma_at_most_one_revision, lemma_entering_is_orderly,
    lemma_focus_loss_is_orderly, lemma_leaving_is_orderly, lemma_mac_events_are_orderly,
    lemma_mac_events_keep_estimates, lemma_other_events_keep_estimates,
    lemma_wayland_events_are_orderly, lemma_web_events_are_orderly, lemma_web_proximity_is_orderly,
    lemma_window_events_are_orderly, lemma_windows_events_are_orderly, lemma_x11_events_are_orderly,
    lists_holders, orderly, pointers_wf,
};
use crate::sample::PointerId;
use crate::stylus::{Phase, StylusEvent};
use vstd::prelude::*;

verus! {

/// What an adapter can be handed.
pub enum Incoming {
    Window(WindowInput),
    /// With the estimates that the event revises, in the order in which they are revised.
    MacTablet(MacTabletRawSample, Seq<u64>),
    MacProximity(MacTabletProximitySample),
    Wayland(WaylandRawSample),
    WaylandProximity(WaylandProximitySample),
    X11(X11RawSample),
    X11Proximity(X11ProximitySample),
    Windows(WindowsRawSample),
    WindowsProximity(WindowsProximitySample),
    Web(WebRawSample),
    WebProximity(WebProximitySample),
    /// With the pens, fingers and pointers of the browser in the order of their cancels.
    FocusLost(Seq<u32>, Seq<u64>, Seq<i32>),
    /// The events queued so far are taken out.
    Drain,
}

/// The orders that an incoming event carries are ones in which the adapter can go through
/// what it holds.
pub open spec fn possible(v: AdapterView, event: Incoming) -> bool {
    match event {
        Incoming::MacTablet(raw, keys) => v.awaited(raw, keys),
        Incoming::FocusLost(devices, fingers, browsers) => {
            lists_holders(v, devices, fingers, browsers)
        },
        _ => true,
    }
}

/// The adapter after an event that came in at `now`.
#[verifier::opaque]
pub open spec fn after_incoming(v: AdapterView, event: Incoming, now: u128) -> AdapterView {
    match event {
        Incoming::Window(input) => v.after_window_event(input, now),
        Incoming::MacTablet(raw, keys) => v.after_mac_raw(raw, keys, now),
        Incoming::MacProximity(prox) => v.after_mac_proximity(prox, now),
        Incoming::Wayland(raw) => v.after_wayland_raw(raw, now),
        Incoming::WaylandProximity(prox) => v.after_wayland_proximity(prox, now),
        Incoming::X11(raw) => v.after_x11_raw(raw, now),
        Incoming::X11Proximity(prox) => v.after_x11_proximity(prox, now),
        Incoming::Windows(raw) => v.after_windows_raw(raw, now),
        Incoming::WindowsProximity(prox) => v.after_windows_proximity(prox, now),
        Incoming::Web(raw) => v.after_web_raw(raw, now),
        Incoming::WebProximity(prox) => v.after_web_proximity(prox, now),
        Incoming::FocusLost(devices, fingers, browsers) => {
            v.after_focus_lost(devices, fingers, browsers, now)
        },
        Incoming::Drain => AdapterView { queue: Seq::empty(), ..v },
    }
}

/// A new adapter after a run of events, each with the time at which it came in.
pub open spec fn after_run(run: Seq<(Incoming, u128)>) -> AdapterView
    decreases run.len(),
{
    if run.len() == 0 {
        AdapterView::initial()
    } else {
        after_incoming(after_run(run.drop_last()), run.last().0, run.last().1)
    }
}

/// Every event of the run is possible where it comes in.
pub open spec fn run_possible(run: Seq<(Incoming, u128)>) -> bool
    decreases run.len(),
{
    run.len() == 0 || run_possible(run.drop_last()) && possible(
        after_run(run.drop_last()),
        run.last().0,
    )
}

/// An event steps each counter at most once.
proof fn lemma_counters_step_by_one(v: AdapterView, event: Incoming, now: u128)
    requires
        v.next_pointer < u64::MAX,
        v.next_update < u64::MAX,
    ensures
        v.next_pointer <= after_incoming(v, event, now).next_pointer <= v.next_pointer + 1,
        v.next_update <= after_incoming(v, event, now).next_update <= v.next_update + 1,
{
    reveal(after_incoming);
}

/// An event keeps the pointers and the pending estimates of an adapter well-formed.
proof fn lemma_incoming_keeps_adapter_sound(v: AdapterView, event: Incoming, now: u128)
    requires
        pointers_wf(v),
        estimates_wf(v),
        possible(v, event),
        v.next_pointer < u64::MAX,
        v.next_update < u64::MAX,
    ensures
        pointers_wf(after_incoming(v, event, now)),
        estimates_wf(after_incoming(v, event, now)),
{
    lemma_incoming_is_orderly(v, event, now);
    lemma_incoming_keeps_estimates(v, event, now);
}

proof fn lemma_incoming_is_orderly(v: AdapterView, event: Incoming, now: u128)
    requires
        pointers_wf(v),
        possible(v, event),
        v.next_pointer < u64::MAX,
    ensures
        pointers_wf(after_incoming(v, event, now)),
        event !is Drain ==> orderly(v, after_incoming(v, event, now)),
{
    reveal(after_incoming);
    match event {
        Incoming::Window(input) => {
            lemma_window_events_are_orderly(v, input, now);
        },
        Incoming::MacTablet(raw, keys) => {
            lemma_mac_events_are_orderly(v, raw, keys, now);
        },
        Incoming::MacProximity(prox) => {
            lemma_entering_is_orderly(
                v,
                prox.device_id,
                prox.caps,
                prox.pointing_device_type,
                prox.unique_id,
            );
            lemma_leaving_is_orderly(v, prox.device_id, now);
        },
        Incoming::Wayland(raw) => {
            lemma_wayland_events_are_orderly(v, raw, now);
        },
        Incoming::WaylandProximity(prox) => {
            lemma_entering_is_orderly(
                v,
                prox.device_id,
                prox.caps,
                prox.pointing_device_type,
                prox.hardware_serial,
            );
            lemma_leaving_is_orderly(v, prox.device_id, now);
        },
        Incoming::X11(raw) => {
            lemma_x11_events_are_orderly(v, raw, now);
        },
        Incoming::X11Proximity(prox) => {
            lemma_entering_is_orderly(
                v,
                prox.device_id,
                prox.caps,
                prox.pointing_device_type,
                prox.unique_id,
            );
            lemma_leaving_is_orderly(v, prox.device_id, now);
        },
        Incoming::Windows(raw) => {
            lemma_windows_events_are_orderly(v, raw, now);
        },
        Incoming::WindowsProximity(prox) => {
            lemma_entering_is_orderly(
                v,
                prox.device_id,
                prox.caps,
                prox.pointing_device_type,
                v.unique_id_of(prox.device_id),
            );
            lemma_leaving_is_orderly(v, prox.device_id, now);
        },
        Incoming::Web(raw) => {
            lemma_web_events_are_orderly(v, raw, now);
        },
        Incoming::WebProximity(prox) => {
            lemma_web_proximity_is_orderly(v, prox, now);
        },
        Incoming::FocusLost(devices, fingers, browsers) => {
            lemma_focus_loss_is_orderly(v, devices, fingers, browsers, now);
        },
        Incoming::Drain => {
            let w = AdapterView { queue: Seq::empty(), ..v };
            assert forall|h: Holder| #[trigger] held(w, h) == held(v, h) by {}
        },
    }
}

proof fn lemma_incoming_keeps_estimates(v: AdapterView, event: Incoming, now: u128)
    requires
        estimates_wf(v),
        v.next_pointer < u64::MAX,
        v.next_update < u64::MAX,
    ensures
        estimates_wf(after_incoming(v, event, now)),
{
    reveal(after_incoming);
    lemma_other_events_keep_estimates(v, now);
    if let Incoming::MacTablet(raw, keys) = event {
        lemma_mac_events_keep_estimates(v, raw, keys, now);
    }
}

/// Whatever came in, as long as the counters last: every held pointer was handed out before
/// and is held once, and no pointer has two pending estimates.
pub proof fn lemma_every_adapter_is_sound(run: Seq<(Incoming, u128)>)
    requires
        run_possible(run),
        run.len() + 1 <= u64::MAX,
    ensures
        pointers_wf(after_run(run)),
        estimates_wf(after_run(run)),
        after_run(run).next_pointer <= run.len() + 1,
        after_run(run).next_update <= run.len() + 1,
    decreases run.len(),
{
    if run.len() > 0 {
        let before = after_run(run.drop_last());
        lemma_every_adapter_is_sound(run.drop_last());
        lemma_incoming_keeps_adapter_sound(before, run.last().0, run.last().1);
        lemma_counters_step_by_one(before, run.last().0, run.last().1);
    }
}

/// Whatever came in before, every event that an incoming one gives is in its place in its
/// stroke.
pub proof fn lemma_every_stream_is_orderly(
    run: Seq<(Incoming, u128)>,
    event: Incoming,
    now: u128,
)
    requires
        run_possible(run),
        run.len() + 2 <= u64::MAX,
        possible(after_run(run), event),
        event !is Drain,
    ensures
        orderly(after_run(run), after_incoming(after_run(run), event, now)),
{
    lemma_every_adapter_is_sound(run);
    lemma_incoming_is_orderly(after_run(run), event, now);
}

/// Whatever came in before, a tablet event of macOS that goes on with a stroke first revises
/// the estimate of that stroke, if one is pending and no other, and then gives its own sample,
/// unless it is a native tablet point. Afterwards the stroke has no estimate pending.
pub proof fn lemma_every_mac_event_revises_then_samples(
    run: Seq<(Incoming, u128)>,
    raw: MacTabletRawSample,
    keys: Seq<u64>,
    pid: PointerId,
    now: u128,
)
    requires
        run_possible(run),
        run.len() + 1 <= u64::MAX,
        after_run(run).awaited(raw, keys),
        raw.source_phase != MacTabletPhase::Down,
        held(after_run(run), Holder::Pen(raw.device_id)) == Some(pid),
    ensures
        ({
            let v = after_run(run);
            let w = v.after_mac_raw(raw, keys, now);
            let told = v.queue + revisions(keys, pid, raw.revision());
            &&& keys.len() <= 1
            &&& forall|k: u64| #[trigger]
                keys.contains(k) <==> v.pending.contains_key(k) && v.pending[k] == pid
            &&& forall|k: u64|
                w.pending.contains_key(k) ==> #[trigger] w.pending[k] != pid
            &&& if raw.origin == MacTabletOrigin::NativeTabletPoint {
                w.queue == told
            } else {
                &&& w.queue.len() == told.len() + 1
                &&& w.queue.drop_last() == told
                &&& w.queue.last() matches StylusEvent::Sample { sample, phase, .. }
                &&& sample.pointer_id == pid
                &&& phase == (if raw.source_phase == MacTabletPhase::Move {
                    Phase::Move
                } else {
                    Phase::Up
                })
            }
        }),
{
    let v = after_run(run);
    let w = v.after_mac_raw(raw, keys, now);
    lemma_every_adapter_is_sound(run);
    lemma_at_most_one_revision(v, raw, keys);
    if raw.origin != MacTabletOrigin::NativeTabletPoint {
        assert(w.queue.drop_last() =~= v.queue + revisions(keys, pid, raw.revision()));
    }
}

} // verus!
