//! macOS tablet events. The first sample of a stroke arrives before the hardware has fully
//! reported, so it is sent as an estimate and refined by the next event.

use crate::adapter::{AdapterView, PenState, PlatformTimestampAnchor, StylusAdapter};
use crate::float32::Float32;
use crate::float64::Float64;
use crate::geometry::Point;
use crate::sample::{
    PointerId, Sample, SampleClass, SampleRevision, StylusButtons, Tilt, ToolCaps, ToolKind,
};
use crate::stylus::{Phase, StylusEvent};
use vstd::prelude::*;

verus! {

/// How a tablet event arrived.
#[derive(Debug, Clone, Copy, PartialEq, Eq, Structural)]
pub enum MacTabletOrigin {
    /// On a regular mouse event.
    MouseSubtype,
    /// As a native tablet point. These are interleaved with mouse events of the same instant,
    /// so they refine an estimate but give no sample of their own.
    NativeTabletPoint,
}

#[derive(Debug, Clone, Copy, PartialEq, Eq, Structural)]
pub enum MacTabletPhase {
    Down,
    Move,
    Up,
}

/// A tablet event as the backend hands it over.
#[derive(Debug, Clone, Copy, PartialEq)]
pub struct MacTabletRawSample {
    pub position_physical_px: Point,
    /// Seconds since the system was booted.
    pub timestamp_secs: Float64,
    pub pressure: Float32,
    pub tilt: Tilt,
    pub twist_deg: Float32,
    pub tangential_pressure: Float32,
    pub button_mask: u32,
    pub device_id: u32,
    pub pointing_device_type: ToolKind,
    pub origin: MacTabletOrigin,
    pub source_phase: MacTabletPhase,
}

/// A pen that comes near or goes away.
#[derive(Debug, Clone, Copy, PartialEq)]
pub struct MacTabletProximitySample {
    pub device_id: u32,
    pub unique_id: Option<u64>,
    pub pointing_device_type: ToolKind,
    pub caps: ToolCaps,
    pub is_entering: bool,
}

impl MacTabletRawSample {
    /// The pen as first assumed.
    pub open spec fn fresh_pen(self) -> PenState {
        PenState {
            active_pointer_id: None,
            caps: crate::adapter::optimistic_caps(),
            tool: self.pointing_device_type,
            unique_id: None,
            last_position: None,
        }
    }

    /// The sample that the event stands for.
    pub open spec fn sample(self, timestamp: u128, pid: PointerId, tool: ToolKind) -> Sample {
        Sample {
            pressure: self.pressure.clamped(Float32(0), Float32(0x3f80_0000)),
            tilt: Some(self.tilt),
            twist_deg: Some(self.twist_deg),
            tangential_pressure: Some(self.tangential_pressure),
            buttons: StylusButtons {
                contact: true,
                barrel: self.button_mask & 0x1 != 0,
                secondary: self.button_mask & 0x2 != 0,
                inverted: tool == ToolKind::Eraser,
            },
            ..Sample::of_pen(self.position_physical_px, timestamp, pid, tool)
        }
    }

    /// What the event says of an earlier estimate.
    pub open spec fn revision(self) -> SampleRevision {
        SampleRevision {
            pressure: Some(self.pressure),
            tilt: Some(self.tilt),
            twist_deg: Some(self.twist_deg),
            tangential_pressure: Some(self.tangential_pressure),
        }
    }
}

/// The revisions of the estimates in `keys`.
pub open spec fn revisions(
    keys: Seq<u64>,
    pointer_id: PointerId,
    revision: SampleRevision,
) -> Seq<StylusEvent> {
    keys.map_values(
        |update_index: u64| StylusEvent::Revise { pointer_id, update_index, revision },
    )
}

impl AdapterView {
    /// After a tablet event, where `keys` are the estimates of its stroke that wait for a
    /// revision.
    pub open spec fn after_mac_raw(
        self,
        raw: MacTabletRawSample,
        keys: Seq<u64>,
        now: u128,
    ) -> AdapterView {
        let anchor = PlatformTimestampAnchor::anchored(self.mac_anchor, raw.timestamp_secs, now);
        let ts = anchor.translated(raw.timestamp_secs);
        let device = raw.device_id;
        let seen = AdapterView { mac_anchor: Some(anchor), ..self }.pen_seen(
            device,
            raw.fresh_pen(),
            raw.position_physical_px,
        );
        let pen = seen.pens[device];
        match (raw.source_phase, pen.active_pointer_id) {
            (MacTabletPhase::Down, _) => {
                let pid = PointerId(seen.next_pointer);
                let update_index = seen.next_update;
                let sample = Sample {
                    class: SampleClass::Estimated { update_index },
                    ..raw.sample(ts, pid, pen.tool)
                };
                AdapterView {
                    next_update: crate::adapter::next_number(update_index),
                    pending: seen.pending.insert(update_index, pid),
                    ..seen
                }.pen_begun(device).emit_sample(sample, Phase::Down, pen.caps)
            },
            (_, None) => seen,
            (phase, Some(pid)) => {
                let refined = AdapterView {
                    queue: seen.queue + revisions(keys, pid, raw.revision()),
                    ..seen.without_pending(pid)
                };
                let sample = raw.sample(ts, pid, pen.tool);
                if raw.origin == MacTabletOrigin::NativeTabletPoint {
                    refined
                } else if phase == MacTabletPhase::Move {
                    refined.emit_sample(sample, Phase::Move, pen.caps)
                } else {
                    refined.emit_sample(sample, Phase::Up, pen.caps).pen_ended(device, pid)
                }
            },
        }
    }

    /// `keys` are the estimates that a tablet event revises: a move or an up revises all that
    /// wait for the stroke under way.
    pub open spec fn awaited(self, raw: MacTabletRawSample, keys: Seq<u64>) -> bool {
        if raw.source_phase != MacTabletPhase::Down && self.pens.contains_key(raw.device_id)
            && self.pens[raw.device_id].active_pointer_id is Some {
            crate::adapter::lists_entries(
                keys,
                self.pending,
                self.pens[raw.device_id].active_pointer_id->0,
            )
        } else {
            keys.len() == 0
        }
    }

    /// After a pen has come near or gone away.
    pub open spec fn after_mac_proximity(
        self,
        prox: MacTabletProximitySample,
        now: u128,
    ) -> AdapterView {
        if prox.is_entering {
            self.pen_entered(prox.device_id, prox.caps, prox.pointing_device_type, prox.unique_id)
        } else {
            self.pen_left(prox.device_id, now)
        }
    }
}

/// Builds the sample that a tablet event stands for.
fn build_pen_sample(
    raw: &MacTabletRawSample,
    timestamp: u128,
    pointer_id: PointerId,
    tool: ToolKind,
) -> (res: Sample)
    ensures
        res == raw.sample(timestamp, pointer_id, tool),
{
    let mut sample = Sample::new_pen(raw.position_physical_px, timestamp, pointer_id, tool);
    sample.pressure = raw.pressure.clamp(Float32(0), Float32(0x3f80_0000));
    sample.tilt = Some(raw.tilt);
    sample.twist_deg = Some(raw.twist_deg);
    sample.tangential_pressure = Some(raw.tangential_pressure);
    sample.buttons = StylusButtons {
        contact: true,
        barrel: raw.button_mask & 0x1 != 0,
        secondary: raw.button_mask & 0x2 != 0,
        inverted: tool == ToolKind::Eraser,
    };
    sample
}

impl StylusAdapter {
    /// Takes in a tablet event. A native tablet point only refines the estimate that is
    /// pending; a move or an up of a pen that is not down is dropped.
    pub fn handle_mac_raw(&mut self, raw: MacTabletRawSample, now: u128)
        ensures
            exists|keys: Seq<u64>|
                {
                    &&& old(self)@.awaited(raw, keys)
                    &&& final(self)@ == #[trigger] old(self)@.after_mac_raw(raw, keys, now)
                },
    {
        let ts: u128 = PlatformTimestampAnchor::translate_or_anchor(
            &mut self.mac_anchor,
            raw.timestamp_secs,
            now,
        );
        let fresh = PenState {
            active_pointer_id: None,
            caps: crate::adapter::optimistic_pen_caps(),
            tool: raw.pointing_device_type,
            unique_id: None,
            last_position: None,
        };
        let pen = self.see_pen(raw.device_id, fresh, raw.position_physical_px);
        let ghost before = old(self)@;
        let phase = match raw.source_phase {
            MacTabletPhase::Down => {
                let update_index: u64 = crate::adapter::take_number(&mut self.next_update_index);
                let pid = self.begin_pen(raw.device_id, pen);
                self.pending_estimated.insert(update_index, pid);
                let mut sample = build_pen_sample(&raw, ts, pid, pen.tool);
                sample.class = SampleClass::Estimated { update_index };
                self.emit_sample(sample, Phase::Down, pen.caps);
                proof {
                    let keys = Seq::<u64>::empty();
                    assert(before.awaited(raw, keys));
                    assert(self@ =~= before.after_mac_raw(raw, keys, now));
                }
                return;
            },
            MacTabletPhase::Move => Phase::Move,
            MacTabletPhase::Up => Phase::Up,
        };
        let pid = match pen.active_pointer_id {
            Some(pid) => pid,
            None => {
                proof {
                    let keys = Seq::<u64>::empty();
                    assert(before.awaited(raw, keys));
                    assert(self@ =~= before.after_mac_raw(raw, keys, now));
                }
                return;
            },
        };
        let ghost seen = self@;
        let keys = self.take_pending_for_pointer(pid);
        let revision = SampleRevision {
            pressure: Some(raw.pressure),
            tilt: Some(raw.tilt),
            twist_deg: Some(raw.twist_deg),
            tangential_pressure: Some(raw.tangential_pressure),
        };
        let ghost events = revisions(keys@, pid, revision);
        let mut i: usize = 0;
        assert(seen.queue + events.take(0) =~= seen.queue);
        while i < keys.len()
            invariant
                i <= keys.len(),
                events == revisions(keys@, pid, revision),
                self@ == (AdapterView {
                    queue: seen.queue + events.take(i as int),
                    ..seen.without_pending(pid)
                }),
            decreases keys.len() - i,
        {
            self.queue.push(
                StylusEvent::Revise { pointer_id: pid, update_index: keys[i], revision },
            );
            assert(events.take(i + 1) =~= events.take(i as int).push(events[i as int]));
            assert(self@.queue =~= seen.queue + events.take(i + 1));
            i = i + 1;
        }
        assert(events.take(i as int) =~= events);
        assert(before.awaited(raw, keys@));
        match raw.origin {
            MacTabletOrigin::NativeTabletPoint => {
                assert(self@ =~= before.after_mac_raw(raw, keys@, now));
                return;
            },
            MacTabletOrigin::MouseSubtype => {},
        }
        let sample = build_pen_sample(&raw, ts, pid, pen.tool);
        self.emit_sample(sample, phase, pen.caps);
        if let Phase::Up = phase {
            self.end_pen(raw.device_id, pen, pid);
        }
        assert(self@ =~= before.after_mac_raw(raw, keys@, now));
    }

    /// Takes in a pen that comes near or goes away. A pen that goes away in the middle of a
    /// stroke cancels it.
    pub fn handle_mac_proximity(&mut self, prox: MacTabletProximitySample, now: u128)
        ensures
            final(self)@ == old(self)@.after_mac_proximity(prox, now),
    {
        if prox.is_entering {
            self.enter_pen(prox.device_id, prox.caps, prox.pointing_device_type, prox.unique_id);
        } else {
            self.leave_pen(prox.device_id, now);
        }
    }
}

} // verus!
