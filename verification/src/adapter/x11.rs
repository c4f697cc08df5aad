//! X11 tablet events. The backend merges axis changes with the last known values, so samples
//! are fully resolved; their own times are not monotonic, so they are stamped on receipt.

use crate::adapter::{AdapterView, PenState, StylusAdapter};
use crate::float32::Float32;
use crate::geometry::Point;
use crate::sample::{PointerId, Sample, StylusButtons, Tilt, ToolCaps, ToolKind};
use crate::stylus::Phase;
use vstd::prelude::*;

verus! {

#[derive(Debug, Clone, Copy, PartialEq, Eq, Structural)]
pub enum X11TabletPhase {
    Down,
    Move,
    Up,
}

impl X11TabletPhase {
    /// The phase of the sample that the event gives.
    pub open spec fn phase(self) -> Phase {
        match self {
            X11TabletPhase::Down => Phase::Down,
            X11TabletPhase::Move => Phase::Move,
            X11TabletPhase::Up => Phase::Up,
        }
    }
}

/// A tablet event as the backend hands it over.
#[derive(Debug, Clone, Copy, PartialEq)]
pub struct X11RawSample {
    pub position_physical_px: Point,
    pub pressure: Float32,
    pub tilt: Tilt,
    pub twist_deg: Float32,
    pub tangential_pressure: Float32,
    pub button_mask: u32,
    pub device_id: u32,
    pub pointing_device_type: ToolKind,
    pub source_phase: X11TabletPhase,
}

/// A pen that comes near or goes away.
#[derive(Debug, Clone, Copy, PartialEq)]
pub struct X11ProximitySample {
    pub device_id: u32,
    pub unique_id: Option<u64>,
    pub pointing_device_type: ToolKind,
    pub caps: ToolCaps,
    pub is_entering: bool,
}

impl X11RawSample {
    /// The pen as first assumed.
    pub open spec fn fresh_pen(self) -> PenState {
        PenState {
            active_pointer_id: None,
            caps: crate::adapter::optimistic_caps(),
            tool: self.pointing_device_type,
            unique_id: None,
            last_position: None,
        }
    }

    /// The sample that the event stands for.
    pub open spec fn sample(self, timestamp: u128, pid: PointerId, tool: ToolKind) -> Sample {
        Sample {
            pressure: self.pressure.clamped(Float32(0), Float32(0x3f80_0000)),
            tilt: Some(self.tilt),
            twist_deg: Some(self.twist_deg),
            tangential_pressure: Some(self.tangential_pressure),
            buttons: StylusButtons {
                contact: true,
                barrel: self.button_mask & 0x2 != 0,
                secondary: self.button_mask & 0x4 != 0,
                inverted: tool == ToolKind::Eraser,
            },
            ..Sample::of_pen(self.position_physical_px, timestamp, pid, tool)
        }
    }
}

impl AdapterView {
    /// After a tablet event.
    pub open spec fn after_x11_raw(self, raw: X11RawSample, now: u128) -> AdapterView {
        let device = raw.device_id;
        let phase = raw.source_phase.phase();
        let seen = self.pen_seen(device, raw.fresh_pen(), raw.position_physical_px);
        match seen.pen_pointer(device, phase) {
            Some(pid) => seen.after_pen_sample(
                device,
                phase,
                raw.sample(now, pid, seen.pens[device].tool),
            ),
            None => seen,
        }
    }

    /// After a pen has come near or gone away.
    pub open spec fn after_x11_proximity(
        self,
        prox: X11ProximitySample,
        now: u128,
    ) -> AdapterView {
        if prox.is_entering {
            self.pen_entered(
                prox.device_id,
                prox.caps,
                prox.pointing_device_type,
                prox.unique_id,
            )
        } else {
            self.pen_left(prox.device_id, now)
        }
    }
}

/// Builds the sample that a tablet event stands for.
fn build_x11_pen_sample(
    raw: &X11RawSample,
    timestamp: u128,
    pointer_id: PointerId,
    tool: ToolKind,
) -> (res: Sample)
    ensures
        res == raw.sample(timestamp, pointer_id, tool),
{
    let mut sample = Sample::new_pen(raw.position_physical_px, timestamp, pointer_id, tool);
    sample.pressure = raw.pressure.clamp(Float32(0), Float32(0x3f80_0000));
    sample.tilt = Some(raw.tilt);
    sample.twist_deg = Some(raw.twist_deg);
    sample.tangential_pressure = Some(raw.tangential_pressure);
    sample.buttons = StylusButtons {
        contact: true,
        barrel: raw.button_mask & 0x2 != 0,
        secondary: raw.button_mask & 0x4 != 0,
        inverted: tool == ToolKind::Eraser,
    };
    sample
}

impl StylusAdapter {
    /// Takes in a tablet event. A sample that continues a stroke of a pen that is not
    /// down is dropped.
    pub fn handle_x11_raw(&mut self, raw: X11RawSample, now: u128)
        ensures
            final(self)@ == old(self)@.after_x11_raw(raw, now),
    {
        let fresh = PenState {
            active_pointer_id: None,
            caps: crate::adapter::optimistic_pen_caps(),
            tool: raw.pointing_device_type,
            unique_id: None,
            last_position: None,
        };
        let pen = self.see_pen(raw.device_id, fresh, raw.position_physical_px);
        let phase = match raw.source_phase {
            X11TabletPhase::Down => Phase::Down,
            X11TabletPhase::Move => Phase::Move,
            X11TabletPhase::Up => Phase::Up,
        };
        let pid = match phase {
            Phase::Down => self.begin_pen(raw.device_id, pen),
            _ => match pen.active_pointer_id {
                Some(pid) => pid,
                None => return,
            },
        };
        let sample = build_x11_pen_sample(&raw, now, pid, pen.tool);
        self.emit_sample(sample, phase, pen.caps);
        match phase {
            Phase::Up | Phase::Cancel => self.end_pen(raw.device_id, pen, pid),
            _ => {},
        }
    }

    /// Takes in a pen that comes near or goes away. A pen that goes away in the middle of a
    /// stroke cancels it.
    pub fn handle_x11_proximity(&mut self, prox: X11ProximitySample, now: u128)
        ensures
            final(self)@ == old(self)@.after_x11_proximity(prox, now),
    {
        if prox.is_entering {
            self.enter_pen(prox.device_id, prox.caps, prox.pointing_device_type, prox.unique_id);
        } else {
            self.leave_pen(prox.device_id, now);
        }
    }
}

} // verus!
