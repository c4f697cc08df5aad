//! Wayland tablet frames. The backend collects the axis events between two frames into one
//! fully resolved sample, so nothing is estimated.

use crate::adapter::{AdapterView, PenState, PlatformTimestampAnchor, StylusAdapter};
use crate::float32::Float32;
use crate::float64::Float64;
use crate::geometry::Point;
use crate::sample::{PointerId, Sample, StylusButtons, Tilt, ToolCaps, ToolKind};
use crate::stylus::Phase;
use vstd::prelude::*;

verus! {

#[derive(Debug, Clone, Copy, PartialEq, Eq, Structural)]
pub enum WaylandTabletPhase {
    Down,
    Move,
    Up,
}

impl WaylandTabletPhase {
    /// The phase of the sample that the event gives.
    pub open spec fn phase(self) -> Phase {
        match self {
            WaylandTabletPhase::Down => Phase::Down,
            WaylandTabletPhase::Move => Phase::Move,
            WaylandTabletPhase::Up => Phase::Up,
        }
    }
}

/// A tablet event as the backend hands it over.
#[derive(Debug, Clone, Copy, PartialEq)]
pub struct WaylandRawSample {
    pub position_physical_px: Point,
    /// The frame time of the compositor, in seconds.
    pub timestamp_secs: Float64,
    pub pressure: Float32,
    pub tilt: Option<Tilt>,
    pub twist_deg: Option<Float32>,
    pub tangential_pressure: Option<Float32>,
    pub button_mask: u32,
    pub device_id: u32,
    pub hardware_serial: Option<u64>,
    pub pointing_device_type: ToolKind,
    pub source_phase: WaylandTabletPhase,
}

/// A pen that comes near or goes away.
#[derive(Debug, Clone, Copy, PartialEq)]
pub struct WaylandProximitySample {
    pub device_id: u32,
    pub hardware_serial: Option<u64>,
    pub pointing_device_type: ToolKind,
    pub caps: ToolCaps,
    pub is_entering: bool,
}

impl WaylandRawSample {
    /// The pen as first assumed.
    pub open spec fn fresh_pen(self) -> PenState {
        PenState {
            active_pointer_id: None,
            caps: crate::adapter::optimistic_caps(),
            tool: self.pointing_device_type,
            unique_id: self.hardware_serial,
            last_position: None,
        }
    }

    /// The sample that the event stands for.
    pub open spec fn sample(self, timestamp: u128, pid: PointerId, tool: ToolKind) -> Sample {
        Sample {
            pressure: self.pressure.clamped(Float32(0), Float32(0x3f80_0000)),
            tilt: self.tilt,
            twist_deg: self.twist_deg,
            tangential_pressure: self.tangential_pressure,
            buttons: StylusButtons {
                contact: true,
                barrel: self.button_mask & 0x1 != 0,
                secondary: self.button_mask & 0x2 != 0,
                inverted: tool == ToolKind::Eraser,
            },
            ..Sample::of_pen(self.position_physical_px, timestamp, pid, tool)
        }
    }
}

impl AdapterView {
    /// After a tablet event.
    pub open spec fn after_wayland_raw(self, raw: WaylandRawSample, now: u128) -> AdapterView {
        let anchor = PlatformTimestampAnchor::anchored(
            self.wayland_anchor,
            raw.timestamp_secs,
            now,
        );
        let ts = anchor.translated(raw.timestamp_secs);
        let timed = AdapterView { wayland_anchor: Some(anchor), ..self };
        let device = raw.device_id;
        let phase = raw.source_phase.phase();
        let seen = timed.pen_seen(device, raw.fresh_pen(), raw.position_physical_px);
        match seen.pen_pointer(device, phase) {
            Some(pid) => seen.after_pen_sample(
                device,
                phase,
                raw.sample(ts, pid, seen.pens[device].tool),
            ),
            None => seen,
        }
    }

    /// After a pen has come near or gone away.
    pub open spec fn after_wayland_proximity(
        self,
        prox: WaylandProximitySample,
        now: u128,
    ) -> AdapterView {
        if prox.is_entering {
            self.pen_entered(
                prox.device_id,
                prox.caps,
                prox.pointing_device_type,
                prox.hardware_serial,
            )
        } else {
            self.pen_left(prox.device_id, now)
        }
    }
}

/// Builds the sample that a tablet event stands for.
fn build_wayland_sample(
    raw: &WaylandRawSample,
    timestamp: u128,
    pointer_id: PointerId,
    tool: ToolKind,
) -> (res: Sample)
    ensures
        res == raw.sample(timestamp, pointer_id, tool),
{
    let mut sample = Sample::new_pen(raw.position_physical_px, timestamp, pointer_id, tool);
    sample.pressure = raw.pressure.clamp(Float32(0), Float32(0x3f80_0000));
    sample.tilt = raw.tilt;
    sample.twist_deg = raw.twist_deg;
    sample.tangential_pressure = raw.tangential_pressure;
    sample.buttons = StylusButtons {
        contact: true,
        barrel: raw.button_mask & 0x1 != 0,
        secondary: raw.button_mask & 0x2 != 0,
        inverted: tool == ToolKind::Eraser,
    };
    sample
}

impl StylusAdapter {
    /// Takes in a tablet event. A sample that continues a stroke of a pen that is not
    /// down is dropped.
    pub fn handle_wayland_raw(&mut self, raw: WaylandRawSample, now: u128)
        ensures
            final(self)@ == old(self)@.after_wayland_raw(raw, now),
    {
        let ts: u128 = PlatformTimestampAnchor::translate_or_anchor(
            &mut self.wayland_anchor,
            raw.timestamp_secs,
            now,
        );
        let fresh = PenState {
            active_pointer_id: None,
            caps: crate::adapter::optimistic_pen_caps(),
            tool: raw.pointing_device_type,
            unique_id: raw.hardware_serial,
            last_position: None,
        };
        let pen = self.see_pen(raw.device_id, fresh, raw.position_physical_px);
        let phase = match raw.source_phase {
            WaylandTabletPhase::Down => Phase::Down,
            WaylandTabletPhase::Move => Phase::Move,
            WaylandTabletPhase::Up => Phase::Up,
        };
        let pid = match phase {
            Phase::Down => self.begin_pen(raw.device_id, pen),
            _ => match pen.active_pointer_id {
                Some(pid) => pid,
                None => return,
            },
        };
        let sample = build_wayland_sample(&raw, ts, pid, pen.tool);
        self.emit_sample(sample, phase, pen.caps);
        match phase {
            Phase::Up | Phase::Cancel => self.end_pen(raw.device_id, pen, pid),
            _ => {},
        }
    }

    /// Takes in a pen that comes near or goes away. A pen that goes away in the middle of a
    /// stroke cancels it.
    pub fn handle_wayland_proximity(&mut self, prox: WaylandProximitySample, now: u128)
        ensures
            final(self)@ == old(self)@.after_wayland_proximity(prox, now),
    {
        if prox.is_entering {
            self.enter_pen(
                prox.device_id,
                prox.caps,
                prox.pointing_device_type,
                prox.hardware_serial,
            );
        } else {
            self.leave_pen(prox.device_id, now);
        }
    }
}

} // verus!
