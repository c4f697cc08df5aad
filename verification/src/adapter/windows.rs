//! Windows pointer events. Samples are fully resolved from the first one on; axes that the
//! device does not report are absent. A pen that hovers gives hover samples without a stroke.

use crate::adapter::{AdapterView, PenState, PlatformTimestampAnchor, StylusAdapter};
use crate::float32::Float32;
use crate::float64::Float64;
use crate::geometry::Point;
use crate::sample::{PointerId, Sample, StylusButtons, Tilt, ToolCaps, ToolKind};
use crate::stylus::Phase;
use vstd::prelude::*;

verus! {

#[derive(Debug, Clone, Copy, PartialEq, Eq, Structural)]
pub enum WindowsPointerPhase {
    Down,
    Move,
    Up,
    Cancel,
    /// In range without contact.
    Hover,
}

impl WindowsPointerPhase {
    /// The phase of the sample that the event gives.
    pub open spec fn phase(self) -> Phase {
        match self {
            WindowsPointerPhase::Down => Phase::Down,
            WindowsPointerPhase::Move => Phase::Move,
            WindowsPointerPhase::Up => Phase::Up,
            WindowsPointerPhase::Cancel => Phase::Cancel,
            WindowsPointerPhase::Hover => Phase::Hover,
        }
    }
}

/// A tablet event as the backend hands it over.
#[derive(Debug, Clone, Copy, PartialEq)]
pub struct WindowsRawSample {
    pub position_physical_px: Point,
    /// The performance counter, in seconds.
    pub timestamp_secs: Float64,
    pub pressure: Float32,
    pub tilt: Option<Tilt>,
    pub twist_deg: Option<Float32>,
    pub button_mask: u32,
    pub device_id: u32,
    pub pointing_device_type: ToolKind,
    pub source_phase: WindowsPointerPhase,
}

/// A pen that comes near or goes away.
#[derive(Debug, Clone, Copy, PartialEq)]
pub struct WindowsProximitySample {
    pub device_id: u32,
    pub pointing_device_type: ToolKind,
    pub caps: ToolCaps,
    pub is_entering: bool,
}

impl WindowsRawSample {
    /// The pen as first assumed.
    pub open spec fn fresh_pen(self) -> PenState {
        PenState {
            active_pointer_id: None,
            caps: crate::adapter::optimistic_caps(),
            tool: self.pointing_device_type,
            unique_id: None,
            last_position: None,
        }
    }

    /// The sample that the event stands for.
    pub open spec fn sample(self, timestamp: u128, pid: PointerId, tool: ToolKind) -> Sample {
        Sample {
            pressure: self.pressure.clamped(Float32(0), Float32(0x3f80_0000)),
            tilt: self.tilt,
            twist_deg: self.twist_deg,
            tangential_pressure: None,
            buttons: StylusButtons {
                contact: true,
                barrel: self.button_mask & 0x1 != 0,
                secondary: self.button_mask & 0x2 != 0,
                inverted: self.button_mask & 0x4 != 0 || tool == ToolKind::Eraser,
            },
            ..Sample::of_pen(self.position_physical_px, timestamp, pid, tool)
        }
    }
}

impl AdapterView {
    /// After a tablet event.
    pub open spec fn after_windows_raw(self, raw: WindowsRawSample, now: u128) -> AdapterView {
        let anchor = PlatformTimestampAnchor::anchored(
            self.windows_anchor,
            raw.timestamp_secs,
            now,
        );
        let ts = anchor.translated(raw.timestamp_secs);
        let timed = AdapterView { windows_anchor: Some(anchor), ..self };
        let device = raw.device_id;
        let phase = raw.source_phase.phase();
        if phase == Phase::Hover {
            timed.emit_sample(
                raw.sample(ts, PointerId(0), raw.pointing_device_type),
                phase,
                if self.pens.contains_key(device) {
                    self.pens[device].caps
                } else {
                    crate::adapter::optimistic_caps()
                },
            )
        } else {
            let seen = timed.pen_seen(device, raw.fresh_pen(), raw.position_physical_px);
            match seen.pen_pointer(device, phase) {
                Some(pid) => seen.after_pen_sample(
                    device,
                    phase,
                    raw.sample(ts, pid, seen.pens[device].tool),
                ),
                None => seen,
            }
        }
    }

    /// The hardware identity that is known of a device.
    pub open spec fn unique_id_of(self, device: u32) -> Option<u64> {
        if self.pens.contains_key(device) {
            self.pens[device].unique_id
        } else {
            None
        }
    }

    /// After a pen has come near or gone away.
    pub open spec fn after_windows_proximity(
        self,
        prox: WindowsProximitySample,
        now: u128,
    ) -> AdapterView {
        if prox.is_entering {
            self.pen_entered(
                prox.device_id,
                prox.caps,
                prox.pointing_device_type,
                self.unique_id_of(prox.device_id),
            )
        } else {
            self.pen_left(prox.device_id, now)
        }
    }
}

/// Builds the sample that a tablet event stands for.
fn build_windows_sample(
    raw: &WindowsRawSample,
    timestamp: u128,
    pointer_id: PointerId,
    tool: ToolKind,
) -> (res: Sample)
    ensures
        res == raw.sample(timestamp, pointer_id, tool),
{
    let mut sample = Sample::new_pen(raw.position_physical_px, timestamp, pointer_id, tool);
    sample.pressure = raw.pressure.clamp(Float32(0), Float32(0x3f80_0000));
    sample.tilt = raw.tilt;
    sample.twist_deg = raw.twist_deg;
    sample.tangential_pressure = None;
    sample.buttons = StylusButtons {
        contact: true,
        barrel: raw.button_mask & 0x1 != 0,
        secondary: raw.button_mask & 0x2 != 0,
        inverted: raw.button_mask & 0x4 != 0 || tool == ToolKind::Eraser,
    };
    sample
}

impl StylusAdapter {
    /// Takes in a tablet event. A hover belongs to the mouse pointer. A sample that continues a
    /// stroke of a pen that is not down is dropped.
    pub fn handle_windows_raw(&mut self, raw: WindowsRawSample, now: u128)
        ensures
            final(self)@ == old(self)@.after_windows_raw(raw, now),
    {
        let ts: u128 = PlatformTimestampAnchor::translate_or_anchor(
            &mut self.windows_anchor,
            raw.timestamp_secs,
            now,
        );
        if let WindowsPointerPhase::Hover = raw.source_phase {
            let sample = build_windows_sample(
                &raw,
                ts,
                PointerId::mouse(),
                raw.pointing_device_type,
            );
            let caps = match self.pens.get(&raw.device_id) {
                Some(pen) => pen.caps,
                None => crate::adapter::optimistic_pen_caps(),
            };
            self.emit_sample(sample, Phase::Hover, caps);
            return;
        }
        let fresh = PenState {
            active_pointer_id: None,
            caps: crate::adapter::optimistic_pen_caps(),
            tool: raw.pointing_device_type,
            unique_id: None,
            last_position: None,
        };
        let pen = self.see_pen(raw.device_id, fresh, raw.position_physical_px);
        let phase = match raw.source_phase {
            WindowsPointerPhase::Down => Phase::Down,
            WindowsPointerPhase::Move => Phase::Move,
            WindowsPointerPhase::Up => Phase::Up,
            WindowsPointerPhase::Cancel => Phase::Cancel,
            WindowsPointerPhase::Hover => Phase::Hover,
        };
        let pid = match phase {
            Phase::Down => self.begin_pen(raw.device_id, pen),
            _ => match pen.active_pointer_id {
                Some(pid) => pid,
                None => return,
            },
        };
        let sample = build_windows_sample(&raw, ts, pid, pen.tool);
        self.emit_sample(sample, phase, pen.caps);
        match phase {
            Phase::Up | Phase::Cancel => self.end_pen(raw.device_id, pen, pid),
            _ => {},
        }
    }

    /// Takes in a pen that comes near or goes away. A pen that goes away in the middle of a
    /// stroke cancels it.
    pub fn handle_windows_proximity(&mut self, prox: WindowsProximitySample, now: u128)
        ensures
            final(self)@ == old(self)@.after_windows_proximity(prox, now),
    {
        if prox.is_entering {
            let unique_id = match self.pens.get(&prox.device_id) {
                Some(pen) => pen.unique_id,
                None => None,
            };
            self.enter_pen(prox.device_id, prox.caps, prox.pointing_device_type, unique_id);
        } else {
            self.leave_pen(prox.device_id, now);
        }
    }
}

} // verus!
