//! Browser pointer events. Samples are fully resolved; predicted ones are marked as such, to
//! be dropped when real ones arrive.

use crate::adapter::{AdapterView, PlatformTimestampAnchor, StylusAdapter};
use crate::float32::Float32;
use crate::float64::Float64;
use crate::geometry::Point;
use crate::sample::{
    PointerId, Sample, SampleClass, StylusButtons, Tilt, ToolCaps, ToolKind,
};
use crate::stylus::Phase;
use vstd::prelude::*;

verus! {

/// One browser pointer in the middle of a gesture. The tool is fixed at its begin, so that a
/// side switch toggled during a drag does not change it.
#[derive(Debug, Clone, Copy, PartialEq)]
pub struct WebPointerState {
    pub adapter_pointer_id: PointerId,
    pub tool: ToolKind,
    pub caps: ToolCaps,
    pub last_position: Option<Point>,
}

#[derive(Debug, Clone, Copy, PartialEq, Eq, Structural)]
pub enum WebPointerType {
    Pen,
    Touch,
    Mouse,
    Unknown,
}

#[derive(Debug, Clone, Copy, PartialEq, Eq, Structural)]
pub enum WebSourcePhase {
    Down,
    Move,
    Up,
    Cancel,
    /// A pen that moves without contact.
    Hover,
    /// Extrapolated by the browser.
    Predicted,
}

/// A pointer event as the backend hands it over.
#[derive(Debug, Clone, Copy, PartialEq)]
pub struct WebRawSample {
    pub position_physical_px: Point,
    /// Seconds since the page was opened.
    pub timestamp_secs: Float64,
    pub pressure: Float32,
    pub tilt: Option<Tilt>,
    pub twist_deg: Option<Float32>,
    pub tangential_pressure: Option<Float32>,
    pub button_mask: u32,
    /// Stable for one gesture only.
    pub pointer_id: i32,
    pub pointer_type: WebPointerType,
    pub source_phase: WebSourcePhase,
}

/// A pointer that comes near or goes away.
#[derive(Debug, Clone, Copy, PartialEq)]
pub struct WebProximitySample {
    pub pointer_id: i32,
    pub pointer_type: WebPointerType,
    pub caps: ToolCaps,
    pub is_entering: bool,
}

impl WebRawSample {
    /// The tool that the event names. A pen with its eraser button down is an eraser.
    pub open spec fn tool(self) -> ToolKind {
        match self.pointer_type {
            WebPointerType::Pen => if self.button_mask & 0x20 != 0 {
                ToolKind::Eraser
            } else {
                ToolKind::Pen
            },
            WebPointerType::Mouse => ToolKind::Mouse,
            WebPointerType::Touch => ToolKind::Finger,
            WebPointerType::Unknown => ToolKind::Unknown,
        }
    }

    /// The sample that the event stands for.
    pub open spec fn sample(self, timestamp: u128, pid: PointerId, tool: ToolKind) -> Sample {
        Sample {
            pressure: self.pressure.clamped(Float32(0), Float32(0x3f80_0000)),
            tilt: self.tilt,
            twist_deg: self.twist_deg,
            tangential_pressure: self.tangential_pressure,
            buttons: StylusButtons {
                contact: true,
                barrel: self.button_mask & 0x2 != 0,
                secondary: false,
                inverted: tool == ToolKind::Eraser,
            },
            ..Sample::of_pen(self.position_physical_px, timestamp, pid, tool)
        }
    }
}

impl AdapterView {
    /// After a pointer event.
    pub open spec fn after_web_raw(self, raw: WebRawSample, now: u128) -> AdapterView {
        let anchor = PlatformTimestampAnchor::anchored(self.web_anchor, raw.timestamp_secs, now);
        let ts = anchor.translated(raw.timestamp_secs);
        let timed = AdapterView { web_anchor: Some(anchor), ..self };
        let key = raw.pointer_id;
        let known = self.web_pointers.contains_key(key);
        let state = self.web_pointers[key];
        match raw.source_phase {
            WebSourcePhase::Hover => if raw.pointer_type == WebPointerType::Pen {
                timed.emit_sample(
                    raw.sample(ts, PointerId(0), raw.tool()),
                    Phase::Hover,
                    if known {
                        state.caps
                    } else {
                        crate::adapter::optimistic_caps()
                    },
                )
            } else {
                timed
            },
            WebSourcePhase::Down => {
                let pid = PointerId(self.next_pointer);
                AdapterView {
                    next_pointer: crate::adapter::next_number(self.next_pointer),
                    web_pointers: self.web_pointers.insert(
                        key,
                        WebPointerState {
                            adapter_pointer_id: pid,
                            tool: raw.tool(),
                            caps: crate::adapter::optimistic_caps(),
                            last_position: Some(raw.position_physical_px),
                        },
                    ),
                    active_pen: if raw.pointer_type == WebPointerType::Pen {
                        Some(pid)
                    } else {
                        self.active_pen
                    },
                    ..timed
                }.emit_sample(
                    raw.sample(ts, pid, raw.tool()),
                    Phase::Down,
                    crate::adapter::optimistic_caps(),
                )
            },
            WebSourcePhase::Move | WebSourcePhase::Predicted => if known {
                let pid = state.adapter_pointer_id;
                let sample = raw.sample(ts, pid, state.tool);
                AdapterView {
                    web_pointers: self.web_pointers.insert(
                        key,
                        WebPointerState { last_position: Some(raw.position_physical_px), ..state },
                    ),
                    ..timed
                }.emit_sample(
                    if raw.source_phase == WebSourcePhase::Predicted {
                        Sample { class: SampleClass::Predicted, ..sample }
                    } else {
                        sample
                    },
                    Phase::Move,
                    state.caps,
                )
            } else {
                timed
            },
            WebSourcePhase::Up | WebSourcePhase::Cancel => if known {
                let pid = state.adapter_pointer_id;
                AdapterView {
                    web_pointers: self.web_pointers.remove(key),
                    ..timed
                }.emit_sample(
                    raw.sample(ts, pid, state.tool),
                    if raw.source_phase == WebSourcePhase::Up {
                        Phase::Up
                    } else {
                        Phase::Cancel
                    },
                    state.caps,
                ).pen_let_go(pid)
            } else {
                timed
            },
        }
    }

    /// After a pointer has come near or gone away. One that goes away in the middle of a
    /// gesture is cancelled.
    pub open spec fn after_web_proximity(self, prox: WebProximitySample, now: u128) -> AdapterView {
        let key = prox.pointer_id;
        let state = self.web_pointers[key];
        if !self.web_pointers.contains_key(key) {
            self
        } else if prox.is_entering {
            AdapterView {
                web_pointers: self.web_pointers.insert(
                    key,
                    WebPointerState { caps: prox.caps, ..state },
                ),
                ..self
            }
        } else {
            AdapterView { web_pointers: self.web_pointers.remove(key), ..self }.cut_off(
                state.adapter_pointer_id,
                state.last_position,
                state.tool,
                state.caps,
                now,
            )
        }
    }
}

/// The tool that an event names.
fn classify_web_tool(raw: &WebRawSample) -> (res: ToolKind)
    ensures
        res == raw.tool(),
{
    match raw.pointer_type {
        WebPointerType::Pen => if raw.button_mask & 0x20 != 0 {
            ToolKind::Eraser
        } else {
            ToolKind::Pen
        },
        WebPointerType::Mouse => ToolKind::Mouse,
        WebPointerType::Touch => ToolKind::Finger,
        WebPointerType::Unknown => ToolKind::Unknown,
    }
}

/// Builds the sample that an event stands for.
fn build_web_sample(
    raw: &WebRawSample,
    timestamp: u128,
    pointer_id: PointerId,
    tool: ToolKind,
) -> (res: Sample)
    ensures
        res == raw.sample(timestamp, pointer_id, tool),
{
    let mut sample = Sample::new_pen(raw.position_physical_px, timestamp, pointer_id, tool);
    sample.pressure = raw.pressure.clamp(Float32(0), Float32(0x3f80_0000));
    sample.tilt = raw.tilt;
    sample.twist_deg = raw.twist_deg;
    sample.tangential_pressure = raw.tangential_pressure;
    sample.buttons = StylusButtons {
        contact: true,
        barrel: raw.button_mask & 0x2 != 0,
        secondary: false,
        inverted: tool == ToolKind::Eraser,
    };
    sample
}

impl StylusAdapter {
    /// Takes in a pointer event. What continues a gesture that has not begun is dropped, and
    /// so is a hover of anything but a pen.
    pub fn handle_web_raw(&mut self, raw: WebRawSample, now: u128)
        ensures
            final(self)@ == old(self)@.after_web_raw(raw, now),
    {
        let ts: u128 = PlatformTimestampAnchor::translate_or_anchor(
            &mut self.web_anchor,
            raw.timestamp_secs,
            now,
        );
        let tool = classify_web_tool(&raw);
        match raw.source_phase {
            WebSourcePhase::Hover => {
                if let WebPointerType::Pen = raw.pointer_type {
                    let caps = match self.web_pointers.get(&raw.pointer_id) {
                        Some(state) => state.caps,
                        None => crate::adapter::optimistic_pen_caps(),
                    };
                    let sample = build_web_sample(&raw, ts, PointerId::mouse(), tool);
                    self.emit_sample(sample, Phase::Hover, caps);
                }
            },
            WebSourcePhase::Down => {
                let pid = PointerId(crate::adapter::take_number(&mut self.next_pointer_id));
                let caps = crate::adapter::optimistic_pen_caps();
                self.web_pointers.insert(
                    raw.pointer_id,
                    WebPointerState {
                        adapter_pointer_id: pid,
                        tool,
                        caps,
                        last_position: Some(raw.position_physical_px),
                    },
                );
                if let WebPointerType::Pen = raw.pointer_type {
                    self.active_pen_pointer = Some(pid);
                }
                let sample = build_web_sample(&raw, ts, pid, tool);
                self.emit_sample(sample, Phase::Down, caps);
            },
            WebSourcePhase::Move | WebSourcePhase::Predicted => {
                let state = match self.web_pointers.get(&raw.pointer_id) {
                    Some(state) => *state,
                    None => return,
                };
                self.web_pointers.insert(
                    raw.pointer_id,
                    WebPointerState { last_position: Some(raw.position_physical_px), ..state },
                );
                let mut sample = build_web_sample(&raw, ts, state.adapter_pointer_id, state.tool);
                if let WebSourcePhase::Predicted = raw.source_phase {
                    sample.class = SampleClass::Predicted;
                }
                self.emit_sample(sample, Phase::Move, state.caps);
            },
            WebSourcePhase::Up | WebSourcePhase::Cancel => {
                let state = match self.web_pointers.remove(&raw.pointer_id) {
                    Some(state) => state,
                    None => {
                        assert(self@.web_pointers =~= old(self)@.web_pointers);
                        return;
                    },
                };
                let phase = match raw.source_phase {
                    WebSourcePhase::Up => Phase::Up,
                    _ => Phase::Cancel,
                };
                let sample = build_web_sample(&raw, ts, state.adapter_pointer_id, state.tool);
                self.emit_sample(sample, phase, state.caps);
                self.let_go_of_pen(state.adapter_pointer_id);
            },
        }
    }

    /// Takes in a pointer that comes near or goes away.
    pub fn handle_web_proximity(&mut self, prox: WebProximitySample, now: u128)
        ensures
            final(self)@ == old(self)@.after_web_proximity(prox, now),
    {
        if prox.is_entering {
            if let Some(state) = self.web_pointers.get(&prox.pointer_id) {
                let state = WebPointerState { caps: prox.caps, ..*state };
                self.web_pointers.insert(prox.pointer_id, state);
            }
        } else {
            match self.web_pointers.remove(&prox.pointer_id) {
                Some(state) => {
                    self.cut_off(
                        state.adapter_pointer_id,
                        state.last_position,
                        state.tool,
                        state.caps,
                        now,
                    );
                },
                None => {
                    assert(self@.web_pointers =~= old(self)@.web_pointers);
                },
            }
        }
    }
}

} // verus!
