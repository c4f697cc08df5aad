//! Decisions of the macOS tablet backend: which events carry tablet data and what they say.
//! The backend reads the fields of a native event and hands them over as a `MacEvent`.

use crate::adapter::mac::{
    MacTabletOrigin, MacTabletPhase, MacTabletProximitySample, MacTabletRawSample,
};
use crate::adapter::StylusAdapter;
use crate::float32::Float32;
use crate::float64::Float64;
use crate::geometry::Point;
use crate::sample::{Tilt, ToolCaps, ToolKind};
use vstd::prelude::*;

verus! {

/// Capability bits of a native tablet.
pub const NX_TABLET_CAPABILITY_BUTTONS: u64 = 0x40;

pub const NX_TABLET_CAPABILITY_TILT_X: u64 = 0x80;

pub const NX_TABLET_CAPABILITY_TILT_Y: u64 = 0x100;

pub const NX_TABLET_CAPABILITY_PRESSURE: u64 = 0x400;

pub const NX_TABLET_CAPABILITY_TANGENTIAL_PRESSURE: u64 = 0x800;

pub const NX_TABLET_CAPABILITY_ROTATION: u64 = 0x2000;

/// Why the backend could not be installed.
#[derive(Debug, Clone, Copy, PartialEq, Eq, Structural)]
pub enum MacTabletInstallError {
    MonitorInstallFailed,
}

impl MacTabletInstallError {
    /// The message for the user.
    pub fn message(self) -> (res: &'static str)
        ensures
            res@ == "NSEvent::addLocalMonitorForEventsMatchingMask_handler returned nil"@,
    {
        "NSEvent::addLocalMonitorForEventsMatchingMask_handler returned nil"
    }
}

/// The type of a native event.
#[derive(Debug, Clone, Copy, PartialEq, Eq, Structural)]
pub enum MacEventType {
    LeftMouseDown,
    LeftMouseUp,
    LeftMouseDragged,
    RightMouseDown,
    RightMouseUp,
    RightMouseDragged,
    OtherMouseDown,
    OtherMouseUp,
    OtherMouseDragged,
    MouseMoved,
    TabletPoint,
    TabletProximity,
    Other,
}

/// The subtype of a native mouse event.
#[derive(Debug, Clone, Copy, PartialEq, Eq, Structural)]
pub enum MacEventSubtype {
    TabletPoint,
    TabletProximity,
    Other,
}

/// The pointing device of a native tablet event.
#[derive(Debug, Clone, Copy, PartialEq, Eq, Structural)]
pub enum MacPointingDevice {
    Pen,
    Eraser,
    Cursor,
    Other,
}

/// The fields of a native event.
#[derive(Debug, Clone, Copy, PartialEq)]
pub struct MacEvent {
    pub event_type: MacEventType,
    pub subtype: MacEventSubtype,
    /// In points of the content view, from its top left; `None` where the event belongs to no
    /// window.
    pub view_position: Option<Point>,
    /// Physical pixels for each point.
    pub backing_scale: Float64,
    pub timestamp_secs: Float64,
    pub pressure: Float32,
    /// Ratios of full tilt, from -1 to 1.
    pub tilt_x: Float64,
    pub tilt_y: Float64,
    pub rotation: Float32,
    pub tangential_pressure: Float32,
    pub button_mask: usize,
    pub device_id: usize,
    pub unique_id: u64,
    pub pointing_device: MacPointingDevice,
    pub capability_mask: u64,
    pub is_entering: bool,
}

/// What to do with a native event.
#[derive(Debug, Clone, Copy, PartialEq, Eq, Structural)]
pub enum MacEventRoute {
    Proximity,
    Sample(MacTabletOrigin),
    /// No tablet data; the window system handles it.
    Ignore,
}

/// A point of the view in physical pixels.
pub open spec fn in_pixels(p: Point, scale: Float64) -> Point {
    Point { x: p.x.product(scale), y: p.y.product(scale) }
}

fn to_physical_pixels(p: Point, scale: Float64) -> (res: Point)
    ensures
        res == in_pixels(p, scale),
{
    Point { x: p.x.mul(scale), y: p.y.mul(scale) }
}

impl MacEventType {
    /// A mouse event.
    pub open spec fn is_mouse(self) -> bool {
        !(self is TabletPoint) && !(self is TabletProximity) && !(self is Other)
    }

    /// The tablet phase that the event stands for.
    pub open spec fn phase(self) -> Option<MacTabletPhase> {
        match self {
            MacEventType::LeftMouseDown
            | MacEventType::RightMouseDown
            | MacEventType::OtherMouseDown => Some(MacTabletPhase::Down),
            MacEventType::LeftMouseUp
            | MacEventType::RightMouseUp
            | MacEventType::OtherMouseUp => Some(MacTabletPhase::Up),
            MacEventType::LeftMouseDragged
            | MacEventType::RightMouseDragged
            | MacEventType::OtherMouseDragged
            | MacEventType::MouseMoved
            | MacEventType::TabletPoint => Some(MacTabletPhase::Move),
            _ => None,
        }
    }
}

impl MacEvent {
    /// Tablet points and mouse events with that subtype are samples; proximity comes natively
    /// or, with some drivers, on a mouse event.
    pub open spec fn route(self) -> MacEventRoute {
        if self.event_type is TabletProximity {
            MacEventRoute::Proximity
        } else if self.event_type is TabletPoint {
            MacEventRoute::Sample(MacTabletOrigin::NativeTabletPoint)
        } else if self.event_type.is_mouse() && self.subtype is TabletPoint {
            MacEventRoute::Sample(MacTabletOrigin::MouseSubtype)
        } else if self.event_type.is_mouse() && self.subtype is TabletProximity {
            MacEventRoute::Proximity
        } else {
            MacEventRoute::Ignore
        }
    }

    /// The proximity sample that the event stands for. A hardware identity of 0 is none.
    pub open spec fn proximity(self) -> MacTabletProximitySample {
        MacTabletProximitySample {
            device_id: narrowed(self.device_id),
            unique_id: if self.unique_id == 0 {
                None
            } else {
                Some(self.unique_id)
            },
            pointing_device_type: tool_of(self.pointing_device),
            caps: caps_of(self.capability_mask),
            is_entering: self.is_entering,
        }
    }

    /// The tablet sample that the event stands for: none without a position or a phase. Tilt
    /// ratios become degrees of 90.
    pub open spec fn raw_sample(self, origin: MacTabletOrigin) -> Option<MacTabletRawSample> {
        match (self.view_position, self.event_type.phase()) {
            (Some(position), Some(phase)) => Some(
                MacTabletRawSample {
                    position_physical_px: in_pixels(position, self.backing_scale),
                    timestamp_secs: self.timestamp_secs,
                    pressure: self.pressure,
                    tilt: Tilt {
                        x_deg: Float32::narrowed(self.tilt_x).product(Float32(0x42b4_0000)),
                        y_deg: Float32::narrowed(self.tilt_y).product(Float32(0x42b4_0000)),
                    },
                    twist_deg: self.rotation,
                    tangential_pressure: self.tangential_pressure,
                    button_mask: narrowed(self.button_mask),
                    device_id: narrowed(self.device_id),
                    pointing_device_type: tool_of(self.pointing_device),
                    origin,
                    source_phase: phase,
                },
            ),
            _ => None,
        }
    }
}

/// A number cut to 32 bits at the end of the range.
pub open spec fn narrowed(v: usize) -> u32 {
    if v > u32::MAX {
        u32::MAX
    } else {
        v as u32
    }
}

/// The tool that a pointing device is.
pub open spec fn tool_of(device: MacPointingDevice) -> ToolKind {
    match device {
        MacPointingDevice::Pen => ToolKind::Pen,
        MacPointingDevice::Eraser => ToolKind::Eraser,
        MacPointingDevice::Cursor => ToolKind::Mouse,
        MacPointingDevice::Other => ToolKind::Unknown,
    }
}

/// The capabilities that a native mask stands for. Tilt on either axis counts.
pub open spec fn caps_of(mask: u64) -> ToolCaps {
    ToolCaps {
        pressure: mask & NX_TABLET_CAPABILITY_PRESSURE != 0,
        tilt: mask & NX_TABLET_CAPABILITY_TILT_X != 0 || mask & NX_TABLET_CAPABILITY_TILT_Y != 0,
        twist: mask & NX_TABLET_CAPABILITY_ROTATION != 0,
        tangential_pressure: mask & NX_TABLET_CAPABILITY_TANGENTIAL_PRESSURE != 0,
        hover: false,
        barrel_button: mask & NX_TABLET_CAPABILITY_BUTTONS != 0,
    }
}

/// Cuts a number to 32 bits.
pub fn u32_from_usize(v: usize) -> (res: u32)
    ensures
        res == narrowed(v),
{
    if v > u32::MAX as usize {
        u32::MAX
    } else {
        v as u32
    }
}

/// Which tool a pointing device is.
pub fn map_pointing_device_type(device: MacPointingDevice) -> (res: ToolKind)
    ensures
        res == tool_of(device),
{
    match device {
        MacPointingDevice::Pen => ToolKind::Pen,
        MacPointingDevice::Eraser => ToolKind::Eraser,
        MacPointingDevice::Cursor => ToolKind::Mouse,
        MacPointingDevice::Other => ToolKind::Unknown,
    }
}

/// What a native capability mask stands for.
pub fn map_capability_mask(mask: u64) -> (res: ToolCaps)
    ensures
        res == caps_of(mask),
{
    ToolCaps {
        pressure: mask & NX_TABLET_CAPABILITY_PRESSURE != 0,
        tilt: mask & NX_TABLET_CAPABILITY_TILT_X != 0 || mask & NX_TABLET_CAPABILITY_TILT_Y != 0,
        twist: mask & NX_TABLET_CAPABILITY_ROTATION != 0,
        tangential_pressure: mask & NX_TABLET_CAPABILITY_TANGENTIAL_PRESSURE != 0,
        hover: false,
        barrel_button: mask & NX_TABLET_CAPABILITY_BUTTONS != 0,
    }
}

/// What to do with a native event.
pub fn route_event(event: &MacEvent) -> (res: MacEventRoute)
    ensures
        res == event.route(),
{
    match event.event_type {
        MacEventType::TabletProximity => MacEventRoute::Proximity,
        MacEventType::TabletPoint => MacEventRoute::Sample(MacTabletOrigin::NativeTabletPoint),
        MacEventType::Other => MacEventRoute::Ignore,
        _ => match event.subtype {
            MacEventSubtype::TabletPoint => MacEventRoute::Sample(MacTabletOrigin::MouseSubtype),
            MacEventSubtype::TabletProximity => MacEventRoute::Proximity,
            MacEventSubtype::Other => MacEventRoute::Ignore,
        },
    }
}

/// Builds the proximity sample of a native event.
pub fn build_proximity(event: &MacEvent) -> (res: MacTabletProximitySample)
    ensures
        res == event.proximity(),
{
    MacTabletProximitySample {
        device_id: u32_from_usize(event.device_id),
        unique_id: if event.unique_id == 0 {
            None
        } else {
            Some(event.unique_id)
        },
        pointing_device_type: map_pointing_device_type(event.pointing_device),
        caps: map_capability_mask(event.capability_mask),
        is_entering: event.is_entering,
    }
}

/// Builds the tablet sample of a native event.
pub fn build_raw_sample(event: &MacEvent, origin: MacTabletOrigin) -> (res: Option<
    MacTabletRawSample,
>)
    ensures
        res == event.raw_sample(origin),
{
    let position = match event.view_position {
        Some(p) => p,
        None => return None,
    };
    let source_phase = match event.event_type {
        MacEventType::LeftMouseDown
        | MacEventType::RightMouseDown
        | MacEventType::OtherMouseDown => MacTabletPhase::Down,
        MacEventType::LeftMouseUp
        | MacEventType::RightMouseUp
        | MacEventType::OtherMouseUp => MacTabletPhase::Up,
        MacEventType::LeftMouseDragged
        | MacEventType::RightMouseDragged
        | MacEventType::OtherMouseDragged
        | MacEventType::MouseMoved
        | MacEventType::TabletPoint => MacTabletPhase::Move,
        _ => return None,
    };
    Some(
        MacTabletRawSample {
            position_physical_px: to_physical_pixels(position, event.backing_scale),
            timestamp_secs: event.timestamp_secs,
            pressure: event.pressure,
            tilt: Tilt {
                x_deg: Float32::from_f64(event.tilt_x).mul(Float32(0x42b4_0000)),
                y_deg: Float32::from_f64(event.tilt_y).mul(Float32(0x42b4_0000)),
            },
            twist_deg: event.rotation,
            tangential_pressure: event.tangential_pressure,
            button_mask: u32_from_usize(event.button_mask),
            device_id: u32_from_usize(event.device_id),
            pointing_device_type: map_pointing_device_type(event.pointing_device),
            origin,
            source_phase,
        },
    )
}

/// Hands the tablet data of a native event, if it carries any, to the adapter.
pub fn dispatch_event(event: &MacEvent, adapter: &mut StylusAdapter, now: u128)
    ensures
        match event.route() {
            MacEventRoute::Proximity => final(adapter)@ == old(adapter)@.after_mac_proximity(
                event.proximity(),
                now,
            ),
            MacEventRoute::Sample(origin) => match event.raw_sample(origin) {
                Some(raw) => exists|keys: Seq<u64>|
                    {
                        &&& old(adapter)@.awaited(raw, keys)
                        &&& final(adapter)@ == #[trigger] old(adapter)@.after_mac_raw(
                            raw,
                            keys,
                            now,
                        )
                    },
                None => final(adapter)@ == old(adapter)@,
            },
            MacEventRoute::Ignore => final(adapter)@ == old(adapter)@,
        },
{
    match route_event(event) {
        MacEventRoute::Proximity => {
            let prox = build_proximity(event);
            adapter.handle_mac_proximity(prox, now);
        },
        MacEventRoute::Sample(origin) => {
            if let Some(raw) = build_raw_sample(event, origin) {
                adapter.handle_mac_raw(raw, now);
            }
        },
        MacEventRoute::Ignore => {},
    }
}

} // verus!
