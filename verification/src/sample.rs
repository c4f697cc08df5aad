//! One input sample of a pointer, and what a device can report.

use crate::float32::Float32;
use crate::geometry::Point;
use vstd::prelude::*;

verus! {

/// Identifies one pointer for the span of one gesture. Number 0 is the mouse.
#[derive(Debug, Clone, Copy, PartialEq, Eq, Hash, Structural, Default)]
pub struct PointerId(pub u64);

impl PointerId {
    /// The mouse pointer.
    pub fn mouse() -> (res: PointerId)
        ensures
            res == PointerId(0),
    {
        PointerId(0)
    }
}

/// The kind of device that produced a sample.
#[derive(Debug, Clone, Copy, PartialEq, Eq, Hash, Structural)]
pub enum ToolKind {
    Mouse,
    Finger,
    Pen,
    Eraser,
    Unknown,
}

/// Inclination of a pen, in degrees from the vertical.
#[derive(Debug, Clone, Copy, PartialEq)]
pub struct Tilt {
    pub x_deg: Float32,
    pub y_deg: Float32,
}

/// What a tool can report. The fields say which axes carry data.
#[derive(Debug, Clone, Copy, PartialEq, Eq, Hash, Structural)]
pub struct ToolCaps {
    pub pressure: bool,
    pub tilt: bool,
    pub twist: bool,
    pub tangential_pressure: bool,
    pub hover: bool,
    pub barrel_button: bool,
}

impl ToolCaps {
    /// No capability.
    pub open spec fn none() -> ToolCaps {
        ToolCaps {
            pressure: false,
            tilt: false,
            twist: false,
            tangential_pressure: false,
            hover: false,
            barrel_button: false,
        }
    }

    /// Pressure alone.
    pub open spec fn only_pressure() -> ToolCaps {
        ToolCaps { pressure: true, ..ToolCaps::none() }
    }

    /// Every capability of `other` is one of `self`.
    pub open spec fn includes(self, other: ToolCaps) -> bool {
        &&& other.pressure ==> self.pressure
        &&& other.tilt ==> self.tilt
        &&& other.twist ==> self.twist
        &&& other.tangential_pressure ==> self.tangential_pressure
        &&& other.hover ==> self.hover
        &&& other.barrel_button ==> self.barrel_button
    }

    /// No capability.
    pub fn empty() -> (res: ToolCaps)
        ensures
            res == ToolCaps::none(),
    {
        ToolCaps {
            pressure: false,
            tilt: false,
            twist: false,
            tangential_pressure: false,
            hover: false,
            barrel_button: false,
        }
    }

    /// Pressure alone.
    pub fn pressure_only() -> (res: ToolCaps)
        ensures
            res == ToolCaps::only_pressure(),
    {
        ToolCaps {
            pressure: true,
            tilt: false,
            twist: false,
            tangential_pressure: false,
            hover: false,
            barrel_button: false,
        }
    }

    /// The capabilities of either.
    pub fn union(self, other: ToolCaps) -> (res: ToolCaps)
        ensures
            res.pressure == (self.pressure || other.pressure),
            res.tilt == (self.tilt || other.tilt),
            res.twist == (self.twist || other.twist),
            res.tangential_pressure == (self.tangential_pressure || other.tangential_pressure),
            res.hover == (self.hover || other.hover),
            res.barrel_button == (self.barrel_button || other.barrel_button),
    {
        ToolCaps {
            pressure: self.pressure || other.pressure,
            tilt: self.tilt || other.tilt,
            twist: self.twist || other.twist,
            tangential_pressure: self.tangential_pressure || other.tangential_pressure,
            hover: self.hover || other.hover,
            barrel_button: self.barrel_button || other.barrel_button,
        }
    }

    /// Whether every capability of `other` is present.
    pub fn contains(self, other: ToolCaps) -> (res: bool)
        ensures
            res == self.includes(other),
    {
        (!other.pressure || self.pressure) && (!other.tilt || self.tilt) && (!other.twist
            || self.twist) && (!other.tangential_pressure || self.tangential_pressure) && (
        !other.hover || self.hover) && (!other.barrel_button || self.barrel_button)
    }
}

/// The buttons of a stylus that are down with a sample.
#[derive(Debug, Clone, Copy, PartialEq, Eq, Hash, Structural)]
pub struct StylusButtons {
    pub contact: bool,
    pub barrel: bool,
    pub secondary: bool,
    pub inverted: bool,
}

impl StylusButtons {
    /// Tip contact and nothing else.
    pub open spec fn only_contact() -> StylusButtons {
        StylusButtons { contact: true, barrel: false, secondary: false, inverted: false }
    }

    /// No button.
    pub open spec fn none() -> StylusButtons {
        StylusButtons { contact: false, barrel: false, secondary: false, inverted: false }
    }
}

/// How final a sample is.
#[derive(Debug, Clone, Copy, PartialEq, Eq, Structural)]
pub enum SampleClass {
    /// As the hardware reported it.
    Committed,
    /// Delivered before the hardware had fully reported; a revision that carries the same
    /// index follows.
    Estimated { update_index: u64 },
    /// Extrapolated; to be dropped when real data arrives.
    Predicted,
}

/// One reported position of a pointer. Pressures are in 0 to 1, angles in degrees and the
/// time in nanoseconds since the session's input began.
#[derive(Debug, Clone, Copy, PartialEq)]
pub struct Sample {
    pub position: Point,
    pub timestamp: u128,
    pub pressure: Float32,
    pub tilt: Option<Tilt>,
    pub twist_deg: Option<Float32>,
    pub tangential_pressure: Option<Float32>,
    pub tool: ToolKind,
    pub pointer_id: PointerId,
    pub buttons: StylusButtons,
    pub class: SampleClass,
}

impl Sample {
    /// A committed sample that carries no optional axis.
    pub open spec fn plain(
        position: Point,
        timestamp: u128,
        pointer_id: PointerId,
        tool: ToolKind,
        pressure: Float32,
        buttons: StylusButtons,
    ) -> Sample {
        Sample {
            position,
            timestamp,
            pressure,
            tilt: None,
            twist_deg: None,
            tangential_pressure: None,
            tool,
            pointer_id,
            buttons,
            class: SampleClass::Committed,
        }
    }

    /// What `mouse` builds.
    pub open spec fn of_mouse(position: Point, timestamp: u128, pointer_id: PointerId) -> Sample {
        Sample::plain(
            position,
            timestamp,
            pointer_id,
            ToolKind::Mouse,
            Float32(0x3f80_0000),
            StylusButtons::only_contact(),
        )
    }

    /// What `finger` builds.
    pub open spec fn of_finger(
        position: Point,
        timestamp: u128,
        pointer_id: PointerId,
        force: Option<Float32>,
    ) -> Sample {
        Sample::plain(
            position,
            timestamp,
            pointer_id,
            ToolKind::Finger,
            match force {
                Some(f) => f,
                None => Float32(0x3f80_0000),
            },
            StylusButtons::only_contact(),
        )
    }

    /// What `new_pen` builds.
    pub open spec fn of_pen(
        position: Point,
        timestamp: u128,
        pointer_id: PointerId,
        tool: ToolKind,
    ) -> Sample {
        Sample::plain(position, timestamp, pointer_id, tool, Float32(0), StylusButtons::none())
    }

    /// A mouse sample: full pressure, in contact.
    pub fn mouse(position: Point, timestamp: u128, pointer_id: PointerId) -> (res: Sample)
        ensures
            res == Sample::of_mouse(position, timestamp, pointer_id),
    {
        Sample {
            position,
            timestamp,
            pressure: Float32(0x3f80_0000),
            tilt: None,
            twist_deg: None,
            tangential_pressure: None,
            tool: ToolKind::Mouse,
            pointer_id,
            buttons: StylusButtons {
                contact: true,
                barrel: false,
                secondary: false,
                inverted: false,
            },
            class: SampleClass::Committed,
        }
    }

    /// A finger sample, in contact. Without a reported force the pressure is full.
    pub fn finger(
        position: Point,
        timestamp: u128,
        pointer_id: PointerId,
        force: Option<Float32>,
    ) -> (res: Sample)
        ensures
            res == Sample::of_finger(position, timestamp, pointer_id, force),
    {
        Sample {
            position,
            timestamp,
            pressure: match force {
                Some(f) => f,
                None => Float32(0x3f80_0000),
            },
            tilt: None,
            twist_deg: None,
            tangential_pressure: None,
            tool: ToolKind::Finger,
            pointer_id,
            buttons: StylusButtons {
                contact: true,
                barrel: false,
                secondary: false,
                inverted: false,
            },
            class: SampleClass::Committed,
        }
    }

    /// A pen sample with every axis still to be filled in.
    pub fn new_pen(
        position: Point,
        timestamp: u128,
        pointer_id: PointerId,
        tool: ToolKind,
    ) -> (res: Sample)
        ensures
            res == Sample::of_pen(position, timestamp, pointer_id, tool),
    {
        Sample {
            position,
            timestamp,
            pressure: Float32(0),
            tilt: None,
            twist_deg: None,
            tangential_pressure: None,
            tool,
            pointer_id,
            buttons: StylusButtons {
                contact: false,
                barrel: false,
                secondary: false,
                inverted: false,
            },
            class: SampleClass::Committed,
        }
    }

    /// A pen sample that stands for an event without axis data, such as a cancel.
    pub fn new_pen_placeholder(
        position: Point,
        timestamp: u128,
        pointer_id: PointerId,
        tool: ToolKind,
    ) -> (res: Sample)
        ensures
            res == Sample::of_pen(position, timestamp, pointer_id, tool),
    {
        Sample::new_pen(position, timestamp, pointer_id, tool)
    }
}

/// Finalized field values for an earlier estimated sample; `None` leaves a field as it was.
#[derive(Debug, Clone, Copy, PartialEq)]
pub struct SampleRevision {
    pub pressure: Option<Float32>,
    pub tilt: Option<Tilt>,
    pub twist_deg: Option<Float32>,
    pub tangential_pressure: Option<Float32>,
}

impl SampleRevision {
    /// `sample` with the fields that the revision carries.
    pub open spec fn applied(self, sample: Sample) -> Sample {
        Sample {
            pressure: match self.pressure {
                Some(p) => p,
                None => sample.pressure,
            },
            tilt: match self.tilt {
                Some(t) => Some(t),
                None => sample.tilt,
            },
            twist_deg: match self.twist_deg {
                Some(d) => Some(d),
                None => sample.twist_deg,
            },
            tangential_pressure: match self.tangential_pressure {
                Some(p) => Some(p),
                None => sample.tangential_pressure,
            },
            ..sample
        }
    }

    /// Overwrites the fields of `sample` that the revision carries.
    pub fn apply_to(&self, sample: &mut Sample)
        ensures
            *final(sample) == self.applied(*old(sample)),
    {
        if let Some(p) = self.pressure {
            sample.pressure = p;
        }
        if let Some(t) = self.tilt {
            sample.tilt = Some(t);
        }
        if let Some(d) = self.twist_deg {
            sample.twist_deg = Some(d);
        }
        if let Some(p) = self.tangential_pressure {
            sample.tangential_pressure = Some(p);
        }
    }
}

impl Default for SampleRevision {
    fn default() -> (res: SampleRevision)
        ensures
            res == (SampleRevision {
                pressure: None,
                tilt: None,
                twist_deg: None,
                tangential_pressure: None,
            }),
    {
        SampleRevision { pressure: None, tilt: None, twist_deg: None, tangential_pressure: None }
    }
}

} // verus!
