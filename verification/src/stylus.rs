//! The unified stream of stylus events.

use crate::float32::Float32;
use crate::geometry::Point;
use crate::sample::{PointerId, Sample, SampleRevision, ToolCaps};
use vstd::prelude::*;

verus! {

/// Which transition a sample event stands for.
#[derive(Debug, Clone, Copy, PartialEq, Eq, Hash, Structural)]
pub enum Phase {
    Hover,
    Down,
    Move,
    Up,
    Cancel,
}

/// Pose of a pencil off the surface. Angles are in radians.
#[derive(Debug, Clone, Copy, PartialEq)]
pub struct HoverPose {
    pub position: Point,
    pub z_offset: Option<Float32>,
    pub altitude_rad: Float32,
    pub azimuth_rad: Float32,
    pub roll_rad: Option<Float32>,
}

/// Gestures on the side of a pencil that ride on no touch.
#[derive(Debug, Clone, Copy, PartialEq, Eq, Hash, Structural)]
#[non_exhaustive]
pub enum PencilInteractionKind {
    Tap,
    SqueezeBegan,
    SqueezeChanged,
    SqueezeEnded,
    SqueezeCancelled,
}

/// One event of the unified stream. Positions are in physical pixels of the window.
#[derive(Debug, Clone, Copy, PartialEq)]
#[non_exhaustive]
pub enum StylusEvent {
    Sample { sample: Sample, phase: Phase, caps: ToolCaps },
    /// Refines an earlier sample that was sent as an estimate with this index.
    Revise { pointer_id: PointerId, update_index: u64, revision: SampleRevision },
    PencilInteraction { kind: PencilInteractionKind, hover_pose: Option<HoverPose> },
}

} // verus!
