//! Positions and sizes on the page and on the screen.

pub use crate::float64::Float64;
use vstd::prelude::*;

verus! {

/// A position in physical pixels or page units.
#[derive(Debug, Clone, Copy, Default)]
pub struct Point {
    pub x: Float64,
    pub y: Float64,
}

impl Point {
    /// Equal as positions.
    pub open spec fn same_place(self, other: Point) -> bool {
        self.x.same_number(other.x) && self.y.same_number(other.y)
    }

    /// The point with the given coordinates.
    pub fn new(x: Float64, y: Float64) -> (res: Point)
        ensures
            res == (Point { x, y }),
    {
        Point { x, y }
    }

    /// The origin.
    pub fn zero() -> (res: Point)
        ensures
            res == Point::origin(),
    {
        Point { x: Float64(0), y: Float64(0) }
    }

    /// The origin.
    pub open spec fn origin() -> Point {
        Point { x: Float64(0), y: Float64(0) }
    }
}

impl PartialEq for Point {
    fn eq(&self, other: &Point) -> (res: bool) {
        self.x.equals(other.x) && self.y.equals(other.y)
    }
}

impl vstd::std_specs::cmp::PartialEqSpecImpl for Point {
    open spec fn obeys_eq_spec() -> bool {
        true
    }

    open spec fn eq_spec(&self, other: &Point) -> bool {
        self.same_place(*other)
    }
}

/// A width and a height.
#[derive(Debug, Clone, Copy, PartialEq, Default)]
pub struct Size {
    pub width: Float64,
    pub height: Float64,
}

impl Size {
    /// The size with the given sides.
    pub fn new(width: Float64, height: Float64) -> (res: Size)
        ensures
            res == (Size { width, height }),
    {
        Size { width, height }
    }
}

/// The document page: the bounded paper that strokes live in. The two flags are
/// independent of each other, so one type spans bounded paper, an unbounded canvas and an
/// artboard with bleed.
#[derive(Debug, Clone, Copy, PartialEq)]
pub struct Page {
    pub size: Size,
    pub show_bounds: bool,
    pub clip_to_bounds: bool,
}

impl Page {
    /// 1920 by 1080, bounds shown, nothing clipped.
    pub open spec fn initial() -> Page {
        Page {
            size: Size {
                width: Float64(0x409e_0000_0000_0000),
                height: Float64(0x4090_e000_0000_0000),
            },
            show_bounds: true,
            clip_to_bounds: false,
        }
    }
}

impl Default for Page {
    fn default() -> (res: Page)
        ensures
            res == Page::initial(),
    {
        Page {
            size: Size {
                width: Float64(0x409e_0000_0000_0000),
                height: Float64(0x4090_e000_0000_0000),
            },
            show_bounds: true,
            clip_to_bounds: false,
        }
    }
}

} // verus!
