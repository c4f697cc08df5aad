//! The view of the page: how far it is moved and zoomed. It is no part of the document and
//! is not undone.

use crate::float32::Float32;
use crate::float64::Float64;
use crate::geometry::{Point, Size};
use vstd::prelude::*;

verus! {

/// The bit pattern of 4/3: pixels at a density of 1 for each point of the page.
pub const CSS_PER_PT: u64 = 0x3ff5_5555_5555_5555;

/// The bit pattern of 0.01, the least zoom.
pub const MIN_SCALE: u64 = 0x3f84_7ae1_47ae_147b;

/// The bit pattern of 256.0, the greatest zoom.
pub const MAX_SCALE: u64 = 0x4070_0000_0000_0000;

/// The bit pattern of 1.1, the factor of one zoom step.
pub const ZOOM_STEP: u64 = 0x3ff1_9999_9999_999a;

/// The bit pattern of 0.9: the part of the window that a fitted page fills, a margin of 0.05
/// being left on each side.
pub const FIT_PART: u64 = 0x3fec_cccc_cccc_cccd;

/// The bit pattern of 1.0.
pub const UNIT: u64 = 0x3ff0_0000_0000_0000;

/// The bit pattern of 2.0.
pub const TWO: u64 = 0x4000_0000_0000_0000;

/// The bit pattern of 20.0: how many pixels one line of the wheel pans.
pub const PIXELS_PER_LINE: u64 = 0x4034_0000_0000_0000;

/// The bit pattern of 80.0: how many pixels of a trackpad zoom as one line of the wheel.
pub const PIXELS_PER_ZOOM_LINE: u64 = 0x4054_0000_0000_0000;

/// The view of the page.
#[derive(Debug, Clone, Copy, PartialEq)]
pub struct Viewport {
    /// The point of the page at the top left of the window.
    pub translate_pt: Point,
    /// 1 shows the page in its natural size.
    pub scale: Float64,
}

/// How the page lies on the screen: a point is scaled by `scale` and then moved.
#[derive(Debug, Clone, Copy, PartialEq)]
pub struct Placement {
    pub scale: Float64,
    pub dx: Float64,
    pub dy: Float64,
}

/// A movement of the wheel.
#[derive(Debug, Clone, Copy, PartialEq)]
pub enum WheelDelta {
    Lines { x: Float32, y: Float32 },
    Pixels { x: Float64, y: Float64 },
}

/// A zoom within its bounds; NaN stays.
pub open spec fn limited_scale(scale: Float64) -> Float64 {
    scale.clamped(Float64(MIN_SCALE), Float64(MAX_SCALE))
}

/// The point in the middle of a size.
pub open spec fn center_of(size: Size) -> Point {
    Point { x: size.width.quotient(Float64(TWO)), y: size.height.quotient(Float64(TWO)) }
}

/// The point in the middle of a size.
pub fn center(size: Size) -> (res: Point)
    ensures
        res == center_of(size),
{
    Point { x: size.width.div(Float64(TWO)), y: size.height.div(Float64(TWO)) }
}

impl Viewport {
    /// Natural size, the origin of the page at the top left.
    pub open spec fn initial() -> Viewport {
        Viewport { translate_pt: Point { x: Float64(0), y: Float64(0) }, scale: Float64(UNIT) }
    }

    /// Physical pixels for each point of the page.
    pub open spec fn density(scale: Float64, dpi_scale: Float64) -> Float64 {
        scale.product(Float64(CSS_PER_PT)).product(dpi_scale)
    }

    /// The point of the page at a position on the screen.
    pub open spec fn on_page(self, px: Point, dpi_scale: Float64) -> Point {
        let k = Viewport::density(self.scale, dpi_scale);
        Point {
            x: px.x.quotient(k).sum(self.translate_pt.x),
            y: px.y.quotient(k).sum(self.translate_pt.y),
        }
    }

    /// The position on the screen of a point of the page.
    pub open spec fn on_screen(self, pt: Point, dpi_scale: Float64) -> Point {
        let k = Viewport::density(self.scale, dpi_scale);
        Point {
            x: pt.x.difference(self.translate_pt.x).product(k),
            y: pt.y.difference(self.translate_pt.y).product(k),
        }
    }

    /// The view with the given zoom in which `pt` of the page lies at `px` on the screen.
    pub open spec fn anchored(pt: Point, px: Point, scale: Float64, dpi_scale: Float64) -> Viewport {
        let k = Viewport::density(scale, dpi_scale);
        Viewport {
            translate_pt: Point {
                x: pt.x.difference(px.x.quotient(k)),
                y: pt.y.difference(px.y.quotient(k)),
            },
            scale,
        }
    }

    /// The view zoomed by a factor, within the bounds, around a position on the screen.
    pub open spec fn zoomed(self, px: Point, factor: Float64, dpi_scale: Float64) -> Viewport {
        Viewport::anchored(
            self.on_page(px, dpi_scale),
            px,
            limited_scale(self.scale.product(factor)),
            dpi_scale,
        )
    }

    /// The zoom at which a page fits a window.
    pub open spec fn fitting_scale(window_px: Size, page_pt: Size, dpi_scale: Float64) -> Float64 {
        let pixels = Float64(CSS_PER_PT).product(dpi_scale);
        let across = window_px.width.quotient(pixels).quotient(page_pt.width);
        let down = window_px.height.quotient(pixels).quotient(page_pt.height);
        limited_scale(across.smaller(down).product(Float64(FIT_PART)))
    }

    /// The view in which a page fits a window, its center in the middle. A page without a
    /// positive size leaves the view as it is.
    pub open spec fn fitted(self, window_px: Size, page_pt: Size, dpi_scale: Float64) -> Viewport {
        if page_pt.width.at_most(Float64(0)) || page_pt.height.at_most(Float64(0)) {
            self
        } else {
            Viewport::anchored(
                center_of(page_pt),
                center_of(window_px),
                Viewport::fitting_scale(window_px, page_pt, dpi_scale),
                dpi_scale,
            )
        }
    }

    fn pixels_per_point(scale: Float64, dpi_scale: Float64) -> (res: Float64)
        ensures
            res == Viewport::density(scale, dpi_scale),
    {
        scale.mul(Float64(CSS_PER_PT)).mul(dpi_scale)
    }

    fn anchor(pt: Point, px: Point, scale: Float64, dpi_scale: Float64) -> (res: Viewport)
        ensures
            res == Viewport::anchored(pt, px, scale, dpi_scale),
    {
        let k = Viewport::pixels_per_point(scale, dpi_scale);
        Viewport {
            translate_pt: Point { x: pt.x.sub(px.x.div(k)), y: pt.y.sub(px.y.div(k)) },
            scale,
        }
    }

    /// How the page lies on the screen.
    #[must_use]
    pub fn to_affine(self, dpi_scale: Float64) -> (res: Placement)
        ensures
            res.scale == Viewport::density(self.scale, dpi_scale),
            res.dx == self.translate_pt.x.negated().product(res.scale),
            res.dy == self.translate_pt.y.negated().product(res.scale),
    {
        let k = Viewport::pixels_per_point(self.scale, dpi_scale);
        Placement {
            scale: k,
            dx: self.translate_pt.x.neg().mul(k),
            dy: self.translate_pt.y.neg().mul(k),
        }
    }

    /// The point of the page at a position on the screen.
    #[must_use]
    pub fn screen_to_world(&self, physical_px: Point, dpi_scale: Float64) -> (res: Point)
        ensures
            res == self.on_page(physical_px, dpi_scale),
    {
        let k = Viewport::pixels_per_point(self.scale, dpi_scale);
        Point {
            x: physical_px.x.div(k).add(self.translate_pt.x),
            y: physical_px.y.div(k).add(self.translate_pt.y),
        }
    }

    /// The position on the screen of a point of the page.
    #[must_use]
    pub fn world_to_screen(&self, world_pt: Point, dpi_scale: Float64) -> (res: Point)
        ensures
            res == self.on_screen(world_pt, dpi_scale),
    {
        let k = Viewport::pixels_per_point(self.scale, dpi_scale);
        Point {
            x: world_pt.x.sub(self.translate_pt.x).mul(k),
            y: world_pt.y.sub(self.translate_pt.y).mul(k),
        }
    }

    /// Zooms by a factor, within the bounds, so that the point of the page under the cursor
    /// stays there.
    pub fn zoom_at_cursor(&mut self, cursor_physical: Point, factor: Float64, dpi_scale: Float64)
        ensures
            *final(self) == old(self).zoomed(cursor_physical, factor, dpi_scale),
    {
        let cursor_world = self.screen_to_world(cursor_physical, dpi_scale);
        let new_scale = self.scale.mul(factor).clamp(Float64(MIN_SCALE), Float64(MAX_SCALE));
        *self = Viewport::anchor(cursor_world, cursor_physical, new_scale, dpi_scale);
    }

    /// The view moved by pixels. The movement is multiplied by the reciprocal of the density.
    pub open spec fn panned(self, px: Point, dpi_scale: Float64) -> Viewport {
        let per_pixel = Float64(UNIT).quotient(Viewport::density(self.scale, dpi_scale));
        Viewport {
            translate_pt: Point {
                x: self.translate_pt.x.sum(px.x.product(per_pixel)),
                y: self.translate_pt.y.sum(px.y.product(per_pixel)),
            },
            scale: self.scale,
        }
    }

    /// Moves the view by pixels.
    pub fn pan(&mut self, delta_physical: Point, dpi_scale: Float64)
        ensures
            *final(self) == old(self).panned(delta_physical, dpi_scale),
    {
        let k = Viewport::pixels_per_point(self.scale, dpi_scale);
        let per_pixel = Float64(UNIT).div(k);
        self.translate_pt = Point {
            x: self.translate_pt.x.add(delta_physical.x.mul(per_pixel)),
            y: self.translate_pt.y.add(delta_physical.y.mul(per_pixel)),
        };
    }

    /// Goes back to the natural size at the origin.
    pub fn reset(&mut self)
        ensures
            *final(self) == Viewport::initial(),
    {
        *self = Viewport {
            translate_pt: Point { x: Float64(0), y: Float64(0) },
            scale: Float64(UNIT),
        };
    }

    /// Zooms to a given zoom, within the bounds, around the center of the window.
    pub fn zoom_to(&mut self, scale: Float64, window_px: Size, dpi_scale: Float64)
        ensures
            *final(self) == old(self).zoomed(
                center_of(window_px),
                limited_scale(scale).quotient(old(self).scale),
                dpi_scale,
            ),
    {
        let target = scale.clamp(Float64(MIN_SCALE), Float64(MAX_SCALE));
        let factor = target.div(self.scale);
        self.zoom_at_cursor(center(window_px), factor, dpi_scale);
    }

    /// Fits a page into a window.
    pub fn zoom_to_fit(&mut self, window_px: Size, page_pt: Size, dpi_scale: Float64)
        ensures
            *final(self) == old(self).fitted(window_px, page_pt, dpi_scale),
    {
        if page_pt.width.le(Float64(0)) || page_pt.height.le(Float64(0)) {
            return ;
        }
        let pixels = Float64(CSS_PER_PT).mul(dpi_scale);
        let across = window_px.width.div(pixels).div(page_pt.width);
        let down = window_px.height.div(pixels).div(page_pt.height);
        let scale = across.min(down).mul(Float64(FIT_PART)).clamp(
            Float64(MIN_SCALE),
            Float64(MAX_SCALE),
        );
        *self = Viewport::anchor(center(page_pt), center(window_px), scale, dpi_scale);
    }
}

impl Default for Viewport {
    fn default() -> (res: Viewport)
        ensures
            res == Viewport::initial(),
    {
        Viewport { translate_pt: Point { x: Float64(0), y: Float64(0) }, scale: Float64(UNIT) }
    }
}

impl WheelDelta {
    /// How far the wheel pans, in pixels.
    pub open spec fn pixels(self) -> Point {
        match self {
            WheelDelta::Lines { x, y } => Point {
                x: Float64::widened(x).product(Float64(PIXELS_PER_LINE)),
                y: Float64::widened(y).product(Float64(PIXELS_PER_LINE)),
            },
            WheelDelta::Pixels { x, y } => Point { x, y },
        }
    }

    /// How far the wheel pans, in pixels.
    pub fn pan_pixels(self) -> (res: Point)
        ensures
            res == self.pixels(),
    {
        match self {
            WheelDelta::Lines { x, y } => Point {
                x: Float64::from_f32(x).mul(Float64(PIXELS_PER_LINE)),
                y: Float64::from_f32(y).mul(Float64(PIXELS_PER_LINE)),
            },
            WheelDelta::Pixels { x, y } => Point { x, y },
        }
    }

    /// How many steps the wheel zooms.
    pub fn zoom_lines(self) -> (res: Float64)
        ensures
            res == (match self {
                WheelDelta::Lines { x, y } => Float64::widened(y),
                WheelDelta::Pixels { x, y } => y.quotient(Float64(PIXELS_PER_ZOOM_LINE)),
            }),
    {
        match self {
            WheelDelta::Lines { x, y } => Float64::from_f32(y),
            WheelDelta::Pixels { x, y } => y.div(Float64(PIXELS_PER_ZOOM_LINE)),
        }
    }
}

/// The factor of one step inwards or outwards.
pub fn zoom_step(inwards: bool) -> (res: Float64)
    ensures
        res == (if inwards {
            Float64(ZOOM_STEP)
        } else {
            Float64(UNIT).quotient(Float64(ZOOM_STEP))
        }),
{
    if inwards {
        Float64(ZOOM_STEP)
    } else {
        Float64(UNIT).div(Float64(ZOOM_STEP))
    }
}

/// The factor of a pinch: 1 and what it reports.
pub fn pinch_factor(delta: Float64) -> (res: Float64)
    ensures
        res == Float64(UNIT).sum(delta),
{
    Float64(UNIT).add(delta)
}

/// The zoom is within its bounds.
pub open spec fn scale_in_bounds(v: Viewport) -> bool {
    Float64(MIN_SCALE).at_most(v.scale) && v.scale.at_most(Float64(MAX_SCALE))
}

proof fn lemma_limited_scale(scale: Float64)
    requires
        !scale.nan(),
    ensures
        Float64(MIN_SCALE).at_most(limited_scale(scale)),
        limited_scale(scale).at_most(Float64(MAX_SCALE)),
{
}

/// However the view is zoomed, the zoom stays within its bounds, as long as what it is to
/// become is a number.
pub proof fn lemma_zoom_stays_in_bounds(v: Viewport, px: Point, factor: Float64, dpi_scale: Float64)
    requires
        !v.scale.product(factor).nan(),
    ensures
        scale_in_bounds(v.zoomed(px, factor, dpi_scale)),
{
    lemma_limited_scale(v.scale.product(factor));
}

/// Fitting a page of positive size keeps the zoom within its bounds, as long as the fitting
/// zoom is a number.
pub proof fn lemma_fit_stays_in_bounds(v: Viewport, window_px: Size, page_pt: Size, dpi_scale: Float64)
    requires
        scale_in_bounds(v),
        !Viewport::fitting_scale(window_px, page_pt, dpi_scale).nan(),
    ensures
        scale_in_bounds(v.fitted(window_px, page_pt, dpi_scale)),
{
    let pixels = Float64(CSS_PER_PT).product(dpi_scale);
    let across = window_px.width.quotient(pixels).quotient(page_pt.width);
    let down = window_px.height.quotient(pixels).quotient(page_pt.height);
    let scale = across.smaller(down).product(Float64(FIT_PART));
    if !scale.nan() {
        lemma_limited_scale(scale);
    }
}

/// A view starts within its bounds.
pub proof fn lemma_initial_view_is_in_bounds()
    ensures
        scale_in_bounds(Viewport::initial()),
{
}

} // verus!
