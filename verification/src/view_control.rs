//! What the view commands and the wheel do to the view.

use crate::engine::Command;
use crate::float64::Float64;
use crate::geometry::{Page, Point, Size};
use crate::ui::ViewAction;
use crate::viewport::{zoom_step, Viewport, WheelDelta, UNIT, ZOOM_STEP};
use vstd::prelude::*;

verus! {

impl Viewport {
    /// The view after an action. One step of zoom is anchored at `anchor`, the natural size
    /// at the center of the window; what concerns the page leaves the view alone.
    pub open spec fn acted(
        self,
        action: ViewAction,
        anchor: Point,
        window_px: Size,
        page: Page,
        dpi_scale: Float64,
    ) -> Viewport {
        match action {
            ViewAction::ZoomIn => self.zoomed(anchor, Float64(ZOOM_STEP), dpi_scale),
            ViewAction::ZoomOut => self.zoomed(
                anchor,
                Float64(UNIT).quotient(Float64(ZOOM_STEP)),
                dpi_scale,
            ),
            ViewAction::ZoomTo100 => self.zoomed(
                crate::viewport::center_of(window_px),
                crate::viewport::limited_scale(Float64(UNIT)).quotient(self.scale),
                dpi_scale,
            ),
            ViewAction::ZoomToFit => self.fitted(window_px, page.size, dpi_scale),
            ViewAction::ResetView => Viewport::initial(),
            ViewAction::TogglePageBounds => self,
            ViewAction::ToggleClipToBounds => self,
        }
    }

    /// Carries out an action on the view, or hands back the command of one on the page.
    pub fn apply_view_action(
        &mut self,
        action: ViewAction,
        anchor: Point,
        window_px: Size,
        page: Page,
        dpi_scale: Float64,
    ) -> (res: Option<Command>)
        ensures
            *final(self) == old(self).acted(action, anchor, window_px, page, dpi_scale),
            res == action.on_page(page),
    {
        match action {
            ViewAction::ZoomIn => self.zoom_at_cursor(anchor, zoom_step(true), dpi_scale),
            ViewAction::ZoomOut => self.zoom_at_cursor(anchor, zoom_step(false), dpi_scale),
            ViewAction::ZoomTo100 => self.zoom_to(Float64(UNIT), window_px, dpi_scale),
            ViewAction::ZoomToFit => self.zoom_to_fit(window_px, page.size, dpi_scale),
            ViewAction::ResetView => self.reset(),
            ViewAction::TogglePageBounds => {},
            ViewAction::ToggleClipToBounds => {},
        }
        action.page_command(page)
    }

    /// Turns the wheel: it zooms around `anchor` by `factor`, which is one step raised to the
    /// lines of the wheel, or pans.
    pub fn handle_wheel(
        &mut self,
        delta: WheelDelta,
        zooms: bool,
        factor: Float64,
        anchor: Point,
        dpi_scale: Float64,
    )
        ensures
            *final(self) == (if zooms {
                old(self).zoomed(anchor, factor, dpi_scale)
            } else {
                old(self).panned(delta.pixels(), dpi_scale)
            }),
    {
        if zooms {
            self.zoom_at_cursor(anchor, factor, dpi_scale);
        } else {
            self.pan(delta.pan_pixels(), dpi_scale);
        }
    }
}

} // verus!
