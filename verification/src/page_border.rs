//! The border of the page. It belongs to the screen and not to the picture: it is as thick at
//! every zoom.

use crate::float64::Float64;
use crate::geometry::Page;
use vstd::prelude::*;

verus! {

/// The bit pattern of 1.5: the thickness of the border in pixels.
pub const BORDER_PX: u64 = 0x3ff8_0000_0000_0000;

/// The thickness on the page of the border: its pixels over the scale of the screen, or as
/// many units without a positive scale.
pub open spec fn border_thickness(screen_scale: Float64) -> Float64 {
    if Float64(0).below(screen_scale) {
        Float64(BORDER_PX).quotient(screen_scale)
    } else {
        Float64(BORDER_PX)
    }
}

/// The thickness of the border on the page, where the border is shown.
pub fn page_border(page: Page, screen_scale: Float64) -> (res: Option<Float64>)
    ensures
        res == (if page.show_bounds {
            Some(border_thickness(screen_scale))
        } else {
            None
        }),
{
    if !page.show_bounds {
        return None;
    }
    if Float64(0).lt(screen_scale) {
        Some(Float64(BORDER_PX).div(screen_scale))
    } else {
        Some(Float64(BORDER_PX))
    }
}

} // verus!
