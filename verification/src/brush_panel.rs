//! The brush settings panel: what it shows and which actions its controls stand for.

use crate::brush::{BrushParams, BrushType, LinearRgba, ONE};
use crate::float32::Float32;
use crate::ui::BrushAction;
use vstd::prelude::*;

verus! {

/// The name of a brush type.
pub fn brush_type_label(brush_type: BrushType) -> (res: &'static str)
    ensures
        res@ == (match brush_type {
            BrushType::Normal => "Normal"@,
            BrushType::Highlighter => "Highlighter"@,
            BrushType::Pigment => "Pigment (paint)"@,
            BrushType::Unknown => "Unknown (fallback)"@,
        }),
{
    match brush_type {
        BrushType::Normal => "Normal",
        BrushType::Highlighter => "Highlighter",
        BrushType::Pigment => "Pigment (paint)",
        BrushType::Unknown => "Unknown (fallback)",
    }
}

/// What a brush type does, in one sentence or two.
pub fn brush_type_tooltip(brush_type: BrushType) -> (res: &'static str)
    ensures
        res@ == (match brush_type {
            BrushType::Normal => "Standard alpha-over: opaque or semi-opaque ink that covers what's beneath. Most pens, markers, and inks behave this way."@,
            BrushType::Highlighter => "Multiplicative tint: yellow over black stays black, yellow over white tints toward yellow. Overlapping passes saturate further."@,
            BrushType::Pigment => "Paint-style mixing: Kubelka–Munk in spectral space against the current substrate. Yellow over blue mixes to green."@,
            BrushType::Unknown => "Forward-compat fallback. This document was written by a newer build that introduced a brush type this binary doesn't recognize."@,
        }),
{
    match brush_type {
        BrushType::Normal => "Standard alpha-over: opaque or semi-opaque ink that covers what's beneath. Most pens, markers, and inks behave this way.",
        BrushType::Highlighter => "Multiplicative tint: yellow over black stays black, yellow over white tints toward yellow. Overlapping passes saturate further.",
        BrushType::Pigment => "Paint-style mixing: Kubelka–Munk in spectral space against the current substrate. Yellow over blue mixes to green.",
        BrushType::Unknown => "Forward-compat fallback. This document was written by a newer build that introduced a brush type this binary doesn't recognize.",
    }
}

/// The brush types that can be chosen, in order. `Unknown` only shows where a document
/// carries it.
pub fn selectable_brush_types() -> (res: Vec<BrushType>)
    ensures
        res@ == seq![BrushType::Normal, BrushType::Highlighter, BrushType::Pigment],
{
    let mut res: Vec<BrushType> = Vec::new();
    res.push(BrushType::Normal);
    res.push(BrushType::Highlighter);
    res.push(BrushType::Pigment);
    assert(res@ =~= seq![BrushType::Normal, BrushType::Highlighter, BrushType::Pigment]);
    res
}

/// The ratio that the minimum-width slider shows: minimum over maximum width within 0 and
/// 1, or 0 where the maximum is not positive.
pub open spec fn shown_ratio(brush: BrushParams) -> Float32 {
    if Float32(0).below(brush.max_width) {
        brush.min_width.quotient(brush.max_width).clamped(Float32(0), Float32(ONE))
    } else {
        Float32(0)
    }
}

/// The ratio that the minimum-width slider shows.
pub fn current_ratio(brush: BrushParams) -> (res: Float32)
    ensures
        res == shown_ratio(brush),
{
    if Float32(0).lt(brush.max_width) {
        brush.min_width.div(brush.max_width).clamp(Float32(0), Float32(ONE))
    } else {
        Float32(0)
    }
}

/// What a click on a brush type does.
pub open spec fn type_choice(current: BrushType, clicked: BrushType) -> Option<BrushAction> {
    if clicked == current {
        None
    } else {
        Some(BrushAction::SetBrushType(clicked))
    }
}

/// What setting the opacity does.
pub open spec fn opacity_choice(color: LinearRgba, opacity: Float32) -> BrushAction {
    BrushAction::SetColor(LinearRgba { a: opacity.clamped(Float32(0), Float32(ONE)), ..color })
}

/// A click on a brush type acts only where it is not the current one.
pub fn choose_brush_type(current: BrushType, clicked: BrushType) -> (res: Option<BrushAction>)
    ensures
        res == type_choice(current, clicked),
        res == (if clicked == current {
            None::<BrushAction>
        } else {
            Some(BrushAction::SetBrushType(clicked))
        }),
{
    if clicked == current {
        None
    } else {
        Some(BrushAction::SetBrushType(clicked))
    }
}

/// Setting the opacity changes the alpha of the color, within 0 and 1, and nothing else.
pub fn choose_opacity(color: LinearRgba, opacity: Float32) -> (res: BrushAction)
    ensures
        res == opacity_choice(color, opacity),
        res == BrushAction::SetColor(
            (LinearRgba { a: opacity.clamped(Float32(0), Float32(ONE)), ..color }),
        ),
{
    let a = opacity.clamp(Float32(0), Float32(ONE));
    BrushAction::SetColor(LinearRgba { r: color.r, g: color.g, b: color.b, a })
}

/// For a brush whose widths are in order, the shown ratio is the ratio itself: clamping
/// changes nothing.
pub proof fn lemma_shown_ratio_is_the_ratio(brush: BrushParams)
    requires
        brush.widths_in_order(),
    ensures
        shown_ratio(brush) == brush.ratio(),
{
    crate::float32::lemma_quotient_with_larger(brush.min_width, brush.max_width);
}

} // verus!
