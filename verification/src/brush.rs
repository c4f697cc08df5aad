//! The brush: how wide a stroke is, what color it has and which program paints it.

use crate::float32::Float32;
use vstd::prelude::*;

verus! {

/// Lower bound of `BrushParams::max_width`, as the bit pattern of 0.01. It only keeps the
/// multiplicative width shortcuts from being trapped at zero.
pub const MAX_WIDTH_MIN: u32 = 0x3c23_d70a;

/// Upper bound of `BrushParams::max_width`, as the bit pattern of 64.0.
pub const MAX_WIDTH_MAX: u32 = 0x4280_0000;

/// The bit pattern of 1.0.
pub const ONE: u32 = 0x3f80_0000;

/// A color in linear RGB with straight (not premultiplied) alpha.
#[derive(Debug, Clone, Copy, PartialEq)]
pub struct LinearRgba {
    pub r: Float32,
    pub g: Float32,
    pub b: Float32,
    pub a: Float32,
}

impl LinearRgba {
    /// The color with the given channels.
    #[must_use]
    pub fn new(r: Float32, g: Float32, b: Float32, a: Float32) -> (res: LinearRgba)
        ensures
            res == (LinearRgba { r, g, b, a }),
    {
        LinearRgba { r, g, b, a }
    }

    /// Opaque black.
    pub fn black() -> (res: LinearRgba)
        ensures
            res == (LinearRgba { r: Float32(0), g: Float32(0), b: Float32(0), a: Float32(ONE) }),
    {
        LinearRgba { r: Float32(0), g: Float32(0), b: Float32(0), a: Float32(ONE) }
    }

    /// Opaque white.
    pub fn white() -> (res: LinearRgba)
        ensures
            res == (LinearRgba {
                r: Float32(ONE),
                g: Float32(ONE),
                b: Float32(ONE),
                a: Float32(ONE),
            }),
    {
        LinearRgba { r: Float32(ONE), g: Float32(ONE), b: Float32(ONE), a: Float32(ONE) }
    }

    /// Fully transparent black.
    pub fn transparent() -> (res: LinearRgba)
        ensures
            res == (LinearRgba { r: Float32(0), g: Float32(0), b: Float32(0), a: Float32(0) }),
    {
        LinearRgba { r: Float32(0), g: Float32(0), b: Float32(0), a: Float32(0) }
    }
}

impl Default for LinearRgba {
    fn default() -> (res: LinearRgba)
        ensures
            res == (LinearRgba { r: Float32(0), g: Float32(0), b: Float32(0), a: Float32(ONE) }),
    {
        LinearRgba::black()
    }
}

/// How pen pressure maps to width.
#[derive(Debug, Clone, Copy, PartialEq, Eq, Structural)]
#[non_exhaustive]
pub enum PressureCurve {
    Linear,
}

impl PressureCurve {
    /// The pressure that `p` is mapped to.
    pub open spec fn mapped(self, p: Float32) -> Float32 {
        match self {
            PressureCurve::Linear => p,
        }
    }

    /// Maps a pressure in 0 to 1 through this curve.
    #[must_use]
    pub fn apply(self, p: Float32) -> (res: Float32)
        ensures
            res == self.mapped(p),
    {
        match self {
            PressureCurve::Linear => p,
        }
    }
}

/// Which program paints a stroke.
#[derive(Debug, Clone, Copy, PartialEq, Eq, Hash, Structural)]
#[non_exhaustive]
pub enum BrushType {
    Normal,
    Highlighter,
    Pigment,
    /// Read from a document of a later version; painted as `Normal`.
    Unknown,
}

impl Default for BrushType {
    fn default() -> (res: BrushType)
        ensures
            res == BrushType::Normal,
    {
        BrushType::Normal
    }
}

/// The shape and color of a brush. A stroke carries the parameters that were live when it
/// began.
#[derive(Debug, Clone, Copy, PartialEq)]
pub struct BrushParams {
    pub min_width: Float32,
    pub max_width: Float32,
    pub curve: PressureCurve,
    pub color: LinearRgba,
    pub brush_type: BrushType,
}

impl BrushParams {
    /// Width 0.5 to 4, linear pressure, the color that sRGB (0, 200, 220, 255) has in linear
    /// RGB, painted normally.
    pub open spec fn initial() -> BrushParams {
        BrushParams {
            min_width: Float32(0x3f00_0000),
            max_width: Float32(0x4080_0000),
            curve: PressureCurve::Linear,
            color: LinearRgba {
                r: Float32(0),
                g: Float32(0x3f13_dc51),
                b: Float32(0x3f37_37b3),
                a: Float32(0x3f80_0000),
            },
            brush_type: BrushType::Normal,
        }
    }

    /// The maximum width that a request for `v` leads to.
    pub open spec fn limited_max_width(v: Float32) -> Float32 {
        v.clamped(Float32(MAX_WIDTH_MIN), Float32(MAX_WIDTH_MAX))
    }

    /// The ratio of minimum to maximum width; 1 where the maximum is not positive.
    pub open spec fn ratio(self) -> Float32 {
        if Float32(0).below(self.max_width) {
            self.min_width.quotient(self.max_width)
        } else {
            Float32(ONE)
        }
    }

    /// These parameters with the maximum width set to `v` within its bounds and the minimum
    /// scaled along, so that the ratio of the two is kept.
    pub open spec fn with_max_width(self, v: Float32) -> BrushParams {
        BrushParams {
            max_width: BrushParams::limited_max_width(v),
            min_width: self.ratio().product(BrushParams::limited_max_width(v)),
            ..self
        }
    }

    /// These parameters with the minimum width set to `v` within 0 and the maximum.
    pub open spec fn with_min_width(self, v: Float32) -> BrushParams {
        BrushParams { min_width: v.clamped(Float32(0), self.max_width), ..self }
    }

    /// These parameters with the minimum width set to a ratio, within 0 and 1, of the maximum.
    pub open spec fn with_min_ratio(self, ratio: Float32) -> BrushParams {
        BrushParams {
            min_width: ratio.clamped(Float32(0), Float32(ONE)).product(self.max_width),
            ..self
        }
    }

    /// Sets the maximum width and scales the minimum along.
    pub fn set_max_width(&mut self, v: Float32)
        ensures
            *final(self) == old(self).with_max_width(v),
    {
        let new_max = v.clamp(Float32(MAX_WIDTH_MIN), Float32(MAX_WIDTH_MAX));
        let ratio = if Float32(0).lt(self.max_width) {
            self.min_width.div(self.max_width)
        } else {
            Float32(ONE)
        };
        self.max_width = new_max;
        self.min_width = ratio.mul(new_max);
    }

    /// Sets the minimum width, which redefines the ratio.
    pub fn set_min_width(&mut self, v: Float32)
        requires
            Float32(0).at_most(old(self).max_width),
        ensures
            *final(self) == old(self).with_min_width(v),
    {
        self.min_width = v.clamp(Float32(0), self.max_width);
    }

    /// Sets the minimum width as a ratio of the maximum.
    pub fn set_min_ratio(&mut self, ratio: Float32)
        ensures
            *final(self) == old(self).with_min_ratio(ratio),
    {
        let ratio = ratio.clamp(Float32(0), Float32(ONE));
        self.min_width = ratio.mul(self.max_width);
    }
}

impl BrushParams {
    /// The widths are in order: the maximum is positive and finite, the minimum lies from 0
    /// to it.
    pub open spec fn widths_in_order(self) -> bool {
        &&& Float32(0).below(self.max_width)
        &&& !self.max_width.infinite()
        &&& Float32(0).at_most(self.min_width)
        &&& self.min_width.at_most(self.max_width)
    }
}

/// Changing the maximum width to any number keeps the widths in order, keeps the maximum
/// within its bounds, and keeps equal widths equal.
pub proof fn lemma_max_width_keeps_order(brush: BrushParams, v: Float32)
    requires
        brush.widths_in_order(),
        !v.nan(),
    ensures
        brush.with_max_width(v).widths_in_order(),
        Float32(MAX_WIDTH_MIN).at_most(brush.with_max_width(v).max_width),
        brush.with_max_width(v).max_width.at_most(Float32(MAX_WIDTH_MAX)),
        brush.min_width == brush.max_width ==> brush.with_max_width(v).min_width
            == brush.with_max_width(v).max_width,
{
    crate::float32::lemma_quotient_with_larger(brush.min_width, brush.max_width);
    crate::float32::lemma_product_with_ratio(brush.ratio(), BrushParams::limited_max_width(v));
}

/// Changing the minimum width, directly or as a ratio, to any number keeps the widths in
/// order.
pub proof fn lemma_min_width_keeps_order(brush: BrushParams, v: Float32)
    requires
        brush.widths_in_order(),
        !v.nan(),
    ensures
        brush.with_min_width(v).widths_in_order(),
        brush.with_min_ratio(v).widths_in_order(),
{
    let ratio = v.clamped(Float32(0), Float32(ONE));
    crate::float32::lemma_product_with_ratio(ratio, brush.max_width);
}

impl Default for BrushParams {
    fn default() -> (res: BrushParams)
        ensures
            res == BrushParams::initial(),
    {
        BrushParams {
            min_width: Float32(0x3f00_0000),
            max_width: Float32(0x4080_0000),
            curve: PressureCurve::Linear,
            color: LinearRgba {
                r: Float32(0),
                g: Float32(0x3f13_dc51),
                b: Float32(0x3f37_37b3),
                a: Float32(ONE),
            },
            brush_type: BrushType::Normal,
        }
    }
}

} // verus!
