//! What the plain and the highlighter program do to one pixel of a substrate. A pixel holds a
//! color in linear RGB with straight alpha; its alpha is the fraction that paint covers.

use crate::brush::{LinearRgba, ONE};
use crate::float32::Float32;
use vstd::prelude::*;

verus! {

/// How strongly a stroke acts on a pixel: coverage times alpha, within 0 and 1.
pub open spec fn strength(brush_alpha: Float32, coverage: Float32) -> Float32 {
    coverage.product(brush_alpha).clamped(Float32(0), Float32(ONE))
}

/// A channel moved towards `brush` by `t`: `canvas (1 - t) + brush t`.
#[verifier::opaque]
pub open spec fn laid_over(canvas: Float32, brush: Float32, t: Float32) -> Float32 {
    canvas.product(Float32(ONE).difference(t)).sum(brush.product(t))
}

/// A channel tinted by `brush`: `canvas (1 - t (1 - brush))`.
#[verifier::opaque]
pub open spec fn tinted(canvas: Float32, brush: Float32, t: Float32) -> Float32 {
    canvas.product(
        Float32(ONE).difference(t.product(Float32(ONE).difference(brush))),
    )
}

/// The covered fraction after covering `t` of what was free: `alpha + (1 - alpha) t`.
#[verifier::opaque]
pub open spec fn covered(alpha: Float32, t: Float32) -> Float32 {
    alpha.sum(Float32(ONE).difference(alpha).product(t))
}

/// The pixel after a plain stroke.
pub open spec fn plain_result(
    canvas: LinearRgba,
    brush: LinearRgba,
    coverage: Float32,
) -> LinearRgba {
    let t = strength(brush.a, coverage);
    LinearRgba {
        r: laid_over(canvas.r, brush.r, t),
        g: laid_over(canvas.g, brush.g, t),
        b: laid_over(canvas.b, brush.b, t),
        a: covered(canvas.a, t),
    }
}

/// The pixel after a stroke of the highlighter.
pub open spec fn highlighter_result(
    canvas: LinearRgba,
    brush: LinearRgba,
    coverage: Float32,
) -> LinearRgba {
    let t = strength(brush.a, coverage);
    LinearRgba {
        r: tinted(canvas.r, brush.r, t),
        g: tinted(canvas.g, brush.g, t),
        b: tinted(canvas.b, brush.b, t),
        a: covered(canvas.a, t),
    }
}

fn act(brush_alpha: Float32, coverage: Float32) -> (res: Float32)
    ensures
        res == strength(brush_alpha, coverage),
{
    coverage.mul(brush_alpha).clamp(Float32(0), Float32(ONE))
}

fn lay_over(canvas: Float32, brush: Float32, t: Float32) -> (res: Float32)
    ensures
        res == laid_over(canvas, brush, t),
{
    reveal(laid_over);
    canvas.mul(Float32(ONE).sub(t)).add(brush.mul(t))
}

fn tint(canvas: Float32, brush: Float32, t: Float32) -> (res: Float32)
    ensures
        res == tinted(canvas, brush, t),
{
    reveal(tinted);
    canvas.mul(Float32(ONE).sub(t.mul(Float32(ONE).sub(brush))))
}

fn cover(alpha: Float32, t: Float32) -> (res: Float32)
    ensures
        res == covered(alpha, t),
{
    reveal(covered);
    alpha.add(Float32(ONE).sub(alpha).mul(t))
}

/// Lays a brush over a pixel.
pub fn apply_plain(canvas: LinearRgba, brush: LinearRgba, coverage: Float32) -> (res: LinearRgba)
    ensures
        res == plain_result(canvas, brush, coverage),
{
    let t = act(brush.a, coverage);
    LinearRgba {
        r: lay_over(canvas.r, brush.r, t),
        g: lay_over(canvas.g, brush.g, t),
        b: lay_over(canvas.b, brush.b, t),
        a: cover(canvas.a, t),
    }
}

/// Tints a pixel with a brush.
pub fn apply_highlighter(canvas: LinearRgba, brush: LinearRgba, coverage: Float32) -> (res:
    LinearRgba)
    ensures
        res == highlighter_result(canvas, brush, coverage),
{
    let t = act(brush.a, coverage);
    LinearRgba {
        r: tint(canvas.r, brush.r, t),
        g: tint(canvas.g, brush.g, t),
        b: tint(canvas.b, brush.b, t),
        a: cover(canvas.a, t),
    }
}

/// A color whose channels are finite and not negative, with an alpha that can be taken
/// from 1.
pub open spec fn sound(c: LinearRgba) -> bool {
    &&& c.r.plain()
    &&& c.g.plain()
    &&& c.b.plain()
    &&& c.a.plain()
    &&& Float32(ONE).difference(c.a).finite()
}

proof fn lemma_no_strength(alpha: Float32)
    requires
        alpha.plain(),
    ensures
        strength(alpha, Float32(0)) == Float32(0),
{
    crate::float32::identities::lemma_zero_times(alpha);
}

proof fn lemma_laid_over_ends(canvas: Float32, brush: Float32)
    requires
        canvas.plain(),
        brush.plain(),
    ensures
        laid_over(canvas, brush, Float32(0)) == canvas,
        laid_over(canvas, brush, Float32(ONE)) == brush,
{
    reveal(laid_over);
    crate::float32::identities::lemma_one_minus();
    crate::float32::identities::lemma_one_times(canvas);
    crate::float32::identities::lemma_one_times(brush);
    crate::float32::identities::lemma_zero_times(canvas);
    crate::float32::identities::lemma_zero_times(brush);
    crate::float32::identities::lemma_product_commutes(canvas, Float32(ONE));
    crate::float32::identities::lemma_product_commutes(brush, Float32(ONE));
    crate::float32::identities::lemma_plus_zero(canvas, Float32(0));
    crate::float32::identities::lemma_plus_zero(brush, Float32(0));
}

proof fn lemma_nothing_covered(alpha: Float32)
    requires
        alpha.plain(),
        Float32(ONE).difference(alpha).finite(),
    ensures
        covered(alpha, Float32(0)) == alpha,
{
    reveal(covered);
    let free = Float32(ONE).difference(alpha);
    crate::float32::identities::lemma_zero_times(free);
    crate::float32::identities::lemma_plus_zero(alpha, free.product(Float32(0)));
}

/// Where a stroke does not cover a pixel, a plain stroke leaves it as it is.
pub proof fn lemma_plain_without_coverage(canvas: LinearRgba, brush: LinearRgba)
    requires
        sound(canvas),
        sound(brush),
    ensures
        plain_result(canvas, brush, Float32(0)) == canvas,
{
    lemma_no_strength(brush.a);
    lemma_laid_over_ends(canvas.r, brush.r);
    lemma_laid_over_ends(canvas.g, brush.g);
    lemma_laid_over_ends(canvas.b, brush.b);
    lemma_nothing_covered(canvas.a);
}

/// An opaque plain stroke that covers a pixel fully gives it the color of the brush, whatever
/// was there.
pub proof fn lemma_plain_with_full_coverage(canvas: LinearRgba, brush: LinearRgba)
    requires
        sound(canvas),
        sound(brush),
        brush.a == Float32(ONE),
    ensures
        plain_result(canvas, brush, Float32(ONE)).r == brush.r,
        plain_result(canvas, brush, Float32(ONE)).g == brush.g,
        plain_result(canvas, brush, Float32(ONE)).b == brush.b,
{
    crate::float32::identities::lemma_one_times(Float32(ONE));
    lemma_laid_over_ends(canvas.r, brush.r);
    lemma_laid_over_ends(canvas.g, brush.g);
    lemma_laid_over_ends(canvas.b, brush.b);
}

/// The highlighter leaves black: a channel without light stays without light, as long as the
/// tint is a finite number.
pub proof fn lemma_highlighter_keeps_black(brush: Float32, t: Float32)
    requires
        Float32(ONE).difference(t.product(Float32(ONE).difference(brush))).finite(),
    ensures
        tinted(Float32(0), brush, t).zero(),
{
    reveal(tinted);
    crate::float32::identities::lemma_zero_times(
        Float32(ONE).difference(t.product(Float32(ONE).difference(brush))),
    );
}

} // verus!
