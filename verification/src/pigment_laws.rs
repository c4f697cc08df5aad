//! Laws of pigment mixing.

use crate::brush::{LinearRgba, ONE};
use crate::float32::Float32;
use crate::pigment::{
    PigmentView, B_BASIS, G_BASIS, REFLECTANCE_CEIL, REFLECTANCE_FLOOR, R_BASIS, TWO,
};
use vstd::prelude::*;

verus! {

/// Every band holds finite numbers that are not negative.
pub open spec fn sound(p: PigmentView) -> bool {
    &&& p.k.len() == 7
    &&& p.s.len() == 7
    &&& forall|i: int| 0 <= i < 7 ==> (#[trigger] p.k[i]).plain()
    &&& forall|i: int| 0 <= i < 7 ==> (#[trigger] p.s[i]).plain()
}

proof fn lemma_average_ends(a: Float32, b: Float32)
    requires
        a.plain(),
        b.plain(),
    ensures
        crate::pigment::averaged(a, b, Float32(0)) == a,
        crate::pigment::averaged(a, b, Float32(ONE)) == b,
{
    reveal(crate::pigment::averaged);
    crate::float32::identities::lemma_one_minus();
    crate::float32::identities::lemma_one_times(a);
    crate::float32::identities::lemma_one_times(b);
    crate::float32::identities::lemma_zero_times(a);
    crate::float32::identities::lemma_zero_times(b);
    crate::float32::identities::lemma_plus_zero(a, Float32(0));
    crate::float32::identities::lemma_plus_zero(b, Float32(0));
}

/// The ends of a mixture are exact: mixing in nothing leaves the pigment, mixing in all gives
/// the other. So a deposit without coverage keeps the canvas and one with full coverage
/// replaces it.
pub proof fn lemma_mix_ends_are_exact(a: PigmentView, b: PigmentView)
    requires
        sound(a),
        sound(b),
    ensures
        a.mixed(b, Float32(0)) == a,
        a.mixed(b, Float32(ONE)) == b,
{
    assert forall|i: int| 0 <= i < 7 implies crate::pigment::averaged(
        a.k[i],
        b.k[i],
        Float32(0),
    ) == a.k[i] && crate::pigment::averaged(a.k[i], b.k[i], Float32(ONE)) == b.k[i]
        && crate::pigment::averaged(a.s[i], b.s[i], Float32(0)) == a.s[i]
        && crate::pigment::averaged(a.s[i], b.s[i], Float32(ONE)) == b.s[i] by {
        lemma_average_ends(a.k[i], b.k[i]);
        lemma_average_ends(a.s[i], b.s[i]);
    }
    assert(a.mixed(b, Float32(0)) =~= a);
    assert(a.mixed(b, Float32(ONE)) =~= b);
}

proof fn lemma_absorption_is_plain(r: Float32)
    requires
        !r.nan(),
    ensures
        crate::pigment::absorption(r).plain(),
        crate::pigment::absorption(r).at_most(Float32(0x4480_0000)),
{
    reveal(crate::pigment::absorption);
    let c = r.clamped(Float32(REFLECTANCE_FLOOR), Float32(REFLECTANCE_CEIL));
    let d = Float32(ONE).difference(c);
    crate::float32::identities::lemma_one_minus_fraction(c);
    crate::float32::lemma_product_with_ratio(d, d);
    let top = d.product(d);
    assert(top.plain()) by {
        crate::float32::identities::lemma_product_not_below_zero(d, d);
        assert(d.negative() == false);
        lemma_square_has_no_sign(d);
    }
    crate::float32::identities::lemma_doubled(c);
    crate::float32::identities::lemma_bounded_quotient(top, Float32(TWO).product(c));
}

proof fn lemma_square_has_no_sign(d: Float32)
    requires
        d.plain(),
    ensures
        !d.product(d).negative(),
{
    let v = crate::float32::magnitude_value(d.magnitude());
    let u = vstd::arithmetic::power2::pow2(149) as int;
    vstd::arithmetic::power2::lemma_pow2_pos(149);
    assert(v * v >= 0) by (nonlinear_arith);
    crate::float32::identities::lemma_rounded_range(v * v, u);
}

proof fn lemma_weighted_channel(c: Float32, weight: u32)
    requires
        !c.infinite() || c.negative(),
        weight <= ONE,
    ensures
        c.larger(Float32(0)).product(Float32(weight)).not_below_zero(),
{
    let x = c.larger(Float32(0));
    assert(x.not_below_zero() && x.finite());
    crate::float32::identities::lemma_product_not_below_zero(x, Float32(weight));
}

proof fn lemma_weights_are_fractions(i: int)
    requires
        0 <= i < 7,
    ensures
        R_BASIS[i] <= ONE,
        G_BASIS[i] <= ONE,
        B_BASIS[i] <= ONE,
{
    assert(i == 0 || i == 1 || i == 2 || i == 3 || i == 4 || i == 5 || i == 6);
}

/// A color whose channels are not positively infinite gives a pigment whose bands hold finite
/// numbers that are not negative, with no absorption above 1024.
pub proof fn lemma_colors_give_sound_pigments(c: LinearRgba)
    requires
        !c.r.infinite() || c.r.negative(),
        !c.g.infinite() || c.g.negative(),
        !c.b.infinite() || c.b.negative(),
    ensures
        sound(PigmentView::of_color(c)),
        forall|i: int|
            0 <= i < 7 ==> (#[trigger] PigmentView::of_color(c).k[i]).at_most(
                Float32(0x4480_0000),
            ),
{
    let p = PigmentView::of_color(c);
    assert forall|i: int| 0 <= i < 7 implies (#[trigger] p.k[i]).plain() && p.k[i].at_most(
        Float32(0x4480_0000),
    ) by {
        lemma_weights_are_fractions(i);
        lemma_weighted_channel(c.r, R_BASIS[i]);
        lemma_weighted_channel(c.g, G_BASIS[i]);
        lemma_weighted_channel(c.b, B_BASIS[i]);
        let x = c.r.larger(Float32(0)).product(Float32(R_BASIS[i]));
        let y = c.g.larger(Float32(0)).product(Float32(G_BASIS[i]));
        let z = c.b.larger(Float32(0)).product(Float32(B_BASIS[i]));
        crate::float32::identities::lemma_sum_not_below_zero(x, y);
        crate::float32::identities::lemma_sum_not_below_zero(x.sum(y), z);
        assert(crate::pigment::band_of(c.r, c.g, c.b, i) == x.sum(y).sum(z)) by {
            reveal(crate::pigment::band_of);
        }
        lemma_absorption_is_plain(crate::pigment::band_of(c.r, c.g, c.b, i));
    }
}

/// The color of a pigment has full alpha, and each of its other channels that is a number
/// lies in 0 to 1.
pub proof fn lemma_pigment_color_is_limited(p: PigmentView)
    ensures
        p.color().a == Float32(ONE),
        !p.color().r.nan() ==> Float32(0).at_most(p.color().r) && p.color().r.at_most(Float32(ONE)),
        !p.color().g.nan() ==> Float32(0).at_most(p.color().g) && p.color().g.at_most(Float32(ONE)),
        !p.color().b.nan() ==> Float32(0).at_most(p.color().b) && p.color().b.at_most(Float32(ONE)),
{
}

} // verus!
