//! Mixing two pigments one way or the other: nearly the same mixture comes out.

use crate::brush::{LinearRgba, ONE};
use crate::float32::identities::lemma_one_minus_fraction;
use crate::float32::near::{lemma_difference_near, lemma_product_near, lemma_sum_near, unit};
use crate::float32::{
    lemma_magnitude_value_increases, lemma_step, lemma_value_of_one, Float32,
};
use crate::float64::error::{distance, size};
use crate::pigment::{averaged, PigmentView};
use crate::pigment_laws::lemma_colors_give_sound_pigments;
use vstd::arithmetic::power2::*;
use vstd::prelude::*;

verus! {

/// The order of two summands does not matter.
proof fn lemma_sum_commutes(x: Float32, y: Float32)
    requires
        !x.nan(),
        !y.nan(),
    ensures
        x.sum(y) == y.sum(x),
{
}

/// A part of a mixture: a number in 0 to 1.
pub open spec fn part(t: Float32) -> bool {
    t.plain() && t.at_most(Float32(ONE))
}

/// `1 - t`.
pub open spec fn rest(t: Float32) -> Float32 {
    Float32(ONE).difference(t)
}

proof fn lemma_parts_stay(t: Float32)
    requires
        part(t),
    ensures
        t.clamped(Float32(0), Float32(ONE)) == t,
        part(rest(t)),
        0 <= t.value() <= unit(),
        Float32(ONE).value() == unit(),
{
    lemma_one_minus_fraction(t);
    lemma_value_of_one();
    lemma_step(0, 0);
    if t.magnitude() > 0 {
        lemma_magnitude_value_increases(0, t.magnitude());
    }
    if t.magnitude() < ONE {
        lemma_magnitude_value_increases(t.magnitude(), ONE as int);
    }
}

/// What `1 - (1 - t)` comes to, where the two differences are near the exact ones.
proof fn lemma_part_again(t: int, u: int, again: int, one: int)
    requires
        0 <= t <= one,
        0 <= u <= one,
        one >= 0x100_0000_0000_0000,
        0x80_0000 * distance(u, one - t) <= (one - t) + 0x80_0000,
        0x80_0000 * distance(again, one - u) <= (one - u) + 0x80_0000,
    ensures
        0x80_0000 * distance(t, again) <= 2 * one,
{
}

/// Two numbers times `b`, where the products are near the exact ones.
proof fn lemma_products_differ(t: int, again: int, b: int, q: int, r: int, one: int)
    requires
        0 <= t <= one,
        0 <= again <= one,
        0 <= b,
        one >= 0x100_0000_0000_0000,
        0x80_0000 * distance(t, again) <= 2 * one,
        0x80_0000 * distance(q * one, t * b) <= t * b + 0x80_0000 * one,
        0x80_0000 * distance(r * one, again * b) <= again * b + 0x80_0000 * one,
    ensures
        0x80_0000 * distance(q, r) <= 4 * b + 0x100_0000,
{
    let tb = t * b;
    let ab = again * b;
    let ob = one * b;
    assert(0x80_0000 * distance(tb, ab) <= 2 * ob) by (nonlinear_arith)
        requires
            0x80_0000 * (t - again) <= 2 * one,
            0x80_0000 * (again - t) <= 2 * one,
            tb == t * b,
            ab == again * b,
            ob == one * b,
            0 <= b,
    ;
    assert(tb <= ob && ab <= ob) by (nonlinear_arith)
        requires
            t <= one,
            again <= one,
            tb == t * b,
            ab == again * b,
            ob == one * b,
            0 <= b,
    ;
    assert(0x80_0000 * distance(q * one, r * one) <= 4 * ob + 0x100_0000 * one);
    assert(0x80_0000 * distance(q, r) <= 4 * b + 0x100_0000) by (nonlinear_arith)
        requires
            0x80_0000 * (q * one - r * one) <= 4 * ob + 0x100_0000 * one,
            0x80_0000 * (r * one - q * one) <= 4 * ob + 0x100_0000 * one,
            ob == one * b,
            one > 0,
    ;
}

/// A part of `a` is not much more than `a`.
proof fn lemma_product_bound(u: int, a: int, p: int, one: int)
    requires
        0 <= u <= one,
        0 <= a,
        one > 0,
        0x80_0000 * distance(p * one, u * a) <= u * a + 0x80_0000 * one,
    ensures
        size(p) <= 2 * a + 1,
{
    let ua = u * a;
    let oa = one * a;
    assert(0 <= ua <= oa) by (nonlinear_arith)
        requires
            0 <= u <= one,
            0 <= a,
            ua == u * a,
            oa == one * a,
    ;
    assert(size(p) <= 2 * a + 1) by (nonlinear_arith)
        requires
            p * one <= 2 * oa + one,
            -(p * one) <= 2 * oa + one,
            oa == one * a,
            one > 0,
    ;
}

/// Two sums with the same first summand.
proof fn lemma_sums_differ(p: int, q: int, r: int, m: int, n: int, a: int, b: int)
    requires
        0 <= a,
        0 <= b,
        size(p) <= 2 * a + 1,
        size(q) <= 2 * b + 1,
        size(r) <= 2 * b + 1,
        0x80_0000 * distance(q, r) <= 4 * b + 0x100_0000,
        0x80_0000 * distance(m, p + q) <= size(p + q) + 0x80_0000,
        0x80_0000 * distance(n, p + r) <= size(p + r) + 0x80_0000,
    ensures
        0x10_0000 * distance(m, n) <= a + b + 0x50_0000,
{
}

/// A number in 0 to 1024.
pub open spec fn moderate(x: Float32) -> bool {
    x.plain() && x.at_most(Float32(0x4480_0000))
}

proof fn lemma_moderate_value(x: Float32)
    requires
        moderate(x),
    ensures
        0 <= x.value() <= 1024 * unit(),
{
    lemma2_to64();
    lemma_step(0, 0);
    if x.magnitude() > 0 {
        lemma_magnitude_value_increases(0, x.magnitude());
    }
    lemma_step(136, 0x80_0000);
    lemma_pow2_adds(136, 13);
    assert(0x80_0000 * pow2(136) == 1024 * unit()) by (nonlinear_arith)
        requires
            unit() == pow2(136) * 0x2000,
    ;
    if x.magnitude() < 0x4480_0000 {
        lemma_magnitude_value_increases(x.magnitude(), 0x4480_0000);
    }
}

proof fn lemma_average_is_symmetric(a: Float32, b: Float32, t: Float32)
    requires
        part(t),
        moderate(a),
        moderate(b),
    ensures
        averaged(a, b, t).finite(),
        averaged(b, a, rest(t)).finite(),
        0x10_0000 * distance(averaged(a, b, t).value(), averaged(b, a, rest(t)).value())
            <= a.value() + b.value() + 0x50_0000,
{
    reveal(averaged);
    let one = unit();
    let u = rest(t);
    let again = rest(u);
    lemma2_to64();
    lemma_pow2_strictly_increases(56, 149);
    lemma2_to64_rest();
    lemma_parts_stay(t);
    lemma_parts_stay(u);
    lemma_parts_stay(again);
    lemma_moderate_value(a);
    lemma_moderate_value(b);
    lemma_difference_near(Float32(ONE), t);
    lemma_difference_near(Float32(ONE), u);
    lemma_part_again(t.value(), u.value(), again.value(), one);
    lemma_product_near(u, a);
    lemma_product_near(t, b);
    lemma_product_near(again, b);
    let p = u.product(a);
    let q = t.product(b);
    let r = again.product(b);
    assert(u.value() * a.value() >= 0 && t.value() * b.value() >= 0 && again.value() * b.value()
        >= 0) by (nonlinear_arith)
        requires
            u.value() >= 0,
            t.value() >= 0,
            again.value() >= 0,
            a.value() >= 0,
            b.value() >= 0,
    ;
    lemma_products_differ(t.value(), again.value(), b.value(), q.value(), r.value(), one);
    lemma_product_bound(u.value(), a.value(), p.value(), one);
    lemma_product_bound(t.value(), b.value(), q.value(), one);
    lemma_product_bound(again.value(), b.value(), r.value(), one);
    lemma_sum_near(p, q);
    lemma_sum_near(r, p);
    lemma_sums_differ(
        p.value(),
        q.value(),
        r.value(),
        p.sum(q).value(),
        r.sum(p).value(),
        a.value(),
        b.value(),
    );
}

/// The bands of a pigment are numbers in 0 to 1024, as those of the pigment of a color are.
pub open spec fn moderate_bands(p: PigmentView) -> bool {
    &&& p.k.len() == 7
    &&& p.s.len() == 7
    &&& forall|i: int| 0 <= i < 7 ==> moderate(#[trigger] p.k[i])
    &&& forall|i: int| 0 <= i < 7 ==> moderate(#[trigger] p.s[i])
}

/// The pigments of colors whose channels are not positively infinite have moderate bands.
pub proof fn lemma_colors_give_moderate_bands(c: LinearRgba)
    requires
        !c.r.infinite() || c.r.negative(),
        !c.g.infinite() || c.g.negative(),
        !c.b.infinite() || c.b.negative(),
    ensures
        moderate_bands(PigmentView::of_color(c)),
{
    lemma_colors_give_sound_pigments(c);
}

/// Mixing is symmetric: the part `t` of one pigment in another is, band by band, nearly the
/// part `1 - t` of the other in the one. The mixtures differ by at most one part in `2^20` of
/// the two bands together, and five units of the smallest subnormal number.
pub proof fn lemma_mixing_is_symmetric(a: PigmentView, b: PigmentView, t: Float32)
    requires
        part(t),
        moderate_bands(a),
        moderate_bands(b),
    ensures
        ({
            let m = a.mixed(b, t);
            let n = b.mixed(a, rest(t));
            forall|i: int|
                0 <= i < 7 ==> {
                    &&& (#[trigger] m.k[i]).finite() && n.k[i].finite()
                    &&& 0x10_0000 * distance(m.k[i].value(), n.k[i].value()) <= a.k[i].value()
                        + b.k[i].value() + 0x50_0000
                    &&& m.s[i].finite() && n.s[i].finite()
                    &&& 0x10_0000 * distance(m.s[i].value(), n.s[i].value()) <= a.s[i].value()
                        + b.s[i].value() + 0x50_0000
                }
        }),
{
    lemma_parts_stay(t);
    lemma_parts_stay(rest(t));
    let m = a.mixed(b, t);
    let n = b.mixed(a, rest(t));
    assert forall|i: int| 0 <= i < 7 implies {
        &&& (#[trigger] m.k[i]).finite() && n.k[i].finite()
        &&& 0x10_0000 * distance(m.k[i].value(), n.k[i].value()) <= a.k[i].value()
            + b.k[i].value() + 0x50_0000
        &&& m.s[i].finite() && n.s[i].finite()
        &&& 0x10_0000 * distance(m.s[i].value(), n.s[i].value()) <= a.s[i].value()
            + b.s[i].value() + 0x50_0000
    } by {
        lemma_average_is_symmetric(a.k[i], b.k[i], t);
        lemma_average_is_symmetric(a.s[i], b.s[i], t);
    }
}

/// Mixing is exactly symmetric where `1 - (1 - t)` is `t`.
pub proof fn lemma_mixing_is_exactly_symmetric(a: PigmentView, b: PigmentView, t: Float32)
    requires
        part(t),
        rest(rest(t)) == t,
        moderate_bands(a),
        moderate_bands(b),
    ensures
        a.mixed(b, t) == b.mixed(a, rest(t)),
{
    lemma_parts_stay(t);
    lemma_parts_stay(rest(t));
    assert forall|i: int| 0 <= i < 7 implies averaged(a.k[i], b.k[i], t) == averaged(
        b.k[i],
        a.k[i],
        rest(t),
    ) && averaged(a.s[i], b.s[i], t) == averaged(b.s[i], a.s[i], rest(t)) by {
        reveal(averaged);
        lemma_average_is_symmetric(a.k[i], b.k[i], t);
        lemma_average_is_symmetric(a.s[i], b.s[i], t);
        lemma_sum_commutes(rest(t).product(a.k[i]), t.product(b.k[i]));
        lemma_sum_commutes(rest(t).product(a.s[i]), t.product(b.s[i]));
    }
    assert(a.mixed(b, t) =~= b.mixed(a, rest(t)));
}

} // verus!
