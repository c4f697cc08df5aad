//! What the controls of the panels stand for: where a point of the color plane lies, what the
//! picker keeps and forgets, which colors count as equal, and what the buttons of the layer
//! toolbar do. Values are in units of `2^-149`, so that 1 is `unit()`.

use crate::brush::{BrushParams, LinearRgba, ONE};
use crate::brush_panel::shown_ratio;
use crate::color_picker::{
    nearly_equal, part_of_percent, plane_color, with_recent, Okhsl, PickerView, ScreenRect,
    COLOR_EQ_EPS, HUNDRED, NEUTRAL_S_EPS, RECENT_CAP,
};
use crate::float32::near::{
    lemma_difference_near, lemma_quotient_near, lemma_whole_near, near, unit,
};
use crate::float32::Float32;
use crate::float64::error::{distance, size};
use crate::hex_color::{hex_value, named_color};
use crate::ids::LayerId;
use crate::layer::Layer;
use crate::layers_panel::{is_position, Toolbar};
use crate::pigment::BrushUniforms;
use crate::ribbon::extent::{moderate_brush, moderate_width};
use crate::ui::LayerAction;
use vstd::arithmetic::power2::*;
use vstd::prelude::*;

verus! {

/// `2^112`: the smallest step between numbers of the size of the tolerances.
spec fn grain() -> int {
    pow2(112) as int
}

proof fn lemma_units()
    ensures
        unit() == 0x20_0000_0000 * grain(),
        grain() >= 0x100_0000_0000_0000,
        Float32(ONE).value() == unit(),
        Float32(NEUTRAL_S_EPS).value() == 0xd1_b717 * grain(),
        Float32(COLOR_EQ_EPS).value() == 0x831_26f0 * grain(),
        Float32(HUNDRED).value() == 100 * unit(),
{
    lemma2_to64();
    lemma2_to64_rest();
    lemma_pow2_strictly_increases(56, 112);
    lemma_pow2_adds(37, 112);
    lemma_pow2_adds(3, 112);
    lemma_pow2_adds(4, 112);
    lemma_pow2_adds(23, 126);
    lemma_pow2_adds(20, 112);
    crate::float32::lemma_value_of_one();
    let e: int = 0x3a83_126f;
    assert(e / 0x80_0000 == 117 && e % 0x80_0000 == 0x3_126f);
    assert(pow2(116) == 16 * grain());
    let m: int = 0x42c8_0000;
    assert(m / 0x80_0000 == 133 && m % 0x80_0000 == 0x48_0000);
    lemma_pow2_adds(132, 17);
    lemma_pow2_adds(132, 19);
}

/// How two numbers compare is how their values compare.
proof fn lemma_compared(x: Float32, y: Float32)
    requires
        x.finite(),
        y.finite(),
    ensures
        x.below(y) <==> x.value() < y.value(),
{
    crate::float32::lemma_order_is_order_of_values(x, y);
}

/// A number within 0 and 1.
proof fn lemma_clamped(x: Float32)
    requires
        x.finite(),
    ensures
        ({
            let z = x.clamped(Float32(0), Float32(ONE));
            &&& z.finite()
            &&& 0 <= z.value() <= unit()
            &&& 0 <= x.value() <= unit() ==> z.value() == x.value()
            &&& x.value() <= 0 ==> z.value() == 0
            &&& x.value() >= unit() ==> z.value() == unit()
        }),
{
    lemma_units();
    crate::float32::lemma_step(0, 0);
    lemma_compared(x, Float32(0));
    lemma_compared(Float32(ONE), x);
}

/// A color that comes in is shown as it is. Where it has next to no saturation, at most one part
/// in 100000, it brings no hue of its own and the old one stays; with a saturation of at least one
/// part in 1000 its hue is taken. What was painted and typed for the old color is forgotten,
/// and nothing else changes.
pub proof fn lemma_adopted_color_is_shown(picker: PickerView, incoming: Okhsl)
    requires
        incoming.saturation.finite(),
    ensures
        ({
            let after = picker.with_adopted(incoming);
            &&& after.okhsl.saturation == incoming.saturation
            &&& after.okhsl.lightness == incoming.lightness
            &&& 100_000 * incoming.saturation.value() <= unit() ==> after.okhsl.hue
                == picker.okhsl.hue
            &&& 1000 * incoming.saturation.value() >= unit() ==> after.okhsl.hue == incoming.hue
            &&& after.plane_hue_cache is None
            &&& after.hex_input.len() == 0
            &&& after.recent == picker.recent
            &&& after.expanded == picker.expanded
        }),
{
    lemma_units();
    lemma_compared(incoming.saturation, Float32(NEUTRAL_S_EPS));
}

/// Setting the hue changes the hue alone of the color; the plane, which shows one hue, and the
/// text are out of date. Setting another part of the color leaves the plane as it is.
pub proof fn lemma_hue_is_set_alone(picker: PickerView, hue: Float32, okhsl: Okhsl)
    ensures
        ({
            let after = picker.with_hue(hue);
            &&& after.okhsl.hue == hue
            &&& after.okhsl.saturation == picker.okhsl.saturation
            &&& after.okhsl.lightness == picker.okhsl.lightness
            &&& after.plane_hue_cache is None
            &&& after.hex_input.len() == 0
            &&& after.recent == picker.recent
            &&& after.expanded == picker.expanded
        }),
        ({
            let after = picker.with_color(okhsl);
            &&& after.okhsl == okhsl
            &&& after.plane_hue_cache == picker.plane_hue_cache
            &&& after.hex_input.len() == 0
            &&& after.recent == picker.recent
            &&& after.expanded == picker.expanded
        }),
{
}

/// A channel from 0 to 1 in size.
pub open spec fn channel(x: Float32) -> bool {
    x.finite() && size(x.value()) <= unit()
}

proof fn lemma_channels_compared(x: Float32, y: Float32)
    requires
        channel(x) && channel(y),
    ensures
        ({
            let equal = x.difference(y).unsigned().below(Float32(COLOR_EQ_EPS));
            let d = distance(x.value(), y.value());
            &&& 1100 * d <= unit() ==> equal
            &&& 900 * d >= unit() ==> !equal
        }),
{
    lemma_units();
    lemma_difference_near(x, y);
    let z = x.difference(y);
    crate::float32::lemma_step(0, 0);
    if z.magnitude() > 0 {
        crate::float32::lemma_magnitude_value_increases(0, z.magnitude());
    }
    assert(z.unsigned().value() == size(z.value()));
    lemma_compared(z.unsigned(), Float32(COLOR_EQ_EPS));
}

/// How far apart the channel is in which two colors differ most.
pub open spec fn widest_gap(a: LinearRgba, b: LinearRgba) -> int {
    let r = distance(a.r.value(), b.r.value());
    let g = distance(a.g.value(), b.g.value());
    let blue = distance(a.b.value(), b.b.value());
    let alpha = distance(a.a.value(), b.a.value());
    let rg = if r < g {
        g
    } else {
        r
    };
    let ba = if blue < alpha {
        alpha
    } else {
        blue
    };
    if rg < ba {
        ba
    } else {
        rg
    }
}

/// Colors count as equal where no channel differs by more than about a thousandth.
pub proof fn lemma_equal_colors_are_close(a: LinearRgba, b: LinearRgba)
    requires
        channel(a.r) && channel(a.g) && channel(a.b) && channel(a.a),
        channel(b.r) && channel(b.g) && channel(b.b) && channel(b.a),
    ensures
        1100 * widest_gap(a, b) <= unit() ==> nearly_equal(a, b),
        900 * widest_gap(a, b) >= unit() ==> !nearly_equal(a, b),
{
    lemma_channels_compared(a.r, b.r);
    lemma_channels_compared(a.g, b.g);
    lemma_channels_compared(a.b, b.b);
    lemma_channels_compared(a.a, b.a);
}

/// A color that was used stands first. Where there is room, every other color stays that is
/// not nearly equal to it; where none is, they all follow in their order.
pub proof fn lemma_used_color_joins_the_others(recent: Seq<LinearRgba>, rgba: LinearRgba)
    ensures
        with_recent(recent, rgba).len() > 0,
        with_recent(recent, rgba)[0] == rgba,
        recent.len() < RECENT_CAP ==> forall|i: int|
            0 <= i < recent.len() && !nearly_equal(#[trigger] recent[i], rgba) ==> with_recent(
                recent,
                rgba,
            ).contains(recent[i]),
        recent.len() < RECENT_CAP && (forall|i: int|
            0 <= i < recent.len() ==> !nearly_equal(#[trigger] recent[i], rgba))
            ==> with_recent(recent, rgba) == seq![rgba] + recent,
        forall|i: int|
            1 <= i < with_recent(recent, rgba).len() ==> recent.contains(
                #[trigger] with_recent(recent, rgba)[i],
            ) && !nearly_equal(with_recent(recent, rgba)[i], rgba),
{
    let keep = |r: LinearRgba| !nearly_equal(r, rgba);
    lemma_filtered(recent, keep);
    let f = recent.filter(keep);
    let all = seq![rgba] + f;
    assert(all[0] == rgba);
    if recent.len() < RECENT_CAP {
        assert(with_recent(recent, rgba) == all);
        assert forall|i: int| 0 <= i < recent.len() && !nearly_equal(
            #[trigger] recent[i],
            rgba,
        ) implies all.contains(recent[i]) by {
            let k = choose|k: int| 0 <= k < f.len() && f[k] == recent[i];
            assert(all[k + 1] == recent[i]);
        }
    }
    assert forall|i: int| 1 <= i < with_recent(recent, rgba).len() implies recent.contains(
        #[trigger] with_recent(recent, rgba)[i],
    ) && !nearly_equal(with_recent(recent, rgba)[i], rgba) by {
        assert(with_recent(recent, rgba)[i] == f[i - 1]);
    }
}

proof fn lemma_filtered(s: Seq<LinearRgba>, keep: spec_fn(LinearRgba) -> bool)
    ensures
        s.filter(keep).len() <= s.len(),
        forall|i: int|
            0 <= i < s.filter(keep).len() ==> keep(#[trigger] s.filter(keep)[i]) && s.contains(
                s.filter(keep)[i],
            ),
        forall|i: int|
            0 <= i < s.len() && keep(#[trigger] s[i]) ==> s.filter(keep).contains(s[i]),
        (forall|i: int| 0 <= i < s.len() ==> keep(#[trigger] s[i])) ==> s.filter(keep) == s,
    decreases s.len(),
{
    reveal(Seq::filter);
    if s.len() > 0 {
        let front = s.drop_last();
        lemma_filtered(front, keep);
        let f = s.filter(keep);
        let g = front.filter(keep);
        assert forall|i: int| 0 <= i < f.len() implies keep(#[trigger] f[i]) && s.contains(
            f[i],
        ) by {
            if i < g.len() {
                assert(f[i] == g[i]);
                let k = choose|k: int| 0 <= k < front.len() && front[k] == g[i];
                assert(s[k] == f[i]);
            } else {
                assert(s[s.len() - 1] == f[i]);
            }
        }
        assert forall|i: int| 0 <= i < s.len() && keep(#[trigger] s[i]) implies f.contains(
            s[i],
        ) by {
            if i < front.len() {
                assert(front[i] == s[i]);
                let k = choose|k: int| 0 <= k < g.len() && g[k] == s[i];
                assert(f[k] == s[i]);
            } else {
                assert(f[f.len() - 1] == s[i]);
            }
        }
        if forall|i: int| 0 <= i < s.len() ==> keep(#[trigger] s[i]) {
            assert forall|i: int| 0 <= i < front.len() implies keep(#[trigger] front[i]) by {
                assert(front[i] == s[i]);
            }
            assert(f =~= s);
        }
    }
}

/// The buttons of the toolbar: the active layer goes one place up or down and never out of the
/// stack, and the last layer is never removed. A new layer is called by its number.
pub proof fn lemma_toolbar_moves_by_one(
    bar: Toolbar,
    layers: Seq<Layer>,
    active: LayerId,
    i: int,
)
    requires
        is_position(layers, active, i),
        layers.len() < usize::MAX,
        bar.adds(layers),
        bar.removes(layers, active),
        bar.moves(layers, active, i),
    ensures
        bar.move_up is None <==> i == layers.len() - 1,
        bar.move_down is None <==> i == 0,
        bar.move_up is Some ==> bar.move_up->0 is MoveLayer && bar.move_up->0->MoveLayer_id
            == active && bar.move_up->0->new_index == i + 1 && i + 1 < layers.len(),
        bar.move_down is Some ==> bar.move_down->0 is MoveLayer && bar.move_down->0->MoveLayer_id
            == active && bar.move_down->0->new_index == i - 1 && i - 1 >= 0,
        bar.remove is None <==> layers.len() == 1,
        bar.remove is Some ==> bar.remove->0 == LayerAction::RemoveLayer(active),
        bar.add is AddLayer,
        bar.add->name@ == "Layer "@ + crate::text::decimal((layers.len() + 1) as nat),
{
}

/// Six hexadecimal digits name a color by three pairs, with or without a number sign before
/// them.
pub proof fn lemma_digits_name_a_color(d: Seq<char>)
    requires
        d.len() == 6,
        forall|i: int| 0 <= i < 6 ==> hex_value(#[trigger] d[i]) is Some,
    ensures
        ({
            let color = Some(
                (
                    16 * hex_value(d[0])->0 + hex_value(d[1])->0,
                    16 * hex_value(d[2])->0 + hex_value(d[3])->0,
                    16 * hex_value(d[4])->0 + hex_value(d[5])->0,
                ),
            );
            &&& named_color(d) == color
            &&& named_color(seq!['#'] + d) == color
        }),
{
    use_digits(d);
    let t = seq!['#'] + d;
    assert(t.drop_first() =~= d);
    assert(t[0] == '#');
    assert(t.last() == d[5]);
    assert(d.last() == d[5]);
    assert(crate::hex_color::without_leading_space(t) == t);
    assert(crate::hex_color::without_trailing_space(t) == t);
    assert(crate::hex_color::without_hashes(t) == d);
    assert(crate::hex_color::digits_of(t) == d);
    assert(crate::hex_color::digits_of(d) == d);
}

proof fn use_digits(d: Seq<char>)
    requires
        d.len() == 6,
        forall|i: int| 0 <= i < 6 ==> hex_value(#[trigger] d[i]) is Some,
    ensures
        hex_value(d[0]) is Some && hex_value(d[1]) is Some && hex_value(d[2]) is Some,
        hex_value(d[3]) is Some && hex_value(d[4]) is Some && hex_value(d[5]) is Some,
        d[0] != '#',
        crate::hex_color::without_leading_space(d) == d,
        crate::hex_color::without_trailing_space(d) == d,
        crate::hex_color::without_hashes(d) == d,
{
    assert(d.last() == d[5]);
}

/// A digit is worth its distance from the first of its row, counted from 0 or from 10; both
/// cases are worth the same, and no other character is a digit.
pub proof fn lemma_digit_values(c: char)
    ensures
        '0' <= c <= '9' ==> hex_value(c) == Some(c as int - 48),
        'a' <= c <= 'f' ==> hex_value(c) == Some(c as int - 87),
        'A' <= c <= 'F' ==> hex_value(c) == Some(c as int - 55),
        hex_value(c) is Some <==> '0' <= c <= '9' || 'a' <= c <= 'f' || 'A' <= c <= 'F',
{
}

/// The brush shaders find the color first, then the bands of its spectrum, then the
/// alpha.
pub proof fn lemma_uniforms_stand_in_groups(uniforms: BrushUniforms, i: int)
    requires
        0 <= i < 4,
    ensures
        uniforms.layout().len() == 16,
        uniforms.layout()[i] == uniforms.brush_lin[i].0,
        uniforms.layout()[4 + i] == uniforms.brush_lo[i].0,
        uniforms.layout()[8 + i] == uniforms.brush_hi[i].0,
        uniforms.layout()[12] == uniforms.brush_alpha.0,
        i > 0 ==> uniforms.layout()[12 + i] == 0,
{
}

/// A percentage from 0 to 100 stands for its hundredth part, up to rounding; beyond that range it
/// stands for 0 or 1.
pub proof fn lemma_percent_is_a_hundredth(percent: Float32)
    requires
        moderate_width(percent),
        !percent.negative(),
    ensures
        percent.value() <= 100 * unit() ==> 0x20_0000 * distance(
            100 * part_of_percent(percent).value(),
            percent.value(),
        ) <= percent.value() + 0x20_0000 * 100,
        percent.value() >= 101 * unit() ==> part_of_percent(percent).value() == unit(),
{
    lemma_units();
    let u = unit();
    let h = Float32(HUNDRED);
    lemma_quotient_near(percent, h);
    let q = percent.quotient(h);
    lemma_clamped(q);
    let p = percent.value();
    let qv = q.value();
    assert(qv * (100 * u) == (100 * qv) * u) by (nonlinear_arith);
    lemma_unscaled(100 * qv, p, u);
    crate::float32::lemma_step(0, 0);
    if q.magnitude() > 0 {
        crate::float32::lemma_magnitude_value_increases(0, q.magnitude());
    }
}

/// What is near as a multiple of the unit is near.
proof fn lemma_unscaled(a: int, b: int, u: int)
    requires
        u > 0,
        near(a * u, b * u, 100 * u),
    ensures
        near(a, b, 100),
{
    let d = distance(a, b);
    assert(distance(a * u, b * u) == d * u && size(b * u) == size(b) * u) by (nonlinear_arith)
        requires
            u > 0,
            d == distance(a, b),
            distance(a, b) == if a < b { b - a } else { a - b },
            distance(a * u, b * u) == if a * u < b * u { b * u - a * u } else { a * u - b * u },
            size(b) == if b < 0 { -b } else { b },
            size(b * u) == if b * u < 0 { -(b * u) } else { b * u },
    ;
    let s = size(b);
    assert(0x80_0000 * d <= s + 0x80_0000 * 100) by (nonlinear_arith)
        requires
            u > 0,
            0x80_0000 * (d * u) <= s * u + 0x80_0000 * (100 * u),
    ;
}

/// The ratio that the slider shows is the part that the minimum width is of the maximum, up to
/// rounding.
pub proof fn lemma_slider_shows_the_part(brush: BrushParams)
    requires
        moderate_brush(brush),
        !brush.min_width.negative(),
        !brush.max_width.negative(),
        0 <= brush.min_width.value() <= brush.max_width.value(),
        0 < brush.max_width.value(),
    ensures
        near(
            shown_ratio(brush).value() * brush.max_width.value(),
            brush.min_width.value() * unit(),
            brush.max_width.value(),
        ),
        0 <= shown_ratio(brush).value() <= unit(),
{
    lemma_units();
    let u = unit();
    let low = brush.min_width.value();
    let high = brush.max_width.value();
    lemma_compared(Float32(0), brush.max_width);
    crate::float32::lemma_step(0, 0);
    lemma_quotient_near(brush.min_width, brush.max_width);
    let q = brush.min_width.quotient(brush.max_width);
    lemma_clamped(q);
    if q.magnitude() > 0 {
        crate::float32::lemma_magnitude_value_increases(0, q.magnitude());
    }
    if q.value() > u {
        // Clamping brings the product closer to the exact one, which is no larger than this.
        assert(low * u <= u * high && u * high <= q.value() * high) by (nonlinear_arith)
            requires
                low <= high,
                high > 0,
                u > 0,
                q.value() > u,
        ;
    }
}

proof fn lemma_across_arithmetic(d: int, exact: int, q: int, z: int, w: int, u: int)
    requires
        u >= 0x100_0000_0000_0000,
        0 < w,
        0 <= exact <= w,
        near(d, exact, 1),
        near(q * w, d * u, w),
        0 <= d,
        0 <= z <= u,
        0 <= q <= u ==> z == q,
        q > u ==> z == u,
        q >= 0,
    ensures
        0x20_0000 * distance(z * w, exact * u) <= exact * u + 0x20_0000 * (w + 2 * u),
{
    let qw = q * w;
    let du = d * u;
    let eu = exact * u;
    let ed = d - exact;
    let edu = ed * u;
    assert(du == eu + edu) by (nonlinear_arith)
        requires
            du == d * u,
            eu == exact * u,
            ed == d - exact,
            edu == ed * u,
    ;
    assert(0x80_0000 * edu <= eu + 0x80_0000 * u && -(eu + 0x80_0000 * u) <= 0x80_0000 * edu && du
        >= 0 && eu >= 0) by (nonlinear_arith)
        requires
            0x80_0000 * ed <= exact + 0x80_0000,
            -(exact + 0x80_0000) <= 0x80_0000 * ed,
            edu == ed * u,
            eu == exact * u,
            du == d * u,
            d >= 0,
            exact >= 0,
            u > 0,
    ;
    assert(0x80_0000 * distance(qw, du) <= du + 0x80_0000 * w);
    assert(0x80_0000 * distance(qw, eu) <= 3 * eu + 0x80_0000 * w + 2 * (0x80_0000 * u));
    let zw = z * w;
    assert(eu <= w * u) by (nonlinear_arith)
        requires
            eu == exact * u,
            exact <= w,
            u > 0,
    ;
    if q > u {
        assert(zw == u * w && u * w == w * u && u * w <= qw) by (nonlinear_arith)
            requires
                zw == z * w,
                z == u,
                qw == q * w,
                q > u,
                w > 0,
        ;
    }
}

/// The fraction across a rectangle at which a point lies: its distance from the left edge over the
/// width, up to rounding. At the left edge and before it it is 0.
pub proof fn lemma_across_is_part_of_the_width(rect: ScreenRect, x: Float32)
    requires
        rect.width.finite() && !rect.width.negative(),
        0 < rect.width.value() <= 0x8_0000 * unit(),
        rect.x.finite() && size(rect.x.value()) <= 0x4_0000 * unit(),
        x.finite() && size(x.value()) <= 0x4_0000 * unit(),
        rect.x.value() < x.value() <= rect.x.value() + rect.width.value(),
    ensures
        0x20_0000 * distance(
            rect.across(x).value() * rect.width.value(),
            (x.value() - rect.x.value()) * unit(),
        ) <= (x.value() - rect.x.value()) * unit() + 0x20_0000 * (rect.width.value() + 2 * unit()),
{
    lemma_units();
    let u = unit();
    let w = rect.width.value();
    let exact = x.value() - rect.x.value();
    lemma_difference_near(x, rect.x);
    let d = x.difference(rect.x);
    lemma_quotient_near(d, rect.width);
    let q = d.quotient(rect.width);
    lemma_clamped(q);
    crate::float32::lemma_step(0, 0);
    if q.magnitude() > 0 {
        crate::float32::lemma_magnitude_value_increases(0, q.magnitude());
    }
    if d.magnitude() > 0 {
        crate::float32::lemma_magnitude_value_increases(0, d.magnitude());
    }
    lemma_across_arithmetic(d.value(), exact, q.value(), rect.across(x).value(), w, u);
}

proof fn lemma_upward_arithmetic(d: int, exact: int, q: int, r: int, z: int, h: int, u: int)
    requires
        u >= 0x100_0000_0000_0000,
        0 < h,
        0 <= exact <= h,
        near(d, exact, 1),
        near(q * h, d * u, h),
        0 <= d,
        0 <= q <= 4 * u,
        near(r, u - q, 1),
        0 <= z <= u,
        0 <= r <= u ==> z == r,
        r >= u ==> z == u,
        r <= 0 ==> z == 0,
    ensures
        0x10_0000 * distance(z * h, (h - exact) * u) <= h * u + 0x40_0000 * (h + u),
{
    let qh = q * h;
    let hu = h * u;
    let du = d * u;
    let eu = exact * u;
    let ed = d - exact;
    let edu = ed * u;
    assert(du == eu + edu) by (nonlinear_arith)
        requires
            du == d * u,
            eu == exact * u,
            ed == d - exact,
            edu == ed * u,
    ;
    assert(0x80_0000 * edu <= eu + 0x80_0000 * u && -(eu + 0x80_0000 * u) <= 0x80_0000 * edu && du
        >= 0 && 0 <= eu <= hu) by (nonlinear_arith)
        requires
            0x80_0000 * ed <= exact + 0x80_0000,
            -(exact + 0x80_0000) <= 0x80_0000 * ed,
            edu == ed * u,
            eu == exact * u,
            du == d * u,
            hu == h * u,
            d >= 0,
            0 <= exact <= h,
            u > 0,
    ;
    assert(0x80_0000 * distance(qh, du) <= du + 0x80_0000 * h);
    assert(0x80_0000 * distance(qh, eu) <= 3 * eu + 0x80_0000 * h + 2 * (0x80_0000 * u));
    let er = r - (u - q);
    let erh = er * h;
    assert(0x80_0000 * erh <= 4 * hu + 0x80_0000 * h && -(4 * hu + 0x80_0000 * h) <= 0x80_0000 * erh)
        by (nonlinear_arith)
        requires
            0x80_0000 * er <= 4 * u + 0x80_0000,
            -(4 * u + 0x80_0000) <= 0x80_0000 * er,
            erh == er * h,
            hu == h * u,
            h > 0,
    ;
    let rh = r * h;
    assert(rh == hu - qh + erh) by (nonlinear_arith)
        requires
            rh == r * h,
            er == r - (u - q),
            erh == er * h,
            hu == h * u,
            qh == q * h,
    ;
    assert((h - exact) * u == hu - eu) by (nonlinear_arith)
        requires
            hu == h * u,
            eu == exact * u,
    ;
    assert(0x10_0000 * distance(rh, hu - eu) <= hu + 0x40_0000 * (h + u));
    let zh = z * h;
    if r >= u {
        assert(zh == hu && rh >= hu) by (nonlinear_arith)
            requires
                zh == z * h,
                z == u,
                rh == r * h,
                r >= u,
                h > 0,
                hu == h * u,
        ;
    } else if r <= 0 {
        assert(zh == 0 && rh <= 0) by (nonlinear_arith)
            requires
                zh == z * h,
                z == 0,
                rh == r * h,
                r <= 0,
                h > 0,
        ;
    }
}

/// The fraction up a rectangle at which a point lies: its distance from the bottom edge over
/// the height, up to rounding, where `y` grows downwards.
pub proof fn lemma_upward_is_part_of_the_height(rect: ScreenRect, y: Float32)
    requires
        rect.height.finite() && !rect.height.negative(),
        0 < rect.height.value() <= 0x8_0000 * unit(),
        rect.y.finite() && size(rect.y.value()) <= 0x4_0000 * unit(),
        y.finite() && size(y.value()) <= 0x4_0000 * unit(),
        rect.y.value() < y.value() <= rect.y.value() + rect.height.value(),
    ensures
        0x10_0000 * distance(
            rect.upward(y).value() * rect.height.value(),
            (rect.y.value() + rect.height.value() - y.value()) * unit(),
        ) <= rect.height.value() * unit() + 0x40_0000 * (rect.height.value() + unit()),
{
    lemma_units();
    let u = unit();
    let h = rect.height.value();
    let exact = y.value() - rect.y.value();
    lemma_difference_near(y, rect.y);
    let d = y.difference(rect.y);
    lemma_quotient_near(d, rect.height);
    let q = d.quotient(rect.height);
    crate::float32::lemma_step(0, 0);
    if q.magnitude() > 0 {
        crate::float32::lemma_magnitude_value_increases(0, q.magnitude());
    }
    if d.magnitude() > 0 {
        crate::float32::lemma_magnitude_value_increases(0, d.magnitude());
    }
    let dv = d.value();
    let qv = q.value();
    let hu = h * u;
    assert(dv * u <= 3 * hu) by (nonlinear_arith)
        requires
            dv <= 3 * h,
            hu == h * u,
            u > 0,
    ;
    let qh = qv * h;
    assert(0x80_0000 * qh <= 0x80_0001 * (3 * hu) + 0x80_0000 * h);
    assert(qv <= 4 * u) by (nonlinear_arith)
        requires
            qh == qv * h,
            0x80_0000 * qh <= 0x80_0001 * (3 * hu) + 0x80_0000 * h,
            hu == h * u,
            u >= 0x100_0000_0000_0000,
            h >= 1,
    ;
    lemma_difference_near(Float32(ONE), q);
    let r = Float32(ONE).difference(q);
    lemma_clamped(r);
    lemma_upward_arithmetic(dv, exact, qv, r.value(), rect.upward(y).value(), h, u);
    assert(rect.y.value() + rect.height.value() - y.value() == h - exact);
}

proof fn lemma_plane_arithmetic(p: int, w: int, s: int, q: int, u: int)
    requires
        u >= 0x100_0000_0000_0000,
        0 <= p <= 127,
        near(w, p * u, 1),
        0x80_0000 * distance(s, 127 * u) <= 400 * u,
        0 <= q,
        near(q * s, w * u, s),
    ensures
        0x1000 * distance(127 * q, p * u) <= u,
        q <= 2 * u,
{
    let pu = p * u;
    assert(0 <= pu <= 127 * u) by (nonlinear_arith)
        requires
            pu == p * u,
            0 <= p <= 127,
            u > 0,
    ;
    let uu = u * u;
    assert(0x100_0000_0000_0000 * u <= uu) by (nonlinear_arith)
        requires
            uu == u * u,
            u >= 0x100_0000_0000_0000,
    ;
    let wu = w * u;
    let puu = pu * u;
    let ew = w - pu;
    let ewu = ew * u;
    assert(wu == puu + ewu) by (nonlinear_arith)
        requires
            wu == w * u,
            puu == pu * u,
            ew == w - pu,
            ewu == ew * u,
    ;
    assert(0x80_0000 * ewu <= 128 * uu && -(128 * uu) <= 0x80_0000 * ewu && 0 <= puu <= 127 * uu)
        by (nonlinear_arith)
        requires
            0x80_0000 * ew <= 128 * u,
            -(128 * u) <= 0x80_0000 * ew,
            ewu == ew * u,
            uu == u * u,
            puu == pu * u,
            0 <= pu <= 127 * u,
            u > 0,
    ;
    let qs = q * s;
    assert(qs <= 130 * uu);
    assert(q <= 2 * u) by (nonlinear_arith)
        requires
            qs == q * s,
            qs <= 130 * uu,
            uu == u * u,
            s >= 126 * u,
            q >= 0,
            u > 0,
    ;
    let es = s - 127 * u;
    let qes = q * es;
    assert(0x80_0000 * qes <= 800 * uu && -(800 * uu) <= 0x80_0000 * qes) by (nonlinear_arith)
        requires
            qes == q * es,
            0 <= q <= 2 * u,
            0x80_0000 * es <= 400 * u,
            -(400 * u) <= 0x80_0000 * es,
            uu == u * u,
    ;
    let q7 = 127 * q;
    assert(qs == q7 * u + qes) by (nonlinear_arith)
        requires
            qs == q * s,
            es == s - 127 * u,
            qes == q * es,
            q7 == 127 * q,
    ;
    let gap = q7 - pu;
    assert(gap * u == q7 * u - puu) by (nonlinear_arith)
        requires
            gap == q7 - pu,
            puu == pu * u,
    ;
    let gu = gap * u;
    assert(0x1000 * gu <= uu && -uu <= 0x1000 * gu);
    assert(0x1000 * gap <= u && -u <= 0x1000 * gap) by (nonlinear_arith)
        requires
            gu == gap * u,
            0x1000 * gu <= uu,
            -uu <= 0x1000 * gu,
            uu == u * u,
            u > 0,
    ;
}

/// A pixel of the plane has the saturation by its place from the left and the lightness by its
/// place from the bottom, in 127 steps each; all of them have the hue of the plane.
pub proof fn lemma_plane_grows_right_and_up(px: int, py: int, hue: Float32)
    requires
        0 <= px < 128,
        0 <= py < 128,
    ensures
        plane_color(px, py, hue).hue == hue,
        0x1000 * distance(127 * plane_color(px, py, hue).saturation.value(), px * unit()) <= unit(),
        0x800 * distance(127 * plane_color(px, py, hue).lightness.value(), (127 - py) * unit())
            <= unit(),
{
    lemma_units();
    let u = unit();
    lemma_whole_near(128);
    lemma_whole_near(px);
    lemma_whole_near(py);
    let all = Float32::of_whole(128);
    lemma_difference_near(all, Float32(ONE));
    let steps = all.difference(Float32(ONE));
    assert(0x80_0000 * distance(steps.value(), 127 * u) <= 400 * u);
    let x = Float32::of_whole(px);
    let y = Float32::of_whole(py);
    assert(0 <= px * u <= 127 * u && 0 <= py * u <= 127 * u) by (nonlinear_arith)
        requires
            0 <= px <= 127,
            0 <= py <= 127,
            u > 0,
    ;
    crate::float32::lemma_step(0, 0);
    lemma_quotient_near(x, steps);
    lemma_quotient_near(y, steps);
    let a = x.quotient(steps);
    let b = y.quotient(steps);
    if a.magnitude() > 0 {
        crate::float32::lemma_magnitude_value_increases(0, a.magnitude());
    }
    if b.magnitude() > 0 {
        crate::float32::lemma_magnitude_value_increases(0, b.magnitude());
    }
    lemma_plane_arithmetic(px, x.value(), steps.value(), a.value(), u);
    lemma_plane_arithmetic(py, y.value(), steps.value(), b.value(), u);
    lemma_difference_near(Float32(ONE), b);
    assert((127 - py) * u == 127 * u - py * u) by (nonlinear_arith);
}

} // verus!
