//! What the view shows where, and what each action on the view does to it. Values are in units
//! of `2^-1074`; what holds exactly of real numbers holds here up to rounding.

use crate::engine::Command;
use crate::float64::bounds::{
    beyond, lemma_power_has_magnitude, lemma_product_bounds, lemma_product_within,
    lemma_quotient_beyond, lemma_quotient_within, lemma_sum_within,
    lemma_within, power, within,
};
use crate::float64::error::{distance, precision, size};
use crate::float64::ratio::{
    alike, lemma_alike_in_turn, lemma_multiples_are_alike, lemma_parts_are_alike,
    lemma_product_is_alike, lemma_quotient_is_alike,
};
use crate::float64::Float64;
use crate::geometry::{Page, Point, Size};
use crate::ui::ViewAction;
use crate::viewport::{Viewport, WheelDelta, CSS_PER_PT, FIT_PART, MAX_SCALE, MIN_SCALE, ZOOM_STEP};
use crate::viewport_laws::{
    in_range, is_finite, lemma_cursor_stays_on_a_screen, lemma_cursor_stays_on_its_point,
    lemma_density_is_moderate, lemma_positive_value, moderate_density, nearly, on_a_page,
    on_a_screen, stays,
};
use vstd::arithmetic::power2::*;
use vstd::prelude::*;

verus! {

/// The value of a positive number by its exponent and significand.
proof fn lemma_constant(bits: u64, s: int, n: int)
    requires
        0 <= s <= 1074,
        0x10_0000_0000_0000 <= n < 0x20_0000_0000_0000,
        bits == s * 0x10_0000_0000_0000 + n,
        bits < 0x7ff0_0000_0000_0000,
    ensures
        Float64(bits).value() == n * pow2(s as nat),
        Float64(bits).finite(),
        !Float64(bits).negative(),
        Float64(bits).value() > 0,
        pow2(s as nat) > 0,
        pow2(1074) == pow2(s as nat) * pow2((1074 - s) as nat),
{
    crate::float64::lemma_step(s, n);
    lemma_pow2_pos(s as nat);
    lemma_pow2_adds(s as nat, (1074 - s) as nat);
    assert(n * pow2(s as nat) > 0) by (nonlinear_arith)
        requires
            n > 0,
            pow2(s as nat) > 0,
    ;
}

/// Three times the pixels for each point are four: a point is a 72nd of an inch, a pixel a 96th.
proof fn lemma_pixels_for_each_point()
    ensures
        alike(3 * Float64(CSS_PER_PT).value(), 4 * pow2(1074) as int, 1),
        Float64(CSS_PER_PT).value() > 0,
        !Float64(CSS_PER_PT).negative(),
{
    let n: int = 0x15_5555_5555_5555;
    lemma_constant(CSS_PER_PT, 1022, n);
    lemma2_to64_rest();
    let p = pow2(1022) as int;
    let c = Float64(CSS_PER_PT).value();
    let u = pow2(1074) as int;
    assert(c == 0x15_5555_5555_5555 * p && u == 0x10_0000_0000_0000 * p) by (nonlinear_arith)
        requires
            c == n * p,
            n == 0x15_5555_5555_5555,
            u == p * pow2(52),
            pow2(52) == 0x10_0000_0000_0000,
    ;
    let e = precision();
    assert(e * (3 * c) <= (e + 1) * (4 * u) && e * (4 * u) <= (e + 1) * (3 * c)) by (nonlinear_arith)
        requires
            e == 0x10_0000_0000_0000,
            c == 0x15_5555_5555_5555 * p,
            u == 0x10_0000_0000_0000 * p,
            p > 0,
    ;
}

proof fn lemma_one()
    ensures
        Float64(crate::viewport::UNIT).value() == pow2(1074),
        pow2(1074) > 0,
{
    lemma_power_has_magnitude(0);
    lemma_pow2_pos(1074);
}

/// How many pixels a point of the page takes: four thirds of the zoom times the density of the
/// screen.
pub proof fn lemma_density_counts_pixels(scale: Float64, dpi_scale: Float64)
    requires
        in_range(scale),
        moderate_density(dpi_scale),
    ensures
        alike(
            3 * (Viewport::density(scale, dpi_scale).value() * pow2(1074)),
            4 * (scale.value() * dpi_scale.value()),
            7,
        ),
{
    let u = pow2(1074) as int;
    lemma_one();
    lemma_density_is_moderate(scale, dpi_scale);
    lemma_pixels_for_each_point();
    let css = Float64(CSS_PER_PT);
    assert(!scale.negative() && beyond(scale, -7) && within(scale, 8));
    assert(beyond(css, 0) && within(css, 1));
    lemma_product_bounds(scale, css, -7, 0, 8, 1);
    lemma_positive_value(scale);
    lemma_positive_value(dpi_scale);
    let mid = scale.product(css);
    lemma_positive_value(mid);
    let k = Viewport::density(scale, dpi_scale);
    lemma_product_is_alike(scale, css);
    lemma_product_is_alike(mid, dpi_scale);
    let s = scale.value();
    let c = css.value();
    let d = dpi_scale.value();
    let m = mid.value();
    let kv = k.value();
    lemma_multiples_are_alike(m * u, s * c, d, 2);
    lemma_multiples_are_alike(kv * u, m * d, u, 2);
    assert((m * d) * u == (m * u) * d) by (nonlinear_arith);
    lemma_alike_in_turn((kv * u) * u, (m * u) * d, (s * c) * d, 2, 2);
    lemma_multiples_are_alike((kv * u) * u, (s * c) * d, 3, 5);
    assert(s * d > 0) by (nonlinear_arith)
        requires
            s > 0,
            d > 0,
    ;
    lemma_multiples_are_alike(3 * c, 4 * u, s * d, 1);
    assert((3 * c) * (s * d) == ((s * c) * d) * 3) by (nonlinear_arith);
    lemma_alike_in_turn(((kv * u) * u) * 3, ((s * c) * d) * 3, (4 * u) * (s * d), 5, 1);
    assert(((kv * u) * u) * 3 == (3 * (kv * u)) * u) by (nonlinear_arith);
    assert((4 * u) * (s * d) == (4 * (s * d)) * u) by (nonlinear_arith);
    lemma_parts_are_alike(3 * (kv * u), 4 * (s * d), u, 7);
}

/// `w` and `t` lie as many points apart as `p` pixels are, at `k` pixels for each point: up to one
/// part in `2^50` of what is involved, and a little.
pub open spec fn apart(w: int, t: int, p: int, k: int) -> bool {
    0x4_0000_0000_0000 * distance((w - t) * k, p * pow2(1074)) <= size(p) * pow2(1074) + (size(w)
        + size(t)) * k + 0x10_0000_0000_0000 * k
}

proof fn lemma_apart(px: Float64, t: Float64, k: Float64)
    requires
        within(px, 14),
        within(t, 61),
        beyond(k, -8),
        !k.negative(),
    ensures
        apart(px.quotient(k).sum(t).value(), t.value(), px.value(), k.value()),
{
    lemma_quotient_within(px, k, 14, -8);
    let q = px.quotient(k);
    lemma_sum_within(q, t, 61);
    lemma_positive_value(k);
    crate::float64::error::lemma_quotient_near(px, k);
    crate::float64::error::lemma_sum_error(q, t);
    lemma_pow2_pos(1074);
    lemma_apart_arithmetic(
        q.sum(t).value(),
        t.value(),
        q.value(),
        px.value(),
        k.value(),
        pow2(1074) as int,
    );
}

proof fn lemma_apart_arithmetic(w: int, t: int, q: int, p: int, k: int, u: int)
    requires
        k > 0,
        u > 0,
        precision() * distance(q * k, p * u) <= size(p) * u + precision() * k,
        precision() * distance(w, q + t) <= size(q + t),
    ensures
        0x4_0000_0000_0000 * distance((w - t) * k, p * u) <= size(p) * u + (size(w) + size(t)) * k
            + 0x10_0000_0000_0000 * k,
{
    let e = w - (q + t);
    let ek = e * k;
    let qk = q * k;
    let wk = size(w) * k;
    let tk = size(t) * k;
    assert((w - t) * k == qk + ek) by (nonlinear_arith)
        requires
            e == w - (q + t),
            ek == e * k,
            qk == q * k,
    ;
    assert((size(w) + size(t)) * k == wk + tk) by (nonlinear_arith)
        requires
            wk == size(w) * k,
            tk == size(t) * k,
    ;
    assert(0x8_0000_0000_0000 * size(e) <= size(w));
    assert(-(wk) <= 0x8_0000_0000_0000 * ek <= wk) by (nonlinear_arith)
        requires
            ek == e * k,
            wk == size(w) * k,
            k > 0,
            -size(w) <= 0x8_0000_0000_0000 * e <= size(w),
    ;
    assert(tk >= 0) by (nonlinear_arith)
        requires
            tk == size(t) * k,
            size(t) >= 0,
            k > 0,
    ;
    assert(size(p) * u >= 0) by (nonlinear_arith)
        requires
            size(p) >= 0,
            u > 0,
    ;
}

/// The point of the page at a position on the screen lies as many points off the point at the
/// corner of the window as the position lies pixels off that corner.
pub proof fn lemma_page_lies_under_the_screen(v: Viewport, px: Point, dpi_scale: Float64)
    requires
        in_range(v.scale),
        on_a_page(v.translate_pt),
        on_a_screen(px),
        moderate_density(dpi_scale),
    ensures
        ({
            let k = Viewport::density(v.scale, dpi_scale).value();
            let there = v.on_page(px, dpi_scale);
            &&& is_finite(there)
            &&& apart(there.x.value(), v.translate_pt.x.value(), px.x.value(), k)
            &&& apart(there.y.value(), v.translate_pt.y.value(), px.y.value(), k)
        }),
{
    let k = Viewport::density(v.scale, dpi_scale);
    lemma_density_is_moderate(v.scale, dpi_scale);
    lemma_quotient_within(px.x, k, 14, -8);
    lemma_quotient_within(px.y, k, 14, -8);
    lemma_sum_within(px.x.quotient(k), v.translate_pt.x, 60);
    lemma_sum_within(px.y.quotient(k), v.translate_pt.y, 60);
    lemma_apart(px.x, v.translate_pt.x, k);
    lemma_apart(px.y, v.translate_pt.y, k);
}

/// A zoom that is asked for is had within its bounds, and is the bound beyond them.
pub proof fn lemma_zoom_multiplies_the_scale(
    v: Viewport,
    px: Point,
    factor: Float64,
    dpi_scale: Float64,
)
    ensures
        ({
            let asked = v.scale.product(factor);
            let scale = v.zoomed(px, factor, dpi_scale).scale;
            &&& in_range(asked) ==> scale == asked
            &&& asked.below(Float64(MIN_SCALE)) ==> scale == Float64(MIN_SCALE)
            &&& Float64(MAX_SCALE).below(asked) ==> scale == Float64(MAX_SCALE)
        }),
{
    lemma_limits(v.scale.product(factor));
}

proof fn lemma_limits(asked: Float64)
    ensures
        in_range(asked) ==> crate::viewport::limited_scale(asked) == asked,
        asked.below(Float64(MIN_SCALE)) ==> crate::viewport::limited_scale(asked) == Float64(
            MIN_SCALE,
        ),
        Float64(MAX_SCALE).below(asked) ==> crate::viewport::limited_scale(asked) == Float64(
            MAX_SCALE,
        ),
{
}

/// Half of a number is what a division by 2 gives.
proof fn lemma_half(x: Float64, h: Float64)
    requires
        x.finite() && h.finite(),
        2 * h.value() == x.value(),
        h.negative() == x.negative(),
    ensures
        x.quotient(Float64(crate::viewport::TWO)) == h,
{
    let two = Float64(crate::viewport::TWO);
    lemma_constant(crate::viewport::TWO, 1023, 0x10_0000_0000_0000);
    let u = pow2(1074) as int;
    lemma_pow2_pos(1074);
    lemma2_to64_rest();
    lemma_pow2_adds(1023, 52);
    lemma_pow2_unfold(1075);
    assert(two.value() == 2 * u);
    let a = crate::float64::magnitude_value(x.magnitude());
    let b = crate::float64::magnitude_value(h.magnitude());
    assert(a == 2 * b);
    assert(a * u == b * (2 * u)) by (nonlinear_arith)
        requires
            a == 2 * b,
    ;
    crate::float64::lemma_exact_value_rounds_to_itself(h.magnitude(), 2 * u);
    crate::float64::lemma_rounding_exists(a * u, 2 * u);
    assert(h == Float64::with_sign(h.negative(), h.magnitude()));
}

/// The position is the middle of the window.
pub open spec fn is_middle(px: Point, window_px: Size) -> bool {
    &&& is_finite(px) && window_px.width.finite() && window_px.height.finite()
    &&& 2 * px.x.value() == window_px.width.value()
    &&& 2 * px.y.value() == window_px.height.value()
    &&& px.x.negative() == window_px.width.negative()
    &&& px.y.negative() == window_px.height.negative()
}

proof fn lemma_middle_is_center(px: Point, window_px: Size)
    requires
        is_middle(px, window_px),
    ensures
        crate::viewport::center_of(window_px) == px,
{
    lemma_half(window_px.width, px.x);
    lemma_half(window_px.height, px.y);
}

/// Where an action zooms around: one step of zoom around the anchor, the natural size around the
/// middle of the window.
pub open spec fn zooms_around(
    action: ViewAction,
    px: Point,
    anchor: Point,
    window_px: Size,
) -> bool {
    match action {
        ViewAction::ZoomIn | ViewAction::ZoomOut => px == anchor,
        ViewAction::ZoomTo100 => is_middle(px, window_px),
        _ => false,
    }
}

/// Zooming in, zooming out and zooming to the natural size keep the point of the page that they
/// zoom around where it is on the screen, wherever nothing overflows: up to one part in `2^50` of
/// the translation and the position in points.
#[verifier::rlimit(40)]
pub proof fn lemma_zoom_actions_keep_their_point(
    v: Viewport,
    action: ViewAction,
    px: Point,
    anchor: Point,
    window_px: Size,
    page: Page,
    dpi_scale: Float64,
)
    requires
        zooms_around(action, px, anchor, window_px),
        ({
            let after = v.acted(action, anchor, window_px, page, dpi_scale);
            is_finite(after.translate_pt) && is_finite(after.on_page(px, dpi_scale))
        }),
    ensures
        ({
            let after = v.acted(action, anchor, window_px, page, dpi_scale);
            let was = v.on_page(px, dpi_scale);
            let is = after.on_page(px, dpi_scale);
            let k = Viewport::density(after.scale, dpi_scale);
            &&& stays(is.x, was.x, after.translate_pt.x, px.x.quotient(k))
            &&& stays(is.y, was.y, after.translate_pt.y, px.y.quotient(k))
        }),
{
    match action {
        ViewAction::ZoomIn => {
            lemma_cursor_stays_on_its_point(v, px, Float64(ZOOM_STEP), dpi_scale);
        },
        ViewAction::ZoomOut => {
            lemma_cursor_stays_on_its_point(
                v,
                px,
                Float64(crate::viewport::UNIT).quotient(Float64(ZOOM_STEP)),
                dpi_scale,
            );
        },
        _ => {
            lemma_middle_is_center(px, window_px);
            lemma_cursor_stays_on_its_point(
                v,
                px,
                crate::viewport::limited_scale(Float64(crate::viewport::UNIT)).quotient(v.scale),
                dpi_scale,
            );
        },
    }
}

/// One step of zoom is a factor of 1.1 inwards and its reciprocal outwards.
proof fn lemma_zoom_step()
    ensures
        alike(10 * Float64(ZOOM_STEP).value(), 11 * pow2(1074) as int, 1),
        Float64(ZOOM_STEP).value() > 0,
        beyond(Float64(ZOOM_STEP), 0) && within(Float64(ZOOM_STEP), 1),
{
    let n: int = 0x11_9999_9999_999a;
    lemma_constant(ZOOM_STEP, 1022, n);
    lemma2_to64_rest();
    let p = pow2(1022) as int;
    let c = Float64(ZOOM_STEP).value();
    let u = pow2(1074) as int;
    assert(c == 0x11_9999_9999_999a * p && u == 0x10_0000_0000_0000 * p) by (nonlinear_arith)
        requires
            c == n * p,
            n == 0x11_9999_9999_999a,
            u == p * pow2(52),
            pow2(52) == 0x10_0000_0000_0000,
    ;
    let e = precision();
    assert(e * (10 * c) <= (e + 1) * (11 * u) && e * (11 * u) <= (e + 1) * (10 * c)) by (nonlinear_arith)
        requires
            e == 0x10_0000_0000_0000,
            c == 0x11_9999_9999_999a * p,
            u == 0x10_0000_0000_0000 * p,
            p > 0,
    ;
}

/// Zooming in makes the zoom eleven tenths of what it was, up to the greatest zoom; zooming out
/// makes it ten elevenths, down to the least. Up to 7 parts in `2^52`.
pub proof fn lemma_zoom_steps_change_the_scale(
    v: Viewport,
    anchor: Point,
    window_px: Size,
    page: Page,
    dpi_scale: Float64,
)
    requires
        in_range(v.scale),
    ensures
        ({
            let nearer = v.acted(ViewAction::ZoomIn, anchor, window_px, page, dpi_scale);
            let further = v.acted(ViewAction::ZoomOut, anchor, window_px, page, dpi_scale);
            &&& in_range(nearer.scale)
            &&& alike(10 * nearer.scale.value(), 11 * v.scale.value(), 4) || nearer.scale
                == Float64(MAX_SCALE)
            &&& in_range(further.scale)
            &&& alike(11 * further.scale.value(), 10 * v.scale.value(), 7) || further.scale
                == Float64(MIN_SCALE)
        }),
{
    let u = pow2(1074) as int;
    lemma_one();
    lemma_zoom_step();
    let one = Float64(crate::viewport::UNIT);
    let step = Float64(ZOOM_STEP);
    let back = one.quotient(step);
    assert(!v.scale.negative() && beyond(v.scale, -7) && within(v.scale, 8));
    assert(beyond(one, 0) && within(one, 0));
    lemma_positive_value(v.scale);
    let s = v.scale.value();
    lemma_product_bounds(v.scale, step, -7, 0, 8, 1);
    let p = v.scale.product(step);
    lemma_positive_value(p);
    lemma_product_is_alike(v.scale, step);
    // p u ~ s f and 10 f ~ 11 u.
    lemma_multiples_are_alike(p.value() * u, s * step.value(), 10, 2);
    lemma_multiples_are_alike(10 * step.value(), 11 * u, s, 1);
    assert((s * step.value()) * 10 == (10 * step.value()) * s) by (nonlinear_arith);
    lemma_alike_in_turn(
        (p.value() * u) * 10,
        (10 * step.value()) * s,
        (11 * u) * s,
        2,
        1,
    );
    assert((p.value() * u) * 10 == (10 * p.value()) * u) by (nonlinear_arith);
    assert((11 * u) * s == (11 * s) * u) by (nonlinear_arith);
    lemma_parts_are_alike(10 * p.value(), 11 * s, u, 4);
    lemma_in_order(v.scale, p, 10, 11, 4);
    lemma_quotient_within(one, step, 0, 0);
    lemma_quotient_beyond(one, step, 0, 1);
    lemma_positive_value(back);
    lemma_quotient_is_alike(one, step);
    lemma_product_bounds(v.scale, back, -7, -1, 8, 0);
    let q = v.scale.product(back);
    lemma_positive_value(q);
    lemma_product_is_alike(v.scale, back);
    // q u ~ s b, b f ~ u u and 10 f ~ 11 u.
    let b = back.value();
    let f = step.value();
    lemma_multiples_are_alike(q.value() * u, s * b, 10 * f, 2);
    lemma_multiples_are_alike(b * f, u * u, 10 * s, 2);
    assert((s * b) * (10 * f) == (b * f) * (10 * s)) by (nonlinear_arith);
    lemma_alike_in_turn(
        (q.value() * u) * (10 * f),
        (b * f) * (10 * s),
        (u * u) * (10 * s),
        2,
        2,
    );
    assert(q.value() * u > 0) by (nonlinear_arith)
        requires
            q.value() > 0,
            u > 0,
    ;
    lemma_multiples_are_alike(10 * f, 11 * u, q.value() * u, 1);
    assert((10 * f) * (q.value() * u) == (q.value() * u) * (10 * f)) by (nonlinear_arith);
    assert(alike((11 * u) * (q.value() * u), (10 * f) * (q.value() * u), 1));
    lemma_alike_in_turn(
        (11 * u) * (q.value() * u),
        (q.value() * u) * (10 * f),
        (u * u) * (10 * s),
        1,
        5,
    );
    assert((11 * u) * (q.value() * u) == (11 * q.value()) * (u * u)) by (nonlinear_arith);
    assert((u * u) * (10 * s) == (10 * s) * (u * u)) by (nonlinear_arith);
    assert(u * u > 0) by (nonlinear_arith)
        requires
            u > 0,
    ;
    lemma_parts_are_alike(11 * q.value(), 10 * s, u * u, 7);
    lemma_in_order(v.scale, q, 11, 10, 7);
}

/// What is clearly larger or smaller by its value is so by its order.
proof fn lemma_in_order(x: Float64, y: Float64, a: int, b: int, n: int)
    requires
        x.finite() && y.finite(),
        !x.negative() && !y.negative(),
        1 <= a <= 100 && 1 <= b <= 100,
        0 <= n <= 100,
        alike(a * y.value(), b * x.value(), n),
    ensures
        a < b ==> x.below(y),
        a > b ==> y.below(x),
{
    let p = x.value();
    let q = y.value();
    let e = precision();
    let aq = a * q;
    let bp = b * p;
    crate::float64::lemma_step(0, 0);
    if a < b {
        assert(p < q) by (nonlinear_arith)
            requires
                e == 0x10_0000_0000_0000,
                e * (b * p) <= (e + n) * (a * q),
                1 <= a <= 100,
                a + 1 <= b <= 100,
                0 <= n <= 100,
                a * q > 0,
                b * p > 0,
        ;
        if y.magnitude() <= x.magnitude() {
            if y.magnitude() < x.magnitude() {
                crate::float64::lemma_magnitude_value_increases(y.magnitude(), x.magnitude());
            }
        }
    }
    if a > b {
        assert(q < p) by (nonlinear_arith)
            requires
                e == 0x10_0000_0000_0000,
                e * (a * q) <= (e + n) * (b * p),
                1 <= b <= 100,
                b + 1 <= a <= 100,
                0 <= n <= 100,
                a * q > 0,
                b * p > 0,
        ;
        if x.magnitude() <= y.magnitude() {
            if x.magnitude() < y.magnitude() {
                crate::float64::lemma_magnitude_value_increases(x.magnitude(), y.magnitude());
            }
        }
    }
}

/// Zooming to the natural size makes the zoom 1, up to 5 parts in `2^52`.
pub proof fn lemma_natural_size_is_one(
    v: Viewport,
    anchor: Point,
    window_px: Size,
    page: Page,
    dpi_scale: Float64,
)
    requires
        in_range(v.scale),
    ensures
        ({
            let after = v.acted(ViewAction::ZoomTo100, anchor, window_px, page, dpi_scale);
            alike(after.scale.value(), pow2(1074) as int, 5)
        }),
{
    let u = pow2(1074) as int;
    lemma_one();
    let one = Float64(crate::viewport::UNIT);
    assert(!v.scale.negative() && beyond(v.scale, -7) && within(v.scale, 8));
    assert(beyond(one, 0) && within(one, 0));
    lemma_positive_value(v.scale);
    let s = v.scale.value();
    let factor = one.quotient(v.scale);
    lemma_quotient_within(one, v.scale, 0, -7);
    lemma_quotient_beyond(one, v.scale, 0, 8);
    lemma_positive_value(factor);
    lemma_quotient_is_alike(one, v.scale);
    lemma_product_bounds(v.scale, factor, -7, -8, 8, 7);
    let p = v.scale.product(factor);
    lemma_positive_value(p);
    lemma_product_is_alike(v.scale, factor);
    assert(factor.value() * s == s * factor.value()) by (nonlinear_arith);
    lemma_alike_in_turn(p.value() * u, s * factor.value(), u * u, 2, 2);
    lemma_parts_are_alike(p.value(), u, u, 5);
    crate::float64::bounds::lemma_next_power(0);
    crate::float64::bounds::lemma_next_power(-1);
    lemma_within(p, 1);
    lemma_within(p, -1);
    assert(power(-1) <= p.value() <= power(1));
    assert(within(p, 1) && beyond(p, -1));
    assert(Float64(MIN_SCALE).at_most(p));
    assert(p.at_most(Float64(MAX_SCALE)));
}

/// Resetting the view gives the natural size with the corner of the page at the corner of the
/// window; what concerns the page only leaves the view as it is, and asks for the page's flag to
/// be turned over. No other action asks for a change of the page.
pub proof fn lemma_other_actions(
    v: Viewport,
    action: ViewAction,
    anchor: Point,
    window_px: Size,
    page: Page,
    dpi_scale: Float64,
)
    ensures
        ({
            let after = v.acted(action, anchor, window_px, page, dpi_scale);
            let asked = action.on_page(page);
            &&& action is ResetView ==> {
                &&& after.scale.value() == pow2(1074)
                &&& after.translate_pt.x.value() == 0
                &&& after.translate_pt.y.value() == 0
            }
            &&& action is TogglePageBounds ==> {
                &&& after == v
                &&& asked matches Some(Command::SetShowBounds(show)) && show == !page.show_bounds
            }
            &&& action is ToggleClipToBounds ==> {
                &&& after == v
                &&& asked matches Some(Command::SetClipToBounds(clip)) && clip
                    == !page.clip_to_bounds
            }
            &&& !(action is TogglePageBounds) && !(action is ToggleClipToBounds) ==> asked is None
        }),
{
    lemma_one();
    crate::float64::lemma_step(0, 0);
}

/// The same for every position on a screen: nothing overflows, and the point of the page that is
/// zoomed around stays where it is up to `10^-9`.
#[verifier::rlimit(40)]
pub proof fn lemma_zoom_actions_keep_their_point_on_a_screen(
    v: Viewport,
    action: ViewAction,
    px: Point,
    anchor: Point,
    window_px: Size,
    page: Page,
    dpi_scale: Float64,
)
    requires
        zooms_around(action, px, anchor, window_px),
        in_range(v.scale),
        on_a_page(v.translate_pt),
        on_a_screen(px),
        moderate_density(dpi_scale),
    ensures
        ({
            let after = v.acted(action, anchor, window_px, page, dpi_scale);
            let was = v.on_page(px, dpi_scale);
            let is = after.on_page(px, dpi_scale);
            &&& in_range(after.scale)
            &&& nearly(is.x, was.x)
            &&& nearly(is.y, was.y)
        }),
{
    let one = Float64(crate::viewport::UNIT);
    lemma_zoom_step();
    assert(beyond(one, 0) && within(one, 0));
    assert(!v.scale.negative() && beyond(v.scale, -7) && within(v.scale, 8));
    match action {
        ViewAction::ZoomIn => {
            lemma_cursor_stays_on_a_screen(v, px, Float64(ZOOM_STEP), dpi_scale);
        },
        ViewAction::ZoomOut => {
            lemma_quotient_within(one, Float64(ZOOM_STEP), 0, 0);
            lemma_cursor_stays_on_a_screen(v, px, one.quotient(Float64(ZOOM_STEP)), dpi_scale);
        },
        _ => {
            lemma_middle_is_center(px, window_px);
            lemma_limits(one);
            lemma_quotient_within(one, v.scale, 0, -7);
            lemma_cursor_stays_on_a_screen(v, px, one.quotient(v.scale), dpi_scale);
        },
    }
}

proof fn lemma_pan_identity(t1: int, t: int, m: int, per: int, p: int, k: int, u: int)
    ensures
        ((t1 - t) * k - p * u) * u == p * (per * k - u * u) + (m * u - p * per) * k + ((t1 - (t
            + m)) * k) * u,
{
    let e1 = t1 - (t + m);
    let mk = m * k;
    assert((t1 - t) * k == mk + e1 * k) by (nonlinear_arith)
        requires
            e1 == t1 - (t + m),
            mk == m * k,
    ;
    let pu = p * u;
    let e1k = e1 * k;
    assert((mk + e1k - pu) * u == mk * u + e1k * u - pu * u) by (nonlinear_arith);
    assert((m * u - p * per) * k == (m * u) * k - (p * per) * k) by (nonlinear_arith);
    assert(p * (per * k - u * u) == p * (per * k) - p * (u * u)) by (nonlinear_arith);
    assert((m * u) * k == mk * u) by (nonlinear_arith)
        requires
            mk == m * k,
    ;
    assert((p * per) * k == p * (per * k)) by (nonlinear_arith);
    assert(pu * u == p * (u * u)) by (nonlinear_arith)
        requires
            pu == p * u,
    ;
}

proof fn lemma_pan_arithmetic(t1: int, t: int, m: int, per: int, p: int, k: int, u: int)
    requires
        k > 0 && u > 0 && per > 0,
        alike(per * k, u * u, 2),
        precision() * distance(m * u, p * per) <= size(p * per) + precision() * u,
        precision() * distance(t1, t + m) <= size(t + m),
    ensures
        0x4_0000_0000_0000 * distance((t1 - t) * k, p * u) <= size(p) * u + (size(t1) + size(t))
            * k + 0x10_0000_0000_0000 * k,
{
    let e = 0x10_0000_0000_0000int;
    let e1 = t1 - (t + m);
    let e2 = m * u - p * per;
    let e3 = per * k - u * u;
    let q = size(p);
    crate::viewport_laws::lemma_size_of_product(p, per);
    let qper = q * per;
    assert(size(per) == per);
    assert(e * size(e2) <= qper + e * u);
    assert(0x8_0000_0000_0000 * size(e1) <= size(t1));
    // (t1 - t) k u = p u u + p e3 + e2 k + e1 k u.
    let d = (t1 - t) * k - p * u;
    lemma_pan_identity(t1, t, m, per, p, k, u);
    let uu = u * u;
    assert(uu > 0) by (nonlinear_arith)
        requires
            uu == u * u,
            u > 0,
    ;
    assert(e * size(e3) <= 2 * uu + e * 0) by {
        crate::float64::ratio::lemma_alike_is_near(per * k, uu, 2);
    }
    let pe3 = p * e3;
    let quu = q * uu;
    assert(-(2 * quu) <= e * pe3 <= 2 * quu) by (nonlinear_arith)
        requires
            pe3 == p * e3,
            quu == q * uu,
            -q <= p <= q,
            -(2 * uu) <= e * e3 <= 2 * uu,
            e > 0,
            uu > 0,
    ;
    let e2k = e2 * k;
    let qperk = qper * k;
    let ku = k * u;
    assert(-(qperk + e * ku) <= e * e2k <= qperk + e * ku) by (nonlinear_arith)
        requires
            e2k == e2 * k,
            qperk == qper * k,
            ku == k * u,
            -(qper + e * u) <= e * e2 <= qper + e * u,
            k > 0,
    ;
    assert(qperk <= 2 * quu) by (nonlinear_arith)
        requires
            qperk == (q * per) * k,
            quu == q * uu,
            q >= 0,
            per * k <= 2 * uu,
    ;
    let e1k = e1 * k;
    let wk = size(t1) * k;
    assert(-wk <= 0x8_0000_0000_0000 * e1k <= wk) by (nonlinear_arith)
        requires
            e1k == e1 * k,
            wk == size(t1) * k,
            k > 0,
            -size(t1) <= 0x8_0000_0000_0000 * e1 <= size(t1),
    ;
    let qu = q * u;
    // d u <= (4 quu + e ku) / e + e1k u
    let f = d - e1k;
    assert(f * u == pe3 + e2k) by (nonlinear_arith)
        requires
            f == d - e1k,
            d * u == pe3 + e2k + e1k * u,
    ;
    assert(-(4 * qu + e * k) <= e * f <= 4 * qu + e * k) by (nonlinear_arith)
        requires
            f * u == pe3 + e2k,
            -(2 * quu) <= e * pe3 <= 2 * quu,
            -(2 * quu + e * ku) <= e * e2k <= 2 * quu + e * ku,
            quu == q * (u * u),
            qu == q * u,
            ku == k * u,
            u > 0,
    ;
    assert((size(t1) + size(t)) * k >= wk) by (nonlinear_arith)
        requires
            wk == size(t1) * k,
            size(t) >= 0,
            k > 0,
    ;
    assert(wk >= 0) by (nonlinear_arith)
        requires
            wk == size(t1) * k,
            size(t1) >= 0,
            k > 0,
    ;
    assert(distance((t1 - t) * k, p * u) == size(d));
}

proof fn lemma_pan_coordinate(px: Float64, t: Float64, k: Float64)
    requires
        within(px, 14),
        within(t, 60),
        beyond(k, -8) && within(k, 19),
        !k.negative(),
    ensures
        ({
            let per = Float64(crate::viewport::UNIT).quotient(k);
            let moved = t.sum(px.product(per));
            moved.finite() && apart(moved.value(), t.value(), px.value(), k.value())
        }),
{
    let one = Float64(crate::viewport::UNIT);
    lemma_one();
    assert(beyond(one, 0) && within(one, 0));
    let per = one.quotient(k);
    lemma_quotient_within(one, k, 0, -8);
    lemma_quotient_beyond(one, k, 0, 19);
    lemma_positive_value(k);
    lemma_positive_value(per);
    lemma_quotient_is_alike(one, k);
    lemma_product_within(px, per, 14, 8);
    let m = px.product(per);
    lemma_sum_within(t, m, 60);
    crate::float64::error::lemma_product_near(px, per);
    crate::float64::error::lemma_sum_error(t, m);
    lemma_pan_arithmetic(
        t.sum(m).value(),
        t.value(),
        m.value(),
        per.value(),
        px.value(),
        k.value(),
        pow2(1074) as int,
    );
}

/// Panning moves the corner of the window over the page by as many points as the wheel moved
/// pixels, in the direction in which it moved, and leaves the zoom as it is.
pub proof fn lemma_pan_moves_the_page(v: Viewport, px: Point, dpi_scale: Float64)
    requires
        in_range(v.scale),
        on_a_page(v.translate_pt),
        on_a_screen(px),
        moderate_density(dpi_scale),
    ensures
        ({
            let after = v.panned(px, dpi_scale);
            let k = Viewport::density(v.scale, dpi_scale).value();
            &&& after.scale == v.scale
            &&& is_finite(after.translate_pt)
            &&& apart(after.translate_pt.x.value(), v.translate_pt.x.value(), px.x.value(), k)
            &&& apart(after.translate_pt.y.value(), v.translate_pt.y.value(), px.y.value(), k)
        }),
{
    let k = Viewport::density(v.scale, dpi_scale);
    lemma_density_is_moderate(v.scale, dpi_scale);
    lemma_pan_coordinate(px.x, v.translate_pt.x, k);
    lemma_pan_coordinate(px.y, v.translate_pt.y, k);
}

/// A side between 1 and `2^14`.
pub open spec fn moderate_side(x: Float64) -> bool {
    !x.negative() && beyond(x, 0) && within(x, 14)
}

/// The zoom at which a side of the page fills a side of the window.
proof fn lemma_filling_zoom(window: Float64, page: Float64, dpi_scale: Float64)
    requires
        moderate_side(window),
        moderate_side(page),
        moderate_density(dpi_scale),
    ensures
        ({
            let zoom = window.quotient(Float64(CSS_PER_PT).product(dpi_scale)).quotient(page);
            &&& !zoom.negative() && beyond(zoom, -25) && within(zoom, 15)
            &&& alike(
                4 * ((zoom.value() * page.value()) * dpi_scale.value()),
                3 * ((window.value() * pow2(1074)) * pow2(1074)),
                11,
            )
        }),
{
    let u = pow2(1074) as int;
    lemma_one();
    lemma_pixels_for_each_point();
    let css = Float64(CSS_PER_PT);
    assert(beyond(css, 0) && within(css, 1));
    let pixels = css.product(dpi_scale);
    lemma_product_bounds(css, dpi_scale, 0, -1, 1, 10);
    let first = window.quotient(pixels);
    lemma_quotient_within(window, pixels, 14, -1);
    lemma_quotient_beyond(window, pixels, 0, 11);
    let zoom = first.quotient(page);
    lemma_quotient_within(first, page, 15, 0);
    lemma_quotient_beyond(first, page, -11, 14);
    lemma_positive_value(dpi_scale);
    lemma_positive_value(pixels);
    lemma_positive_value(window);
    lemma_positive_value(page);
    lemma_positive_value(first);
    lemma_positive_value(zoom);
    lemma_product_is_alike(css, dpi_scale);
    lemma_quotient_is_alike(window, pixels);
    lemma_quotient_is_alike(first, page);
    let c = css.value();
    let d = dpi_scale.value();
    let x = pixels.value();
    let w = window.value();
    let p = page.value();
    let a = first.value();
    let z = zoom.value();
    // x u ~ c d, a x ~ w u, z p ~ a u and 3 c ~ 4 u.
    lemma_multiples_are_alike(3 * c, 4 * u, d, 1);
    lemma_multiples_are_alike(x * u, c * d, 3, 2);
    assert((c * d) * 3 == (3 * c) * d) by (nonlinear_arith);
    lemma_alike_in_turn((x * u) * 3, (3 * c) * d, (4 * u) * d, 2, 1);
    assert((x * u) * 3 == (3 * x) * u && (4 * u) * d == (4 * d) * u) by (nonlinear_arith);
    lemma_parts_are_alike(3 * x, 4 * d, u, 4);
    // 4 d (z p) ~ 3 x (z p) ~ 3 x (a u) ~ 3 (w u) u.
    assert(z * p > 0) by (nonlinear_arith)
        requires
            z > 0,
            p > 0,
    ;
    lemma_multiples_are_alike(3 * x, 4 * d, z * p, 4);
    lemma_multiples_are_alike(z * p, a * u, 3 * x, 2);
    lemma_multiples_are_alike(a * x, w * u, 3 * u, 2);
    assert((z * p) * (3 * x) == (3 * x) * (z * p)) by (nonlinear_arith);
    assert((a * u) * (3 * x) == (a * x) * (3 * u)) by (nonlinear_arith);
    lemma_alike_in_turn((4 * d) * (z * p), (3 * x) * (z * p), (a * u) * (3 * x), 4, 2);
    lemma_alike_in_turn((4 * d) * (z * p), (a * x) * (3 * u), (w * u) * (3 * u), 7, 2);
    assert((4 * d) * (z * p) == 4 * ((z * p) * d)) by (nonlinear_arith);
    assert((w * u) * (3 * u) == 3 * ((w * u) * u)) by (nonlinear_arith);
    lemma_a_little_more(4 * ((z * p) * d), 3 * ((w * u) * u), 10, 11);
}

proof fn lemma_a_little_more(a: int, b: int, n: int, m: int)
    requires
        alike(a, b, n),
        0 <= n <= m,
    ensures
        alike(a, b, m),
{
    let e = precision();
    assert((e + n) * b <= (e + m) * b && (e + n) * a <= (e + m) * a) by (nonlinear_arith)
        requires
            a > 0,
            b > 0,
            n <= m,
    ;
}

/// A page fills nine tenths of the window: four thirds of ten times its side, at the zoom and on
/// the screen, are nine times the side of the window.
pub open spec fn fills(scale: Float64, page: Float64, dpi_scale: Float64, window: Float64) -> bool {
    alike(
        40 * ((scale.value() * page.value()) * dpi_scale.value()),
        27 * ((window.value() * pow2(1074)) * pow2(1074)),
        17,
    )
}

/// A page takes at most nine tenths of the window.
pub open spec fn fits(scale: Float64, page: Float64, dpi_scale: Float64, window: Float64) -> bool {
    precision() * (40 * ((scale.value() * page.value()) * dpi_scale.value())) <= (precision() + 17)
        * (27 * ((window.value() * pow2(1074)) * pow2(1074)))
}

proof fn lemma_fit_part()
    ensures
        alike(10 * Float64(FIT_PART).value(), 9 * pow2(1074) as int, 1),
        Float64(FIT_PART).value() > 0,
        beyond(Float64(FIT_PART), -1) && within(Float64(FIT_PART), 0),
{
    let n: int = 0x1c_cccc_cccc_cccd;
    lemma_constant(FIT_PART, 1021, n);
    lemma2_to64_rest();
    let p = pow2(1021) as int;
    let c = Float64(FIT_PART).value();
    let u = pow2(1074) as int;
    assert(c == 0x1c_cccc_cccc_cccd * p && u == 0x20_0000_0000_0000 * p) by (nonlinear_arith)
        requires
            c == n * p,
            n == 0x1c_cccc_cccc_cccd,
            u == p * pow2(53),
            pow2(53) == 0x20_0000_0000_0000,
    ;
    let e = precision();
    assert(e * (10 * c) <= (e + 1) * (9 * u) && e * (9 * u) <= (e + 1) * (10 * c))
        by (nonlinear_arith)
        requires
            e == 0x10_0000_0000_0000,
            c == 0x1c_cccc_cccc_cccd * p,
            u == 0x20_0000_0000_0000 * p,
            p > 0,
    ;
}

/// Nine tenths of the zoom at which a side fills the window.
proof fn lemma_part_fills(zoom: Float64, window: Float64, page: Float64, dpi_scale: Float64)
    requires
        moderate_side(window),
        moderate_side(page),
        moderate_density(dpi_scale),
        zoom == window.quotient(Float64(CSS_PER_PT).product(dpi_scale)).quotient(page),
    ensures
        fills(zoom.product(Float64(FIT_PART)), page, dpi_scale, window),
        beyond(zoom.product(Float64(FIT_PART)), -26),
        within(zoom.product(Float64(FIT_PART)), 15),
        !zoom.product(Float64(FIT_PART)).negative(),
        zoom.product(Float64(FIT_PART)).value() > 0,
{
    let u = pow2(1074) as int;
    lemma_one();
    lemma_fit_part();
    lemma_filling_zoom(window, page, dpi_scale);
    let part = Float64(FIT_PART);
    let s = zoom.product(part);
    lemma_product_bounds(zoom, part, -25, -1, 15, 0);
    lemma_positive_value(zoom);
    lemma_positive_value(s);
    lemma_positive_value(page);
    lemma_positive_value(dpi_scale);
    lemma_product_is_alike(zoom, part);
    let z = zoom.value();
    let f = part.value();
    let sv = s.value();
    let p = page.value();
    let d = dpi_scale.value();
    // s u ~ z f and 10 f ~ 9 u, so 10 s ~ 9 z.
    lemma_multiples_are_alike(sv * u, z * f, 10, 2);
    lemma_multiples_are_alike(10 * f, 9 * u, z, 1);
    assert((z * f) * 10 == (10 * f) * z) by (nonlinear_arith);
    lemma_alike_in_turn((sv * u) * 10, (10 * f) * z, (9 * u) * z, 2, 1);
    assert((sv * u) * 10 == (10 * sv) * u && (9 * u) * z == (9 * z) * u) by (nonlinear_arith);
    lemma_parts_are_alike(10 * sv, 9 * z, u, 4);
    let pd = 4 * (p * d);
    assert(pd > 0) by (nonlinear_arith)
        requires
            pd == 4 * (p * d),
            p > 0,
            d > 0,
    ;
    lemma_multiples_are_alike(10 * sv, 9 * z, pd, 4);
    let target = 3 * ((window.value() * u) * u);
    lemma_multiples_are_alike(4 * ((z * p) * d), target, 9, 11);
    assert((10 * sv) * pd == 40 * ((sv * p) * d)) by (nonlinear_arith)
        requires
            pd == 4 * (p * d),
    ;
    assert((9 * z) * pd == (4 * ((z * p) * d)) * 9) by (nonlinear_arith)
        requires
            pd == 4 * (p * d),
    ;
    lemma_alike_in_turn(40 * ((sv * p) * d), (4 * ((z * p) * d)) * 9, target * 9, 4, 11);
    assert(target * 9 == 27 * ((window.value() * u) * u)) by (nonlinear_arith)
        requires
            target == 3 * ((window.value() * u) * u),
    ;
    lemma_a_little_more(
        40 * ((sv * p) * d),
        27 * ((window.value() * u) * u),
        16,
        17,
    );
}

/// A smaller zoom takes no more of the window.
proof fn lemma_smaller_fits(
    s: Float64,
    larger: Float64,
    window: Float64,
    page: Float64,
    dpi_scale: Float64,
)
    requires
        0 <= s.value() <= larger.value(),
        page.value() > 0,
        dpi_scale.value() > 0,
        fits(larger, page, dpi_scale, window),
    ensures
        fits(s, page, dpi_scale, window),
{
    let p = page.value();
    let d = dpi_scale.value();
    assert((s.value() * p) * d <= (larger.value() * p) * d) by (nonlinear_arith)
        requires
            0 <= s.value() <= larger.value(),
            p > 0,
            d > 0,
    ;
}

/// Of two numbers that are not negative, the one that is at most the other has no larger value.
proof fn lemma_order_is_of_values(x: Float64, y: Float64)
    requires
        x.finite() && y.finite(),
        !x.negative() && !y.negative(),
    ensures
        x.at_most(y) ==> x.value() <= y.value(),
        x.value() < y.value() ==> x.below(y),
{
    crate::float64::lemma_step(0, 0);
    if x.magnitude() < y.magnitude() {
        crate::float64::lemma_magnitude_value_increases(x.magnitude(), y.magnitude());
    }
    if y.magnitude() < x.magnitude() {
        crate::float64::lemma_magnitude_value_increases(y.magnitude(), x.magnitude());
    }
}

/// A product of numbers that are not negative is the rounded product of their values.
proof fn lemma_product_is_rounded(x: Float64, f: Float64)
    requires
        x.finite() && f.finite(),
        !x.negative() && !f.negative(),
        x.product(f).finite(),
    ensures
        x.value() >= 0 && f.value() >= 0,
        ({
            let r = crate::float64::rounded(x.value() * f.value(), pow2(1074) as int);
            &&& crate::float64::rounds_to(x.value() * f.value(), pow2(1074) as int, r)
            &&& 0 <= r
            &&& x.product(f).value() == crate::float64::magnitude_value(r)
        }),
{
    let u = pow2(1074) as int;
    lemma_pow2_pos(1074);
    crate::float64::lemma_step(0, 0);
    if x.magnitude() > 0 {
        crate::float64::lemma_magnitude_value_increases(0, x.magnitude());
    }
    if f.magnitude() > 0 {
        crate::float64::lemma_magnitude_value_increases(0, f.magnitude());
    }
    let a = x.value() * f.value();
    assert(0 <= a) by (nonlinear_arith)
        requires
            a == x.value() * f.value(),
            0 <= x.value(),
            0 <= f.value(),
    ;
    crate::float64::lemma_rounding_exists(a, u);
}

/// Products with one number are in the order of what is multiplied.
proof fn lemma_products_in_order(x: Float64, y: Float64, f: Float64)
    requires
        x.finite() && y.finite() && f.finite(),
        !x.negative() && !y.negative() && !f.negative(),
        x.value() <= y.value(),
        x.product(f).finite() && y.product(f).finite(),
    ensures
        x.product(f).value() <= y.product(f).value(),
{
    let u = pow2(1074) as int;
    lemma_pow2_pos(1074);
    lemma_product_is_rounded(x, f);
    lemma_product_is_rounded(y, f);
    let a = x.value() * f.value();
    let b = y.value() * f.value();
    assert(0 <= a && a * u <= b * u) by (nonlinear_arith)
        requires
            a == x.value() * f.value(),
            b == y.value() * f.value(),
            0 <= x.value() <= y.value(),
            f.value() >= 0,
            u > 0,
    ;
    let r = crate::float64::rounded(a, u);
    let q = crate::float64::rounded(b, u);
    crate::float64::lemma_rounding_is_monotone(a, u, r, b, u, q);
    if r < q {
        crate::float64::lemma_magnitude_value_increases(r, q);
    }
}

/// Nine tenths of the smaller of two zooms, kept within its bounds.
proof fn lemma_least_zoom(across: Float64, down: Float64)
    requires
        beyond(across, -25) && within(across, 15) && !across.negative(),
        beyond(down, -25) && within(down, 15) && !down.negative(),
    ensures
        ({
            let part = Float64(FIT_PART);
            let asked = across.smaller(down).product(part);
            let scale = crate::viewport::limited_scale(asked);
            &&& in_range(scale)
            &&& scale.value() > 0
            &&& scale != Float64(MIN_SCALE) ==> scale.value() <= across.product(part).value()
                && scale.value() <= down.product(part).value()
            &&& scale != Float64(MIN_SCALE) && scale != Float64(MAX_SCALE) ==> scale
                == across.product(part) || scale == down.product(part)
        }),
{
    let part = Float64(FIT_PART);
    lemma_fit_part();
    let least = across.smaller(down);
    assert(least == across || least == down);
    lemma_order_is_of_values(least, across);
    lemma_order_is_of_values(least, down);
    lemma_product_bounds(across, part, -25, -1, 15, 0);
    lemma_product_bounds(down, part, -25, -1, 15, 0);
    lemma_products_in_order(least, across, part);
    lemma_products_in_order(least, down, part);
    let asked = least.product(part);
    lemma_clamped_zoom(asked);
}

proof fn lemma_clamped_zoom(asked: Float64)
    requires
        asked.finite() && !asked.negative(),
    ensures
        ({
            let scale = crate::viewport::limited_scale(asked);
            &&& in_range(scale)
            &&& scale.value() > 0
            &&& scale != Float64(MIN_SCALE) ==> scale.value() <= asked.value()
            &&& scale != Float64(MIN_SCALE) && scale != Float64(MAX_SCALE) ==> scale == asked
        }),
{
    lemma_limits(asked);
    lemma_order_is_of_values(Float64(MAX_SCALE), asked);
    lemma_positive_value(crate::viewport::limited_scale(asked));
}

/// Fitting a page of moderate size into a window shows the middle of the page in the middle of
/// the window. The page takes at most nine tenths of the window across and down, unless the zoom
/// is the least one, and it takes just that across or down, unless the zoom is at a bound.
#[verifier::rlimit(40)]
pub proof fn lemma_fitted_page_fits(
    v: Viewport,
    anchor: Point,
    window_px: Size,
    page: Page,
    dpi_scale: Float64,
    px: Point,
    pt: Point,
)
    requires
        moderate_side(window_px.width) && moderate_side(window_px.height),
        moderate_side(page.size.width) && moderate_side(page.size.height),
        moderate_density(dpi_scale),
        is_middle(px, window_px),
        is_middle(pt, page.size),
    ensures
        ({
            let after = v.acted(ViewAction::ZoomToFit, anchor, window_px, page, dpi_scale);
            let shown = after.on_page(px, dpi_scale);
            &&& in_range(after.scale)
            &&& nearly(shown.x, pt.x)
            &&& nearly(shown.y, pt.y)
            &&& after.scale != Float64(MIN_SCALE) ==> {
                &&& fits(after.scale, page.size.width, dpi_scale, window_px.width)
                &&& fits(after.scale, page.size.height, dpi_scale, window_px.height)
            }
            &&& after.scale != Float64(MIN_SCALE) && after.scale != Float64(MAX_SCALE) ==> {
                ||| fills(after.scale, page.size.width, dpi_scale, window_px.width)
                ||| fills(after.scale, page.size.height, dpi_scale, window_px.height)
            }
        }),
{
    let pixels = Float64(CSS_PER_PT).product(dpi_scale);
    let across = window_px.width.quotient(pixels).quotient(page.size.width);
    let down = window_px.height.quotient(pixels).quotient(page.size.height);
    let part = Float64(FIT_PART);
    lemma_filling_zoom(window_px.width, page.size.width, dpi_scale);
    lemma_filling_zoom(window_px.height, page.size.height, dpi_scale);
    lemma_part_fills(across, window_px.width, page.size.width, dpi_scale);
    lemma_part_fills(down, window_px.height, page.size.height, dpi_scale);
    lemma_middle_is_center(px, window_px);
    lemma_middle_is_center(pt, page.size);
    lemma_positive_value(page.size.width);
    lemma_positive_value(page.size.height);
    lemma_positive_value(dpi_scale);
    lemma_least_zoom(across, down);
    let after = v.acted(ViewAction::ZoomToFit, anchor, window_px, page, dpi_scale);
    assert(after == v.fitted(window_px, page.size, dpi_scale));
    assert(after.scale == Viewport::fitting_scale(window_px, page.size, dpi_scale));
    if after.scale != Float64(MIN_SCALE) {
        lemma_smaller_fits(
            after.scale,
            across.product(part),
            window_px.width,
            page.size.width,
            dpi_scale,
        );
        lemma_smaller_fits(
            after.scale,
            down.product(part),
            window_px.height,
            page.size.height,
            dpi_scale,
        );
    }
    lemma_quotient_within(window_px.width, Float64(crate::viewport::TWO), 14, 1);
    lemma_quotient_within(window_px.height, Float64(crate::viewport::TWO), 14, 1);
    lemma_quotient_within(page.size.width, Float64(crate::viewport::TWO), 14, 1);
    lemma_quotient_within(page.size.height, Float64(crate::viewport::TWO), 14, 1);
    crate::viewport_laws::lemma_anchored_point_stays(pt, px, after.scale, dpi_scale);
}

/// A page without a positive size leaves the view as it is.
pub proof fn lemma_no_page_is_not_fitted(
    v: Viewport,
    anchor: Point,
    window_px: Size,
    page: Page,
    dpi_scale: Float64,
)
    requires
        page.size.width.at_most(Float64(0)) || page.size.height.at_most(Float64(0)),
    ensures
        v.acted(ViewAction::ZoomToFit, anchor, window_px, page, dpi_scale) == v,
{
}

/// A line of the wheel pans 20 pixels, up to rounding; what is reported in pixels pans as many.
pub proof fn lemma_wheel_pans_by_lines_or_pixels(delta: WheelDelta)
    ensures
        match delta {
            WheelDelta::Lines { x, y } => {
                &&& twenty_times(delta.pixels().x, Float64::widened(x))
                &&& twenty_times(delta.pixels().y, Float64::widened(y))
            },
            WheelDelta::Pixels { x, y } => delta.pixels().x == x && delta.pixels().y == y,
        },
{
    if let WheelDelta::Lines { x, y } = delta {
        lemma_twenty_times(Float64::widened(x));
        lemma_twenty_times(Float64::widened(y));
    }
}

/// `p` is twenty times `x`, up to one part in `2^52` and one unit.
pub open spec fn twenty_times(p: Float64, x: Float64) -> bool {
    x.finite() && p.finite() ==> precision() * distance(p.value(), 20 * x.value()) <= 20 * size(
        x.value(),
    ) + precision()
}

proof fn lemma_twenty_times(x: Float64)
    ensures
        twenty_times(x.product(Float64(crate::viewport::PIXELS_PER_LINE)), x),
{
    let twenty = Float64(crate::viewport::PIXELS_PER_LINE);
    let n: int = 0x14_0000_0000_0000;
    lemma_constant(crate::viewport::PIXELS_PER_LINE, 1026, n);
    lemma2_to64();
    let q = pow2(1026) as int;
    let u = pow2(1074) as int;
    lemma2_to64_rest();
    let t = twenty.value();
    assert(t == 20 * u) by (nonlinear_arith)
        requires
            t == n * q,
            n == 0x14_0000_0000_0000,
            u == q * pow2(48),
            pow2(48) == 0x1_0000_0000_0000,
    ;
    lemma_pow2_pos(1074);
    if x.finite() && x.product(twenty).finite() {
        crate::float64::error::lemma_product_near(x, twenty);
        let p = x.product(twenty).value();
        let v = x.value();
        let e = precision();
        let d = p - 20 * v;
        let sv = size(v);
        assert(p * u - v * t == d * u && v * t == (20 * v) * u && size(v * t) == (20 * sv) * u)
            by {
            assert(p * u - v * t == d * u && v * t == (20 * v) * u) by (nonlinear_arith)
                requires
                    t == 20 * u,
                    d == p - 20 * v,
            ;
            crate::viewport_laws::lemma_size_of_product(20 * v, u);
        }
        crate::viewport_laws::lemma_size_of_product(d, u);
        let sd = size(d);
        assert(e * (sd * u) <= (20 * sv) * u + e * u);
        assert(e * sd <= 20 * sv + e) by (nonlinear_arith)
            requires
                e * (sd * u) <= (20 * sv) * u + e * u,
                u > 0,
        ;
    }
}

} // verus!
