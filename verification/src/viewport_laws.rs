//! Laws of the view. Coordinates are rounded, so what holds exactly of real numbers holds
//! here up to the rounding of the few operations involved; values are in units of `2^-1074`.

use crate::float64::bounds::{
    beyond, lemma_difference_within, lemma_power_has_magnitude, lemma_product_beyond,
    lemma_product_bounds, lemma_product_within, lemma_quotient_beyond, lemma_quotient_within,
    lemma_sum_within, lemma_within, power, power_magnitude, within,
};
use crate::float64::error::{distance, precision, size};
use crate::float64::ratio::{
    alike, lemma_alike_in_turn, lemma_alike_is_near, lemma_multiples_are_alike,
    lemma_parts_are_alike, lemma_product_is_alike, lemma_quotient_is_alike,
};
use crate::float64::Float64;
use crate::geometry::{Point, Size};
use crate::viewport::{Viewport, UNIT};
use vstd::arithmetic::power2::*;
use vstd::prelude::*;

verus! {

/// A finite point.
pub open spec fn is_finite(p: Point) -> bool {
    p.x.finite() && p.y.finite()
}

/// `2^50`: the laws of zooming hold up to one part in this many.
pub open spec fn drift() -> int {
    0x4_0000_0000_0000
}

/// `back` lies off `there` by at most one part in `2^50` of the translation `t` and the position
/// `q` in points together.
pub open spec fn stays(back: Float64, there: Float64, t: Float64, q: Float64) -> bool {
    drift() * distance(back.value(), there.value()) <= size(t.value()) + size(q.value())
}

/// The terms of a finite sum are finite.
proof fn lemma_terms_are_finite(x: Float64, y: Float64)
    ensures
        x.sum(y).finite() ==> x.finite() && y.finite(),
        x.difference(y).finite() ==> x.finite() && y.finite(),
{
}

proof fn lemma_stays(there: Float64, q: Float64)
    requires
        there.difference(q).finite(),
        q.sum(there.difference(q)).finite(),
    ensures
        stays(q.sum(there.difference(q)), there, there.difference(q), q),
{
    let t = there.difference(q);
    lemma_terms_are_finite(there, q);
    crate::float64::error::lemma_difference_error(there, q);
    crate::float64::error::lemma_sum_error(q, t);
    lemma_stays_arithmetic(there.value(), q.value(), t.value(), q.sum(t).value());
}

proof fn lemma_stays_arithmetic(w: int, q: int, t: int, back: int)
    requires
        precision() * distance(t, w - q) <= size(w - q),
        precision() * distance(back, q + t) <= size(q + t),
    ensures
        drift() * distance(back, w) <= size(t) + size(q),
{
    let a = distance(t, w - q);
    let b = distance(back, q + t);
    assert(distance(back, w) <= a + b);
    assert(size(w - q) <= size(t) + a);
    assert(size(q + t) <= size(q) + size(t));
}

/// A view that was made to show a point of the page at a position on the screen shows it there,
/// up to one part in `2^50` of its translation and the position in points, wherever nothing
/// overflows. Zooming around the cursor and fitting a page make such views.
pub proof fn lemma_anchored_point_is_found_again(
    pt: Point,
    px: Point,
    scale: Float64,
    dpi_scale: Float64,
)
    requires
        ({
            let v = Viewport::anchored(pt, px, scale, dpi_scale);
            is_finite(v.translate_pt) && is_finite(v.on_page(px, dpi_scale))
        }),
    ensures
        ({
            let k = Viewport::density(scale, dpi_scale);
            let v = Viewport::anchored(pt, px, scale, dpi_scale);
            let shown = v.on_page(px, dpi_scale);
            &&& stays(shown.x, pt.x, v.translate_pt.x, px.x.quotient(k))
            &&& stays(shown.y, pt.y, v.translate_pt.y, px.y.quotient(k))
        }),
{
    let k = Viewport::density(scale, dpi_scale);
    lemma_stays(pt.x, px.x.quotient(k));
    lemma_stays(pt.y, px.y.quotient(k));
}

/// Zooming keeps the point of the page under the cursor there, up to one part in `2^50` of the
/// translation and the position in points after it, wherever nothing overflows, also where the
/// zoom runs into its bounds; and it keeps the zoom within them.
pub proof fn lemma_cursor_stays_on_its_point(
    v: Viewport,
    px: Point,
    factor: Float64,
    dpi_scale: Float64,
)
    requires
        ({
            let zoomed = v.zoomed(px, factor, dpi_scale);
            is_finite(zoomed.translate_pt) && is_finite(zoomed.on_page(px, dpi_scale))
        }),
    ensures
        ({
            let zoomed = v.zoomed(px, factor, dpi_scale);
            let before = v.on_page(px, dpi_scale);
            let after = zoomed.on_page(px, dpi_scale);
            let l = Viewport::density(zoomed.scale, dpi_scale);
            &&& in_range(v.scale) && factor.finite() ==> in_range(zoomed.scale)
            &&& stays(after.x, before.x, zoomed.translate_pt.x, px.x.quotient(l))
            &&& stays(after.y, before.y, zoomed.translate_pt.y, px.y.quotient(l))
        }),
{
    if in_range(v.scale) && factor.finite() {
        lemma_zoom_stays_in_range(v.scale, factor);
    }
    lemma_anchored_point_is_found_again(
        v.on_page(px, dpi_scale),
        px,
        v.zoomed(px, factor, dpi_scale).scale,
        dpi_scale,
    );
}

/// Zooming keeps the point of the page under the cursor: it is the view that shows, at the
/// cursor, the point which was there before.
pub proof fn lemma_zoom_is_anchored_at_cursor(
    v: Viewport,
    px: Point,
    factor: Float64,
    dpi_scale: Float64,
)
    ensures
        v.zoomed(px, factor, dpi_scale) == Viewport::anchored(
            v.on_page(px, dpi_scale),
            px,
            v.zoomed(px, factor, dpi_scale).scale,
            dpi_scale,
        ),
{
}

/// Fitting a page of positive size shows the center of the page at the center of the window.
pub proof fn lemma_fit_is_anchored_at_center(
    v: Viewport,
    window_px: Size,
    page_pt: Size,
    dpi_scale: Float64,
)
    requires
        Float64(0).below(page_pt.width),
        Float64(0).below(page_pt.height),
    ensures
        v.fitted(window_px, page_pt, dpi_scale) == Viewport::anchored(
            crate::viewport::center_of(page_pt),
            crate::viewport::center_of(window_px),
            v.fitted(window_px, page_pt, dpi_scale).scale,
            dpi_scale,
        ),
{
}

pub(crate) proof fn lemma_size_of_product(a: int, b: int)
    ensures
        size(a * b) == size(a)
            * size(b),
{
    let x = size(a);
    let y = size(b);
    assert(a * b == x * y || a * b == -(x * y)) by (nonlinear_arith)
        requires
            a == x || a == -x,
            b == y || b == -y,
    ;
    assert(x * y >= 0) by (nonlinear_arith)
        requires
            x >= 0,
            y >= 0,
    ;
}

/// A number that keeps a full significand when it is multiplied by another and divided by it
/// again, or that is zero.
pub open spec fn survives_scaling(d: Float64, k: Float64) -> bool {
    ||| d.zero()
    ||| d.product(k).normal() && d.product(k).quotient(k).normal()
}

proof fn lemma_zero_is_kept(d: Float64, k: Float64)
    requires
        d.zero(),
        k.finite(),
        !k.zero(),
    ensures
        d.value() == 0,
        d.product(k).zero(),
        d.product(k).quotient(k).zero(),
        d.product(k).quotient(k).value() == 0,
{
    let u = pow2(1074) as int;
    lemma_pow2_pos(1074);
    let b = crate::float64::magnitude_value(k.magnitude());
    crate::float64::lemma_magnitude_value_increases(0, k.magnitude());
    assert(crate::float64::magnitude_value(0) == 0);
    crate::float64::lemma_exact_value_rounds_to_itself(0, u);
    crate::float64::lemma_exact_value_rounds_to_itself(0, b);
    assert(0 * b == 0 && 0 * u == 0);
}

/// Multiplying by a number and dividing by it again changes a number by at most two parts in
/// `2^52` and a little.
proof fn lemma_scaled_and_back(d: Float64, k: Float64)
    requires
        d.finite(),
        k.finite(),
        !k.zero(),
        survives_scaling(d, k),
    ensures
        ({
            let e = precision();
            let q = d.product(k).quotient(k);
            e * (e * distance(q.value(), d.value())) <= (2 * e + 1)
                * size(d.value())
        }),
{
    if d.zero() {
        lemma_zero_is_kept(d, k);
    } else {
        lemma_full_number_scaled_and_back(d, k);
    }
}

proof fn lemma_full_number_scaled_and_back(d: Float64, k: Float64)
    requires
        d.finite(),
        k.finite(),
        !k.zero(),
        d.product(k).normal(),
        d.product(k).quotient(k).normal(),
    ensures
        ({
            let e = precision();
            let q = d.product(k).quotient(k);
            e * (e * distance(q.value(), d.value())) <= (2 * e + 1)
                * size(d.value())
        }),
{
    let e = precision();
    let s = d.product(k);
    let q = s.quotient(k);
    let u = pow2(1074) as int;
    let kv = k.value();
    let dk = d.value() * kv;
    let su = s.value() * u;
    let qk = q.value() * kv;
    crate::float64::error::lemma_product_error(d, k);
    crate::float64::error::lemma_quotient_error(s, k);
    let a = distance(su, dk);
    let b = distance(qk, su);
    let c = distance(qk, dk);
    let m = size(dk);
    let n = size(su);
    assert(c <= a + b);
    assert(n <= m + a);
    assert(e * (e * c) <= (2 * e + 1) * m) by (nonlinear_arith)
        requires
            e > 0,
            0 <= c <= a + b,
            n <= m + a,
            e * a <= m,
            e * b <= n,
            0 <= a,
            0 <= b,
            0 <= m,
    ;
    // Divide by the size of k.
    let x = distance(q.value(), d.value());
    let y = size(d.value());
    let z = size(kv);
    lemma_size_of_product(q.value() - d.value(), kv);
    lemma_size_of_product(d.value(), kv);
    assert((q.value() - d.value()) * kv == qk - dk) by (nonlinear_arith)
        requires
            qk == q.value() * kv,
            dk == d.value() * kv,
    ;
    assert(c == x * z);
    assert(m == y * z);
    assert(z > 0) by {
        lemma_nonzero_value(k);
    }
    assert(e * (e * x) <= (2 * e + 1) * y) by (nonlinear_arith)
        requires
            e * (e * (x * z)) <= (2 * e + 1) * (y * z),
            z > 0,
    ;
}

proof fn lemma_nonzero_value(k: Float64)
    requires
        !k.zero(),
    ensures
        size(k.value()) > 0,
{
    crate::float64::lemma_magnitude_value_increases(0, k.magnitude());
    assert(crate::float64::magnitude_value(0) == 0);
}

/// How far `back` may lie from `there`, where it was found as `((there - t) k) / k + t` with
/// every operation rounded: by a part in `2^52` of the first and the last exact result and two
/// parts, and a little, of the middle one.
pub open spec fn mapped_back(back: Float64, there: Float64, t: Float64, k: Float64) -> bool {
    let e = precision();
    let d = there.difference(t);
    let q = d.product(k).quotient(k);
    e * (e * distance(back.value(), there.value())) <= e
        * size(q.value() + t.value()) + (2 * e + 1)
        * size(d.value()) + e * size(
        there.value() - t.value(),
    )
}

proof fn lemma_mapped_back(there: Float64, t: Float64, k: Float64)
    requires
        there.finite(),
        t.finite(),
        k.finite(),
        !k.zero(),
        there.difference(t).finite(),
        survives_scaling(there.difference(t), k),
        there.difference(t).product(k).quotient(k).sum(t).finite(),
    ensures
        mapped_back(there.difference(t).product(k).quotient(k).sum(t), there, t, k),
{
    let e = precision();
    let d = there.difference(t);
    let q = d.product(k).quotient(k);
    let r = q.sum(t);
    crate::float64::error::lemma_difference_error(there, t);
    lemma_scaled_and_back(d, k);
    assert(q.finite()) by {
        if d.zero() {
            lemma_zero_is_kept(d, k);
        }
    }
    crate::float64::error::lemma_sum_error(q, t);
    let a = distance(r.value(), q.value() + t.value());
    let b = distance(q.value(), d.value());
    let c = distance(d.value(), there.value() - t.value());
    let all = distance(r.value(), there.value());
    let x = size(q.value() + t.value());
    let y = size(d.value());
    let z = size(there.value() - t.value());
    assert(all <= a + b + c);
    assert(e * (e * all) <= e * x + (2 * e + 1) * y + e * z) by (nonlinear_arith)
        requires
            e > 0,
            all <= a + b + c,
            e * a <= x,
            e * (e * b) <= (2 * e + 1) * y,
            e * c <= z,
    ;
}

/// Mapping a point of the page to the screen and back finds it again, up to the rounding of
/// the four operations in each coordinate, as long as nothing in between overflows or is too
/// small for a full significand.
pub proof fn lemma_screen_to_world_undoes_world_to_screen(
    v: Viewport,
    pt: Point,
    dpi_scale: Float64,
)
    requires
        ({
            let k = Viewport::density(v.scale, dpi_scale);
            let back = v.on_page(v.on_screen(pt, dpi_scale), dpi_scale);
            &&& k.finite() && !k.zero()
            &&& pt.x.finite() && pt.y.finite()
            &&& v.translate_pt.x.finite() && v.translate_pt.y.finite()
            &&& pt.x.difference(v.translate_pt.x).finite()
            &&& pt.y.difference(v.translate_pt.y).finite()
            &&& survives_scaling(pt.x.difference(v.translate_pt.x), k)
            &&& survives_scaling(pt.y.difference(v.translate_pt.y), k)
            &&& back.x.finite() && back.y.finite()
        }),
    ensures
        ({
            let k = Viewport::density(v.scale, dpi_scale);
            let back = v.on_page(v.on_screen(pt, dpi_scale), dpi_scale);
            &&& mapped_back(back.x, pt.x, v.translate_pt.x, k)
            &&& mapped_back(back.y, pt.y, v.translate_pt.y, k)
        }),
{
    let k = Viewport::density(v.scale, dpi_scale);
    lemma_mapped_back(pt.x, v.translate_pt.x, k);
    lemma_mapped_back(pt.y, v.translate_pt.y, k);
}

/// A zoom within its bounds.
pub open spec fn in_range(scale: Float64) -> bool {
    &&& Float64(crate::viewport::MIN_SCALE).at_most(scale)
    &&& scale.at_most(Float64(crate::viewport::MAX_SCALE))
}

/// A pixel density between a half and 1024.
pub open spec fn moderate_density(dpi_scale: Float64) -> bool {
    &&& !dpi_scale.negative()
    &&& beyond(dpi_scale, -1)
    &&& within(dpi_scale, 10)
}

/// A position within `2^14` pixels of the corner of the window.
pub open spec fn on_a_screen(px: Point) -> bool {
    within(px.x, 14) && within(px.y, 14)
}

/// A point within `2^60` points of the corner of the page.
pub open spec fn on_a_page(pt: Point) -> bool {
    within(pt.x, 60) && within(pt.y, 60)
}

/// Two numbers are equal up to `10^-9`, taken of the second where it is above 1 in size.
pub open spec fn nearly(a: Float64, b: Float64) -> bool {
    &&& a.finite() && b.finite()
    &&& 1_000_000_000 * distance(a.value(), b.value()) <= size(b.value()) || 1_000_000_000
        * distance(a.value(), b.value()) <= power(0)
}

pub(crate) proof fn lemma_density_is_moderate(scale: Float64, dpi_scale: Float64)
    requires
        in_range(scale),
        moderate_density(dpi_scale),
    ensures
        beyond(Viewport::density(scale, dpi_scale), -8),
        within(Viewport::density(scale, dpi_scale), 19),
        !Viewport::density(scale, dpi_scale).negative(),
{
    let css = Float64(crate::viewport::CSS_PER_PT);
    assert(!scale.negative() && beyond(scale, -7) && within(scale, 8));
    assert(!css.negative() && beyond(css, 0) && within(css, 1));
    lemma_product_bounds(scale, css, -7, 0, 8, 1);
    lemma_product_bounds(scale.product(css), dpi_scale, -7, -1, 9, 10);
}

pub(crate) proof fn lemma_zoom_stays_in_range(scale: Float64, factor: Float64)
    requires
        in_range(scale),
        factor.finite(),
    ensures
        in_range(crate::viewport::limited_scale(scale.product(factor))),
{
    let p = crate::float64::magnitude_value(scale.magnitude());
    let f = crate::float64::magnitude_value(factor.magnitude());
    crate::float64::lemma_magnitude_value_increases(0, scale.magnitude());
    assert(crate::float64::magnitude_value(0) == 0);
    if factor.magnitude() > 0 {
        crate::float64::lemma_magnitude_value_increases(0, factor.magnitude());
    }
    assert(p * f >= 0) by (nonlinear_arith)
        requires
            p >= 0,
            f >= 0,
    ;
    lemma_pow2_pos(1074);
    crate::float64::lemma_rounding_exists(p * f, pow2(1074) as int);
}

/// The numbers behind the anchor: `w` is the point, `q` the position in points, `t` the
/// translation and `back` the point found again.
proof fn lemma_anchor_arithmetic(w: int, q: int, t: int, back: int, one: int)
    requires
        size(q) <= 0x40_0000 * one,
        precision() * distance(t, w - q) <= size(w - q),
        precision() * distance(back, q + t) <= size(q + t),
    ensures
        1_000_000_000 * distance(back, w) <= size(w) || 1_000_000_000 * distance(back, w) <= one,
{
}

/// One coordinate of a point that a view is anchored at is found again.
proof fn lemma_anchor_holds(w: Float64, p: Float64, k: Float64)
    requires
        within(w, 61),
        within(p, 14),
        beyond(k, -8),
    ensures
        ({
            let q = p.quotient(k);
            &&& within(w.difference(q), 62)
            &&& nearly(q.sum(w.difference(q)), w)
        }),
{
    let q = p.quotient(k);
    let t = w.difference(q);
    lemma_quotient_within(p, k, 14, -8);
    lemma_difference_within(w, q, 61);
    lemma_sum_within(q, t, 62);
    crate::float64::error::lemma_difference_error(w, q);
    crate::float64::error::lemma_sum_error(q, t);
    lemma_within(q, 22);
    lemma_pow2_adds(1074, 22);
    lemma2_to64();
    lemma_anchor_arithmetic(w.value(), q.value(), t.value(), q.sum(t).value(), power(0));
}

/// A view that was made to show a point of the page at a position on the screen shows it there,
/// up to `10^-9`, for every point and position that a screen and a page can have.
pub proof fn lemma_anchored_point_stays(
    pt: Point,
    px: Point,
    scale: Float64,
    dpi_scale: Float64,
)
    requires
        on_a_page(pt),
        on_a_screen(px),
        in_range(scale),
        moderate_density(dpi_scale),
    ensures
        ({
            let shown = Viewport::anchored(pt, px, scale, dpi_scale).on_page(px, dpi_scale);
            nearly(shown.x, pt.x) && nearly(shown.y, pt.y)
        }),
{
    lemma_density_is_moderate(scale, dpi_scale);
    let k = Viewport::density(scale, dpi_scale);
    lemma_anchor_holds(pt.x, px.x, k);
    lemma_anchor_holds(pt.y, px.y, k);
}

/// For every position on a screen nothing overflows, and zooming keeps the point of the page
/// under the cursor there up to `10^-9`.
pub proof fn lemma_cursor_stays_on_a_screen(
    v: Viewport,
    px: Point,
    factor: Float64,
    dpi_scale: Float64,
)
    requires
        in_range(v.scale),
        on_a_page(v.translate_pt),
        on_a_screen(px),
        factor.finite(),
        moderate_density(dpi_scale),
    ensures
        ({
            let zoomed = v.zoomed(px, factor, dpi_scale);
            let before = v.on_page(px, dpi_scale);
            let after = zoomed.on_page(px, dpi_scale);
            &&& in_range(zoomed.scale)
            &&& nearly(after.x, before.x)
            &&& nearly(after.y, before.y)
        }),
{
    let zoomed = v.zoomed(px, factor, dpi_scale);
    lemma_zoom_stays_in_range(v.scale, factor);
    lemma_density_is_moderate(v.scale, dpi_scale);
    lemma_density_is_moderate(zoomed.scale, dpi_scale);
    let k = Viewport::density(v.scale, dpi_scale);
    let l = Viewport::density(zoomed.scale, dpi_scale);
    lemma_quotient_within(px.x, k, 14, -8);
    lemma_quotient_within(px.y, k, 14, -8);
    lemma_sum_within(px.x.quotient(k), v.translate_pt.x, 60);
    lemma_sum_within(px.y.quotient(k), v.translate_pt.y, 60);
    lemma_anchor_holds(v.on_page(px, dpi_scale).x, px.x, l);
    lemma_anchor_holds(v.on_page(px, dpi_scale).y, px.y, l);
}

/// A zoom by a factor and by its reciprocal is alike the zoom before.
pub(crate) proof fn lemma_reciprocal_zoom(scale: Float64, factor: Float64)
    requires
        in_range(scale),
        !factor.negative(),
        beyond(factor, -20),
        within(factor, 20),
        in_range(scale.product(factor)),
        in_range(scale.product(factor).product(Float64(UNIT).quotient(factor))),
    ensures
        alike(
            scale.product(factor).product(Float64(UNIT).quotient(factor)).value(),
            scale.value(),
            8,
        ),
{
    let one = Float64(UNIT);
    let back = one.quotient(factor);
    let near = scale.product(factor);
    let after = near.product(back);
    let u = pow2(1074) as int;
    lemma_pow2_pos(1074);
    lemma_power_has_magnitude(0);
    assert(one.value() == u);
    lemma_positive_value(scale);
    lemma_positive_value(factor);
    lemma_positive_value(near);
    lemma_quotient_within(one, factor, 0, -20);
    lemma_quotient_beyond(one, factor, 0, 20);
    lemma_positive_value(back);
    let s = scale.value();
    let f = factor.value();
    let n = near.value();
    let b = back.value();
    let a = after.value();
    lemma_product_is_alike(scale, factor);
    lemma_quotient_is_alike(one, factor);
    lemma_product_is_alike(near, back);
    // n u ~ s f, b f ~ u u and a u ~ n b.
    lemma_multiples_are_alike(b * f, u * u, n, 2);
    lemma_multiples_are_alike(n * u, s * f, u, 2);
    assert((b * f) * n == (n * b) * f) by (nonlinear_arith);
    assert((u * u) * n == (n * u) * u) by (nonlinear_arith);
    assert((s * f) * u == (s * u) * f) by (nonlinear_arith);
    lemma_alike_in_turn((n * b) * f, (n * u) * u, (s * u) * f, 2, 2);
    lemma_parts_are_alike(n * b, s * u, f, 5);
    lemma_alike_in_turn(a * u, n * b, s * u, 2, 5);
    lemma_parts_are_alike(a, s, u, 8);
}

pub(crate) proof fn lemma_positive_value(x: Float64)
    requires
        !x.negative(),
        !x.zero(),
    ensures
        x.value() > 0,
{
    crate::float64::lemma_magnitude_value_increases(0, x.magnitude());
    assert(crate::float64::magnitude_value(0) == 0);
}

/// Products of numbers that are alike with one number are alike.
proof fn lemma_products_are_alike(x: Float64, y: Float64, k: Float64, n: int)
    requires
        x.finite() && y.finite() && k.finite(),
        !x.negative() && !y.negative() && !k.negative(),
        k.value() > 0,
        x.product(k).normal() && y.product(k).normal(),
        0 <= n <= 100,
        alike(x.value(), y.value(), n),
    ensures
        alike(x.product(k).value(), y.product(k).value(), n + 6),
{
    let u = pow2(1074) as int;
    lemma_pow2_pos(1074);
    let a = x.product(k).value();
    let b = y.product(k).value();
    lemma_product_is_alike(x, k);
    lemma_product_is_alike(y, k);
    lemma_multiples_are_alike(x.value(), y.value(), k.value(), n);
    lemma_alike_in_turn(a * u, x.value() * k.value(), y.value() * k.value(), 2, n);
    lemma_alike_in_turn(a * u, y.value() * k.value(), b * u, n + 3, 2);
    lemma_parts_are_alike(a, b, u, n + 6);
}

proof fn lemma_densities_are_alike(x: Float64, y: Float64, dpi_scale: Float64)
    requires
        in_range(x) && in_range(y),
        !dpi_scale.negative(),
        Viewport::density(x, dpi_scale).normal(),
        Viewport::density(y, dpi_scale).normal(),
        alike(x.value(), y.value(), 8),
    ensures
        alike(
            Viewport::density(x, dpi_scale).value(),
            Viewport::density(y, dpi_scale).value(),
            20,
        ),
        !Viewport::density(x, dpi_scale).negative(),
        !Viewport::density(y, dpi_scale).negative(),
{
    let css = Float64(crate::viewport::CSS_PER_PT);
    assert(!x.negative() && beyond(x, -7) && within(x, 8));
    assert(!y.negative() && beyond(y, -7) && within(y, 8));
    assert(!css.negative() && beyond(css, 0) && within(css, 1));
    lemma_product_bounds(x, css, -7, 0, 8, 1);
    lemma_product_bounds(y, css, -7, 0, 8, 1);
    lemma_factor_of_normal(x.product(css), dpi_scale);
    lemma_factor_of_normal(y.product(css), dpi_scale);
    lemma_positive_value(css);
    lemma_positive_value(dpi_scale);
    lemma_products_are_alike(x, y, css, 8);
    lemma_products_are_alike(x.product(css), y.product(css), dpi_scale, 14);
}

/// A product with a full significand has factors that are not zero.
proof fn lemma_factor_of_normal(x: Float64, y: Float64)
    requires
        x.finite(),
        !x.negative() && !y.negative(),
        x.product(y).normal(),
    ensures
        y.finite() && !y.zero(),
        !x.product(y).negative(),
{
    let a = crate::float64::magnitude_value(x.magnitude())
        * crate::float64::magnitude_value(y.magnitude());
    lemma_sizes_are_not_negative(x, y);
    let u = pow2(1074) as int;
    lemma_pow2_pos(1074);
    crate::float64::lemma_rounding_exists(a, u);
    if y.zero() {
        assert(crate::float64::magnitude_value(0) == 0);
        assert(a == 0) by (nonlinear_arith)
            requires
                a == crate::float64::magnitude_value(x.magnitude())
                    * crate::float64::magnitude_value(y.magnitude()),
                crate::float64::magnitude_value(y.magnitude()) == 0,
        ;
        crate::float64::lemma_exact_value_rounds_to_itself(0, u);
        assert(0 * u == 0);
    }
}

/// A position counted in points at densities that are alike: by 26 parts in `2^52` of it, and
/// a little where it is very small.
proof fn lemma_positions_are_alike(p: Float64, k: Float64, l: Float64)
    requires
        within(p, 14),
        beyond(k, -8) && within(k, 19) && !k.negative(),
        beyond(l, -8) && within(l, 19) && !l.negative(),
        alike(l.value(), k.value(), 20),
    ensures
        precision() * distance(p.quotient(l).value(), p.quotient(k).value()) <= 26 * size(
            p.quotient(k).value(),
        ) + power(-20),
{
    let u = pow2(1074) as int;
    lemma_pow2_pos(1074);
    lemma_positive_value(k);
    lemma_positive_value(l);
    let q = p.quotient(k);
    let r = p.quotient(l);
    if within(p, -100) {
        lemma_quotient_within(p, k, -100, -8);
        lemma_quotient_within(p, l, -100, -8);
        lemma_within(q, -92);
        lemma_within(r, -92);
        lemma_pow2_adds((1074 - 92) as nat, 72);
        lemma_pow2_adds(8, 64);
        lemma2_to64();
        lemma_pow2_pos(982);
        assert(power(-20) == 0x1_00_0000_0000_0000_0000 * power(-92)) by (nonlinear_arith)
            requires
                power(-20) == power(-92) * pow2(72),
                pow2(72) == 0x1_00_0000_0000_0000_0000,
        ;
    } else {
        lemma_quotient_within(p, k, 14, -8);
        lemma_quotient_within(p, l, 14, -8);
        lemma_quotient_beyond(p, k, -100, 19);
        lemma_quotient_beyond(p, l, -100, 19);
        lemma_positive_value(p.unsigned());
        lemma_quotient_is_alike(p, k);
        lemma_quotient_is_alike(p, l);
        let a = size(q.value());
        let b = size(r.value());
        let kv = k.value();
        let lv = l.value();
        let pu = size(p.value()) * u;
        lemma_alike_in_turn(b * lv, pu, a * kv, 2, 2);
        lemma_positive_value(q.unsigned());
        lemma_multiples_are_alike(lv, kv, a, 20);
        assert(lv * a == a * lv && kv * a == a * kv) by (nonlinear_arith);
        lemma_alike_in_turn(b * lv, a * kv, a * lv, 5, 20);
        lemma_parts_are_alike(b, a, lv, 26);
        lemma_alike_is_near(b, a, 26);
        lemma_pow2_pos(1054);
        assert(distance(r.value(), q.value()) == distance(b, a));
    }
}

/// A factor between two zooms within their bounds is itself within bounds.
proof fn lemma_factor_is_moderate(scale: Float64, factor: Float64)
    requires
        in_range(scale),
        in_range(scale.product(factor)),
    ensures
        !factor.negative(),
        beyond(factor, -20),
        within(factor, 20),
{
    let p = scale.product(factor);
    assert(!scale.negative() && beyond(scale, -7) && within(scale, 8));
    assert(!p.negative() && beyond(p, -7) && within(p, 8));
    assert(factor.finite());
    if within(factor, -20) {
        lemma_product_within(scale, factor, 8, -20);
        assert(p.magnitude() <= power_magnitude(-12));
    }
    if beyond(factor, 20) && !within(factor, 20) {
        lemma_product_beyond(scale, factor, -7, 20);
        assert(p.magnitude() >= power_magnitude(13));
    }
    let a = crate::float64::magnitude_value(scale.magnitude())
        * crate::float64::magnitude_value(factor.magnitude());
    assert(a >= 0) by {
        lemma_sizes_are_not_negative(scale, factor);
    }
    lemma_pow2_pos(1074);
    crate::float64::lemma_rounding_exists(a, pow2(1074) as int);
}

proof fn lemma_sizes_are_not_negative(x: Float64, y: Float64)
    ensures
        crate::float64::magnitude_value(x.magnitude()) * crate::float64::magnitude_value(
            y.magnitude(),
        ) >= 0,
{
    assert(crate::float64::magnitude_value(0) == 0);
    if x.magnitude() > 0 {
        crate::float64::lemma_magnitude_value_increases(0, x.magnitude());
    }
    if y.magnitude() > 0 {
        crate::float64::lemma_magnitude_value_increases(0, y.magnitude());
    }
    let a = crate::float64::magnitude_value(x.magnitude());
    let b = crate::float64::magnitude_value(y.magnitude());
    assert(a * b >= 0) by (nonlinear_arith)
        requires
            a >= 0,
            b >= 0,
    ;
}

/// Quotients of one number by divisors that are alike.
proof fn lemma_quotients_are_alike(q1: int, k1: int, q2: int, k2: int, x: int)
    requires
        q1 >= 0 && q2 >= 0 && x >= 0,
        alike(k2, k1, 20),
        precision() * distance(q1 * k1, x) <= x + precision() * k1,
        precision() * distance(q2 * k2, x) <= x + precision() * k2,
    ensures
        precision() * distance(q2, q1) <= 30 * q1 + 0x40_0000_0000_0000,
{
    lemma_quotient_at_most(q1, k1, q2, k2, x);
    lemma_quotient_at_most(q2, k2, q1, k1, x);
}

proof fn lemma_quotient_at_most(q1: int, k1: int, q2: int, k2: int, x: int)
    requires
        q1 >= 0 && q2 >= 0 && x >= 0,
        0 < k1 && 0 < k2,
        precision() * k1 <= (precision() + 20) * k2,
        precision() * distance(q1 * k1, x) <= x + precision() * k1,
        precision() * distance(q2 * k2, x) <= x + precision() * k2,
    ensures
        precision() * q2 <= (precision() + 24) * q1 + 0x30_0000_0000_0000,
{
    let e = precision();
    let a = q1 * k1;
    let b = q2 * k2;
    let n = q1 + 1;
    // The first quotient bounds `x`, and `x` the second.
    let da = distance(a, x);
    let db = distance(b, x);
    assert((e - 1) * x <= e * (a + k1)) by (nonlinear_arith)
        requires
            e * da <= x + e * k1,
            da >= x - a,
            e > 1,
    ;
    assert(e * b <= (e + 1) * x + e * k2) by (nonlinear_arith)
        requires
            e * db <= x + e * k2,
            db >= b - x,
            e > 1,
    ;
    assert(a + k1 == n * k1) by (nonlinear_arith)
        requires
            a == q1 * k1,
            n == q1 + 1,
    ;
    let nk = n * k1;
    assert((e - 1) * b <= (e + 1) * nk + (e - 1) * k2) by (nonlinear_arith)
        requires
            (e - 1) * x <= e * nk,
            e * b <= (e + 1) * x + e * k2,
            e > 1,
    ;
    assert(e * nk <= (e + 20) * (n * k2)) by (nonlinear_arith)
        requires
            e * k1 <= (e + 20) * k2,
            nk == n * k1,
            n > 0,
    ;
    let nk2 = n * k2;
    assert((e * (e - 1)) * b <= ((e + 1) * (e + 20)) * nk2 + (e * (e - 1)) * k2)
        by (nonlinear_arith)
        requires
            (e - 1) * b <= (e + 1) * nk + (e - 1) * k2,
            e * nk <= (e + 20) * nk2,
            e > 1,
    ;
    let left = e * (e - 1);
    let right = (e + 1) * (e + 20);
    assert(left * q2 <= right * n + left) by (nonlinear_arith)
        requires
            left * b <= right * nk2 + left * k2,
            b == q2 * k2,
            nk2 == n * k2,
            k2 > 0,
    ;
    assert(left == 0x10_0000_0000_0000 * 0xf_ffff_ffff_ffff);
    assert(right == 0x10_0000_0000_0001 * 0x10_0000_0000_0014);
}

/// One position counted in points at densities that are alike.
proof fn lemma_positions_are_near(p: Float64, k: Float64, l: Float64)
    requires
        k.normal() && !k.negative(),
        l.normal() && !l.negative(),
        alike(l.value(), k.value(), 20),
        p.quotient(k).finite(),
        p.quotient(l).finite(),
    ensures
        precision() * distance(p.quotient(l).value(), p.quotient(k).value()) <= 30 * size(
            p.quotient(k).value(),
        ) + 0x40_0000_0000_0000,
{
    assert(p.finite());
    lemma_positive_value(k);
    lemma_positive_value(l);
    crate::float64::error::lemma_quotient_size_error(p, k);
    crate::float64::error::lemma_quotient_size_error(p, l);
    lemma_pow2_pos(1074);
    let x = size(p.value()) * pow2(1074);
    assert(x >= 0) by (nonlinear_arith)
        requires
            x == size(p.value()) * pow2(1074),
            size(p.value()) >= 0,
            pow2(1074) > 0,
    ;
    let a = size(p.quotient(k).value());
    let b = size(p.quotient(l).value());
    lemma_quotients_are_alike(a, k.value(), b, l.value(), x);
    lemma_sign_of_value(p.quotient(k));
    lemma_sign_of_value(p.quotient(l));
    assert(distance(p.quotient(l).value(), p.quotient(k).value()) == distance(b, a));
}

proof fn lemma_sign_of_value(x: Float64)
    ensures
        x.negative() ==> x.value() <= 0,
        !x.negative() ==> x.value() >= 0,
{
    assert(crate::float64::magnitude_value(0) == 0);
    if x.magnitude() > 0 {
        crate::float64::lemma_magnitude_value_increases(0, x.magnitude());
    }
}

/// How near a translation comes back: by one part in `2^46` of it and of the positions `q` and
/// `r` in points, before and in between, and by 8 units of the smallest number.
pub open spec fn comes_back(after: Float64, before: Float64, q: Float64, r: Float64) -> bool {
    0x4000_0000_0000 * distance(after.value(), before.value()) <= size(before.value()) + size(
        q.value(),
    ) + size(r.value()) + 0x2_0000_0000_0000
}

proof fn lemma_coordinate_comes_back(
    t: Float64,
    p: Float64,
    k: Float64,
    l: Float64,
    after: Float64,
)
    requires
        k.normal() && !k.negative(),
        after.normal() && !after.negative(),
        alike(after.value(), k.value(), 20),
        ({
            let w = p.quotient(k).sum(t);
            let m = w.difference(p.quotient(l));
            let x = p.quotient(l).sum(m);
            x.difference(p.quotient(after)).finite()
        }),
    ensures
        ({
            let w = p.quotient(k).sum(t);
            let m = w.difference(p.quotient(l));
            let x = p.quotient(l).sum(m);
            comes_back(x.difference(p.quotient(after)), t, p.quotient(k), p.quotient(l))
        }),
{
    let q = p.quotient(k);
    let r = p.quotient(l);
    let s = p.quotient(after);
    let w = q.sum(t);
    let m = w.difference(r);
    let x = r.sum(m);
    let y = x.difference(s);
    lemma_terms_are_finite(x, s);
    lemma_terms_are_finite(r, m);
    lemma_terms_are_finite(w, r);
    lemma_terms_are_finite(q, t);
    crate::float64::error::lemma_sum_error(q, t);
    crate::float64::error::lemma_difference_error(w, r);
    crate::float64::error::lemma_sum_error(r, m);
    crate::float64::error::lemma_difference_error(x, s);
    lemma_positions_are_near(p, k, after);
    lemma_comes_back_arithmetic(
        t.value(),
        q.value(),
        r.value(),
        s.value(),
        w.value(),
        m.value(),
        x.value(),
        y.value(),
    );
}

proof fn lemma_comes_back_arithmetic(
    t: int,
    q: int,
    r: int,
    s: int,
    w: int,
    m: int,
    x: int,
    y: int,
)
    requires
        precision() * distance(s, q) <= 30 * size(q) + 0x40_0000_0000_0000,
        precision() * distance(w, q + t) <= size(q + t),
        precision() * distance(m, w - r) <= size(w - r),
        precision() * distance(x, r + m) <= size(r + m),
        precision() * distance(y, x - s) <= size(x - s),
    ensures
        0x4000_0000_0000 * distance(y, t) <= size(t) + size(q) + size(r) + 0x2_0000_0000_0000,
{
    let a = distance(w, q + t);
    let b = distance(m, w - r);
    let c = distance(x, r + m);
    let d = distance(y, x - s);
    let e = distance(s, q);
    assert(distance(y, t) <= a + b + c + d + e);
    assert(size(q + t) <= size(q) + size(t));
    assert(size(w) <= size(q + t) + a);
    assert(size(w - r) <= size(w) + size(r));
    assert(size(r + m) <= size(w) + b);
    assert(size(x) <= size(r + m) + c);
    assert(size(x - s) <= size(x) + size(s));
    assert(size(s) <= size(q) + e);
    lemma_small_errors_add_up(a, b, c, d, e, size(t), size(q), size(r));
}

proof fn lemma_small_errors_add_up(
    a: int,
    b: int,
    c: int,
    d: int,
    e: int,
    t: int,
    q: int,
    r: int,
)
    requires
        0 <= a && 0 <= b && 0 <= c && 0 <= d && 0 <= e,
        0 <= t && 0 <= q && 0 <= r,
        0x10_0000_0000_0000 * e <= 30 * q + 0x40_0000_0000_0000,
        0x10_0000_0000_0000 * a <= q + t,
        0x10_0000_0000_0000 * b <= q + t + a + r,
        0x10_0000_0000_0000 * c <= q + t + a + b,
        0x10_0000_0000_0000 * d <= q + t + a + b + c + q + e,
    ensures
        0x4000_0000_0000 * (a + b + c + d + e) <= t + q + r + 0x2_0000_0000_0000,
{
}

/// Zooming by a factor and then by its reciprocal, both around one position, restores the view
/// where the zoom runs into its bounds neither time, nothing overflows, and the density has a
/// full significand: the zoom up to 8 parts in `2^52`, and the translation up to one part in
/// `2^46` of it and of the positions in points, and a little.
pub proof fn lemma_reciprocal_zoom_restores_the_view(
    v: Viewport,
    px: Point,
    factor: Float64,
    dpi_scale: Float64,
)
    requires
        in_range(v.scale),
        in_range(v.scale.product(factor)),
        in_range(v.scale.product(factor).product(Float64(UNIT).quotient(factor))),
        !dpi_scale.negative(),
        ({
            let near = v.zoomed(px, factor, dpi_scale);
            let after = near.zoomed(px, Float64(UNIT).quotient(factor), dpi_scale);
            &&& Viewport::density(v.scale, dpi_scale).normal()
            &&& Viewport::density(after.scale, dpi_scale).normal()
            &&& is_finite(after.translate_pt)
        }),
    ensures
        ({
            let near = v.zoomed(px, factor, dpi_scale);
            let after = near.zoomed(px, Float64(UNIT).quotient(factor), dpi_scale);
            let k = Viewport::density(v.scale, dpi_scale);
            let l = Viewport::density(near.scale, dpi_scale);
            &&& alike(after.scale.value(), v.scale.value(), 8)
            &&& comes_back(
                after.translate_pt.x,
                v.translate_pt.x,
                px.x.quotient(k),
                px.x.quotient(l),
            )
            &&& comes_back(
                after.translate_pt.y,
                v.translate_pt.y,
                px.y.quotient(k),
                px.y.quotient(l),
            )
        }),
{
    let near = v.zoomed(px, factor, dpi_scale);
    let after = near.zoomed(px, Float64(UNIT).quotient(factor), dpi_scale);
    lemma_factor_is_moderate(v.scale, factor);
    lemma_reciprocal_zoom(v.scale, factor);
    assert(near.scale == v.scale.product(factor));
    assert(after.scale == near.scale.product(Float64(UNIT).quotient(factor)));
    let k = Viewport::density(v.scale, dpi_scale);
    let l = Viewport::density(near.scale, dpi_scale);
    let m = Viewport::density(after.scale, dpi_scale);
    lemma_densities_are_alike(after.scale, v.scale, dpi_scale);
    lemma_coordinate_comes_back(v.translate_pt.x, px.x, k, l, m);
    lemma_coordinate_comes_back(v.translate_pt.y, px.y, k, l, m);
}

/// The numbers behind a zoom there and back: the position is `q` points before, `r` in between
/// and `s` after; the translation is `t` before, and `w`, `m`, `x` and `y` are the four rounded
/// results.
proof fn lemma_there_and_back_arithmetic(
    t: int,
    q: int,
    r: int,
    s: int,
    w: int,
    m: int,
    x: int,
    y: int,
    one: int,
    little: int,
)
    requires
        size(r) <= 0x40_0000 * one,
        0 <= little <= one,
        precision() * distance(s, q) <= 26 * size(q) + little,
        precision() * distance(w, q + t) <= size(q + t),
        precision() * distance(m, w - r) <= size(w - r),
        precision() * distance(x, r + m) <= size(r + m),
        precision() * distance(y, x - s) <= size(x - s),
    ensures
        1_000_000_000 * distance(y, t) <= size(t) + size(q) + one,
{
    let a = distance(w, q + t);
    let b = distance(m, w - r);
    let c = distance(x, r + m);
    let d = distance(y, x - s);
    let e = distance(s, q);
    assert(distance(y, t) <= a + b + c + d + e);
    assert(size(q + t) <= size(q) + size(t));
    assert(size(w) <= size(q + t) + a);
    assert(size(w - r) <= size(w) + size(r));
    assert(size(r + m) <= size(w) + b);
    assert(size(x) <= size(r + m) + c);
    assert(size(x - s) <= size(x) + size(s));
    assert(size(s) <= size(q) + e);
    lemma_errors_add_up(a, b, c, d, e, size(t), size(q), size(r), one, little);
}

proof fn lemma_errors_add_up(
    a: int,
    b: int,
    c: int,
    d: int,
    e: int,
    t: int,
    q: int,
    r: int,
    one: int,
    little: int,
)
    requires
        0 <= a && 0 <= b && 0 <= c && 0 <= d && 0 <= e,
        0 <= t && 0 <= q,
        0 <= r <= 0x40_0000 * one,
        0 <= little <= one,
        0x10_0000_0000_0000 * e <= 26 * q + little,
        0x10_0000_0000_0000 * a <= q + t,
        0x10_0000_0000_0000 * b <= q + t + a + r,
        0x10_0000_0000_0000 * c <= q + t + a + b,
        0x10_0000_0000_0000 * d <= q + t + a + b + c + q + e,
    ensures
        1_000_000_000 * (a + b + c + d + e) <= t + q + one,
{
}

/// How near a translation comes back: by `10^-9` of it, of the position `q` in points and of
/// one point together.
pub open spec fn restored(after: Float64, before: Float64, q: Float64) -> bool {
    &&& after.finite()
    &&& 1_000_000_000 * distance(after.value(), before.value()) <= size(before.value()) + size(
        q.value(),
    ) + power(0)
}

proof fn lemma_coordinate_is_restored(
    t: Float64,
    p: Float64,
    k: Float64,
    l: Float64,
    after: Float64,
)
    requires
        within(t, 60),
        within(p, 14),
        beyond(k, -8) && within(k, 19) && !k.negative(),
        beyond(l, -8) && within(l, 19) && !l.negative(),
        beyond(after, -8) && within(after, 19) && !after.negative(),
        alike(after.value(), k.value(), 20),
    ensures
        ({
            let w = p.quotient(k).sum(t);
            let m = w.difference(p.quotient(l));
            let x = p.quotient(l).sum(m);
            restored(x.difference(p.quotient(after)), t, p.quotient(k))
        }),
{
    let q = p.quotient(k);
    let r = p.quotient(l);
    let s = p.quotient(after);
    let w = q.sum(t);
    let m = w.difference(r);
    let x = r.sum(m);
    let y = x.difference(s);
    lemma_quotient_within(p, k, 14, -8);
    lemma_quotient_within(p, l, 14, -8);
    lemma_quotient_within(p, after, 14, -8);
    lemma_sum_within(q, t, 60);
    lemma_difference_within(w, r, 61);
    lemma_sum_within(r, m, 62);
    lemma_difference_within(x, s, 63);
    crate::float64::error::lemma_sum_error(q, t);
    crate::float64::error::lemma_difference_error(w, r);
    crate::float64::error::lemma_sum_error(r, m);
    crate::float64::error::lemma_difference_error(x, s);
    lemma_positions_are_alike(p, k, after);
    lemma_within(r, 22);
    lemma_pow2_adds(1074, 22);
    lemma2_to64();
    lemma_pow2_pos(1054);
    lemma_pow2_strictly_increases(1054, 1074);
    lemma_there_and_back_arithmetic(
        t.value(),
        q.value(),
        r.value(),
        s.value(),
        w.value(),
        m.value(),
        x.value(),
        y.value(),
        power(0),
        power(-20),
    );
}

/// Zooming by a factor and then by its reciprocal, both around one position, restores the view
/// where the zoom runs into its bounds neither time: the zoom up to 8 parts in `2^52`, and the
/// translation up to `10^-9`.
pub proof fn lemma_reciprocal_zoom_restores_on_a_screen(
    v: Viewport,
    px: Point,
    factor: Float64,
    dpi_scale: Float64,
)
    requires
        in_range(v.scale),
        on_a_page(v.translate_pt),
        on_a_screen(px),
        moderate_density(dpi_scale),
        !factor.negative(),
        beyond(factor, -20),
        within(factor, 20),
        in_range(v.scale.product(factor)),
        in_range(v.scale.product(factor).product(Float64(UNIT).quotient(factor))),
    ensures
        ({
            let near = v.zoomed(px, factor, dpi_scale);
            let after = near.zoomed(px, Float64(UNIT).quotient(factor), dpi_scale);
            let q = px.x.quotient(Viewport::density(v.scale, dpi_scale));
            let r = px.y.quotient(Viewport::density(v.scale, dpi_scale));
            &&& alike(after.scale.value(), v.scale.value(), 8)
            &&& restored(after.translate_pt.x, v.translate_pt.x, q)
            &&& restored(after.translate_pt.y, v.translate_pt.y, r)
        }),
{
    let near = v.zoomed(px, factor, dpi_scale);
    let after = near.zoomed(px, Float64(UNIT).quotient(factor), dpi_scale);
    lemma_reciprocal_zoom(v.scale, factor);
    assert(near.scale == v.scale.product(factor));
    assert(after.scale == near.scale.product(Float64(UNIT).quotient(factor)));
    let k = Viewport::density(v.scale, dpi_scale);
    let l = Viewport::density(near.scale, dpi_scale);
    let m = Viewport::density(after.scale, dpi_scale);
    lemma_density_is_moderate(v.scale, dpi_scale);
    lemma_density_is_moderate(near.scale, dpi_scale);
    lemma_density_is_moderate(after.scale, dpi_scale);
    lemma_densities_are_alike(after.scale, v.scale, dpi_scale);
    lemma_coordinate_is_restored(v.translate_pt.x, px.x, k, l, m);
    lemma_coordinate_is_restored(v.translate_pt.y, px.y, k, l, m);
}

/// The numbers behind a point that is mapped there and back: `d` is its distance from the
/// translation `t`, `q` the same after scaling, and `back` the point found again.
proof fn lemma_mapping_arithmetic(p: int, t: int, d: int, q: int, back: int, one: int)
    requires
        size(t) <= 0x4_0000 * one,
        precision() * distance(d, p - t) <= size(p - t),
        precision() * distance(q, d) <= 5 * size(d) + one,
        precision() * distance(back, q + t) <= size(q + t),
    ensures
        1_000_000_000 * distance(back, p) <= size(p) || 1_000_000_000 * distance(back, p) <= one,
{
    let a = distance(d, p - t);
    let b = distance(q, d);
    let c = distance(back, q + t);
    assert(distance(back, p) <= a + b + c);
    assert(size(p - t) <= size(p) + size(t));
    assert(size(d) <= size(p - t) + a);
    assert(size(q + t) <= size(p) + a + b);
    lemma_mapping_errors(a, b, c, size(p), size(t), one);
}

proof fn lemma_mapping_errors(a: int, b: int, c: int, p: int, t: int, one: int)
    requires
        0 <= a && 0 <= b && 0 <= c && 0 <= p,
        0 <= t <= 0x4_0000 * one,
        0x10_0000_0000_0000 * a <= p + t,
        0x10_0000_0000_0000 * b <= 5 * (p + t + a) + one,
        0x10_0000_0000_0000 * c <= p + a + b,
    ensures
        1_000_000_000 * (a + b + c) <= p || 1_000_000_000 * (a + b + c) <= one,
{
}

/// A distance that is scaled and scaled back.
proof fn lemma_distance_scaled_and_back(d: Float64, k: Float64)
    requires
        within(d, 61),
        beyond(k, -8) && within(k, 19) && !k.negative(),
    ensures
        ({
            let q = d.product(k).quotient(k);
            &&& within(q, 88)
            &&& precision() * distance(q.value(), d.value()) <= 5 * size(d.value()) + power(0)
        }),
{
    let q = d.product(k).quotient(k);
    lemma_product_within(d, k, 61, 19);
    lemma_quotient_within(d.product(k), k, 80, -8);
    lemma_pow2_pos(1074);
    if within(d, -100) {
        lemma_product_within(d, k, -100, 19);
        lemma_quotient_within(d.product(k), k, -81, -8);
        lemma_within(d, -73);
        lemma_within(q, -73);
        lemma_pow2_adds((1074 - 73) as nat, 73);
        lemma_pow2_adds(9, 64);
        lemma2_to64();
        lemma_pow2_pos(1001);
        assert(power(0) == 0x2_00_0000_0000_0000_0000 * power(-73)) by (nonlinear_arith)
            requires
                power(0) == power(-73) * pow2(73),
                pow2(73) == 0x2_00_0000_0000_0000_0000,
        ;
    } else {
        lemma_product_bounds(d, k, -100, -8, 61, 19);
        lemma_quotient_beyond(d.product(k), k, -108, 19);
        lemma_full_number_scaled_and_back(d, k);
        let e = precision();
        let x = distance(q.value(), d.value());
        let y = size(d.value());
        assert(e * (e * x) <= (2 * e + 1) * y);
        assert(e * x <= 5 * y) by (nonlinear_arith)
            requires
                e * (e * x) <= (2 * e + 1) * y,
                e >= 1,
                y >= 0,
        ;
    }
}

proof fn lemma_coordinate_is_mapped_back(p: Float64, t: Float64, k: Float64)
    requires
        within(p, 60),
        within(t, 18),
        beyond(k, -8) && within(k, 19) && !k.negative(),
    ensures
        nearly(p.difference(t).product(k).quotient(k).sum(t), p),
{
    let d = p.difference(t);
    let q = d.product(k).quotient(k);
    lemma_difference_within(p, t, 60);
    lemma_distance_scaled_and_back(d, k);
    lemma_sum_within(q, t, 88);
    crate::float64::error::lemma_difference_error(p, t);
    crate::float64::error::lemma_sum_error(q, t);
    lemma_within(t, 18);
    lemma_pow2_adds(1074, 18);
    lemma2_to64();
    lemma_mapping_arithmetic(
        p.value(),
        t.value(),
        d.value(),
        q.value(),
        q.sum(t).value(),
        power(0),
    );
}

/// Mapping a point of the page to the screen and back finds it again, up to `10^-9`, where the
/// view is moved by no more than `2^18` points.
pub proof fn lemma_mapped_point_is_found_again(v: Viewport, pt: Point, dpi_scale: Float64)
    requires
        in_range(v.scale),
        within(v.translate_pt.x, 18) && within(v.translate_pt.y, 18),
        on_a_page(pt),
        moderate_density(dpi_scale),
    ensures
        ({
            let back = v.on_page(v.on_screen(pt, dpi_scale), dpi_scale);
            nearly(back.x, pt.x) && nearly(back.y, pt.y)
        }),
{
    lemma_density_is_moderate(v.scale, dpi_scale);
    let k = Viewport::density(v.scale, dpi_scale);
    lemma_coordinate_is_mapped_back(pt.x, v.translate_pt.x, k);
    lemma_coordinate_is_mapped_back(pt.y, v.translate_pt.y, k);
}

} // verus!
