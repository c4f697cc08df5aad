//! What the brush programs do to a pixel and how wide a brush is, as formulas on the numbers
//! involved. Values are in units of `2^-149`, so that 1 is `unit()`.

use crate::brush::{BrushParams, LinearRgba, MAX_WIDTH_MAX, ONE};
use crate::brush_program::{
    covered, highlighter_result, laid_over, plain_result, strength, tinted,
};
use crate::float32::near::{
    lemma_difference_near, lemma_product_near, lemma_quotient_near, lemma_sum_near, near, unit,
};
use crate::float32::Float32;
use crate::float64::error::{distance, size};
use crate::ribbon::extent::{half_width, moderate_brush, moderate_width};
use crate::ribbon::{between, width_under};
use crate::sample::Sample;
use vstd::arithmetic::power2::*;
use vstd::prelude::*;

verus! {

/// A number from 0 to 1.
pub open spec fn fraction(x: Float32) -> bool {
    x.finite() && 0 <= x.value() <= unit()
}

/// A color with channels from 0 to 1.
pub open spec fn fractions(c: LinearRgba) -> bool {
    fraction(c.r) && fraction(c.g) && fraction(c.b) && fraction(c.a)
}

proof fn lemma_units()
    ensures
        unit() >= 0x100_0000_0000_0000,
        Float32(ONE).value() == unit(),
        Float32(ONE).finite(),
{
    lemma2_to64();
    lemma2_to64_rest();
    lemma_pow2_strictly_increases(56, 149);
    crate::float32::lemma_value_of_one();
}

/// A product of two bounded numbers is bounded.
proof fn lemma_bounded_product(a: int, b: int, m: int, n: int)
    requires
        -m <= a <= m,
        -n <= b <= n,
        m >= 0 && n >= 0,
    ensures
        -(m * n) <= a * b <= m * n,
{
    assert(-(m * n) <= a * b <= m * n) by (nonlinear_arith)
        requires
            -m <= a <= m,
            -n <= b <= n,
            m >= 0,
            n >= 0,
    ;
}

/// `z` is near the quotient of `n` by `u`: within `2^-19` of it.
pub open spec fn close(z: int, n: int, u: int) -> bool {
    0x8_0000 * distance(z * u, n) <= u * u
}

proof fn lemma_laid_over_arithmetic(c: int, b: int, t: int, d: int, x: int, y: int, z: int, u: int)
    requires
        u >= 0x100_0000_0000_0000,
        0 <= c <= u && 0 <= b <= u && 0 <= t <= u,
        near(d, u - t, 1),
        near(x * u, c * d, u),
        near(y * u, b * t, u),
        near(z, x + y, 1),
    ensures
        close(z, c * (u - t) + b * t, u),
{
    let uu = u * u;
    assert(0x100_0000_0000_0000 * u <= uu) by (nonlinear_arith)
        requires
            uu == u * u,
            u >= 0x100_0000_0000_0000,
    ;
    assert(-2 * u <= d <= 2 * u);
    let cd = c * d;
    let bt = b * t;
    let xu = x * u;
    let yu = y * u;
    let zu = z * u;
    lemma_bounded_product(c, d, u, 2 * u);
    lemma_bounded_product(b, t, u, u);
    assert(u * (2 * u) == 2 * uu) by (nonlinear_arith)
        requires
            uu == u * u,
    ;
    assert(-3 * uu <= xu <= 3 * uu && -2 * uu <= yu <= 2 * uu);
    let xy = x + y;
    assert(xy * u == xu + yu) by (nonlinear_arith)
        requires
            xy == x + y,
            xu == x * u,
            yu == y * u,
    ;
    assert(-5 * u <= xy <= 5 * u) by (nonlinear_arith)
        requires
            xy * u == xu + yu,
            -3 * uu <= xu <= 3 * uu,
            -2 * uu <= yu <= 2 * uu,
            uu == u * u,
            u > 0,
    ;
    let ez = z - xy;
    assert(0x80_0000 * size(ez) <= 5 * u + 0x80_0000);
    let ed = d - (u - t);
    assert(0x80_0000 * size(ed) <= u + 0x80_0000);
    lemma_bounded_product(c, 0x80_0000 * ed, u, u + 0x80_0000);
    assert(c * (0x80_0000 * ed) == 0x80_0000 * (c * ed)) by (nonlinear_arith);
    lemma_bounded_product(0x80_0000 * ez, u, 5 * u + 0x80_0000, u);
    assert((0x80_0000 * ez) * u == 0x80_0000 * (ez * u)) by (nonlinear_arith);
    assert(u * (u + 0x80_0000) == uu + 0x80_0000 * u && (5 * u + 0x80_0000) * u == 5 * uu
        + 0x80_0000 * u) by (nonlinear_arith)
        requires
            uu == u * u,
    ;
    let ced = c * ed;
    let ezu = ez * u;
    assert(zu == xu + yu + ezu) by (nonlinear_arith)
        requires
            ez == z - xy,
            xy * u == xu + yu,
            zu == z * u,
            ezu == ez * u,
    ;
    assert(cd == c * (u - t) + ced) by (nonlinear_arith)
        requires
            cd == c * d,
            ed == d - (u - t),
            ced == c * ed,
    ;
}

/// A channel that is laid over by `t` goes the part `t` of the way from the canvas to the brush,
/// up to `2^-19`.
pub proof fn lemma_laid_over_is_on_the_way(canvas: Float32, brush: Float32, t: Float32)
    requires
        fraction(canvas) && fraction(brush) && fraction(t),
    ensures
        laid_over(canvas, brush, t).finite(),
        close(
            laid_over(canvas, brush, t).value(),
            canvas.value() * (unit() - t.value()) + brush.value() * t.value(),
            unit(),
        ),
{
    reveal(laid_over);
    lemma_units();
    let one = Float32(ONE);
    lemma_difference_near(one, t);
    let d = one.difference(t);
    lemma_product_near(canvas, d);
    lemma_product_near(brush, t);
    let x = canvas.product(d);
    let y = brush.product(t);
    lemma_small_product(canvas, d);
    lemma_small_product(brush, t);
    lemma_sum_near(x, y);
    lemma_laid_over_arithmetic(
        canvas.value(),
        brush.value(),
        t.value(),
        d.value(),
        x.value(),
        y.value(),
        x.sum(y).value(),
        unit(),
    );
}

/// A product of numbers up to 2 is at most 5.
proof fn lemma_small_product(x: Float32, y: Float32)
    requires
        x.finite() && size(x.value()) <= 2 * unit(),
        y.finite() && size(y.value()) <= 2 * unit(),
    ensures
        x.product(y).finite(),
        size(x.product(y).value()) <= 5 * unit(),
{
    lemma_units();
    let u = unit();
    lemma_product_near(x, y);
    let p = x.product(y).value();
    let pu = p * u;
    let uu = u * u;
    lemma_bounded_product(x.value(), y.value(), 2 * u, 2 * u);
    assert((2 * u) * (2 * u) == 4 * uu && 0x100_0000_0000_0000 * u <= uu) by (nonlinear_arith)
        requires
            uu == u * u,
            u >= 0x100_0000_0000_0000,
    ;
    assert(-(5 * uu) <= pu <= 5 * uu);
    assert(-(5 * u) <= p <= 5 * u) by (nonlinear_arith)
        requires
            pu == p * u,
            -(5 * uu) <= pu <= 5 * uu,
            uu == u * u,
            u > 0,
    ;
}

proof fn lemma_tinted_arithmetic(
    c: int,
    b: int,
    t: int,
    d: int,
    q: int,
    r: int,
    z: int,
    u: int,
)
    requires
        u >= 0x100_0000_0000_0000,
        0 <= c <= u && 0 <= b <= u && 0 <= t <= u,
        near(d, u - b, 1),
        near(q * u, t * d, u),
        near(r, u - q, 1),
        near(z * u, c * r, u),
    ensures
        0x8_0000 * distance((z * u) * u, c * (u * u - t * (u - b))) <= (u * u) * u,
{
    let uu = u * u;
    assert(0x100_0000_0000_0000 * u <= uu) by (nonlinear_arith)
        requires
            uu == u * u,
            u >= 0x100_0000_0000_0000,
    ;
    let td = t * d;
    lemma_bounded_product(t, d, u, 2 * u);
    assert(u * (2 * u) == 2 * uu) by (nonlinear_arith)
        requires
            uu == u * u,
    ;
    let qu = q * u;
    assert(-3 * uu <= qu <= 3 * uu);
    assert(-3 * u <= q <= 3 * u) by (nonlinear_arith)
        requires
            qu == q * u,
            -3 * uu <= qu <= 3 * uu,
            uu == u * u,
            u > 0,
    ;
    let ed = d - (u - b);
    assert(0x80_0000 * size(ed) <= u + 0x80_0000);
    lemma_bounded_product(t, 0x80_0000 * ed, u, u + 0x80_0000);
    assert(t * (0x80_0000 * ed) == 0x80_0000 * (t * ed)) by (nonlinear_arith);
    assert(u * (u + 0x80_0000) == uu + 0x80_0000 * u) by (nonlinear_arith)
        requires
            uu == u * u,
    ;
    let ted = t * ed;
    assert(td == t * (u - b) + ted) by (nonlinear_arith)
        requires
            td == t * d,
            ed == d - (u - b),
            ted == t * ed,
    ;
    // q u = t (u - b) + eq
    let eq = qu - t * (u - b);
    assert(0x80_0000 * size(eq) <= 4 * uu);
    // r u = u u - q u + er u
    let er = r - (u - q);
    assert(0x80_0000 * size(er) <= 4 * u + 0x80_0000);
    let eru = er * u;
    lemma_bounded_product(0x80_0000 * er, u, 4 * u + 0x80_0000, u);
    assert((0x80_0000 * er) * u == 0x80_0000 * eru) by (nonlinear_arith)
        requires
            eru == er * u,
    ;
    assert((4 * u + 0x80_0000) * u == 4 * uu + 0x80_0000 * u) by (nonlinear_arith)
        requires
            uu == u * u,
    ;
    let ru = r * u;
    assert(ru == uu - qu + eru) by (nonlinear_arith)
        requires
            ru == r * u,
            er == r - (u - q),
            eru == er * u,
            qu == q * u,
            uu == u * u,
    ;
    let target = uu - t * (u - b);
    let e = ru - target;
    assert(e == eru - eq);
    assert(0x80_0000 * size(e) <= 9 * uu);
    // z u u = c r u + ez u
    let cr = c * r;
    let ez = z * u - cr;
    assert(-5 * u <= r <= 5 * u);
    lemma_bounded_product(c, r, u, 5 * u);
    assert(u * (5 * u) == 5 * uu) by (nonlinear_arith)
        requires
            uu == u * u,
    ;
    assert(0x80_0000 * size(ez) <= 6 * uu);
    let uuu = uu * u;
    lemma_bounded_product(0x80_0000 * ez, u, 6 * uu, u);
    lemma_bounded_product(c, 0x80_0000 * e, u, 9 * uu);
    assert((6 * uu) * u == 6 * uuu && u * (9 * uu) == 9 * uuu) by (nonlinear_arith)
        requires
            uuu == uu * u,
    ;
    let ezu = ez * u;
    let ce = c * e;
    assert((0x80_0000 * ez) * u == 0x80_0000 * ezu && c * (0x80_0000 * e) == 0x80_0000 * ce)
        by (nonlinear_arith)
        requires
            ezu == ez * u,
            ce == c * e,
    ;
    assert((z * u) * u == c * target + ce + ezu) by {
        assert((z * u) * u == cr * u + ezu) by (nonlinear_arith)
            requires
                ez == z * u - cr,
                ezu == ez * u,
        ;
        assert(cr * u == c * ru) by (nonlinear_arith)
            requires
                cr == c * r,
                ru == r * u,
        ;
        assert(c * ru == c * target + ce) by (nonlinear_arith)
            requires
                ru == target + e,
                ce == c * e,
        ;
    }
}

/// A channel that is tinted by `t` keeps, of its light, all but the part `t` of what the brush
/// does not let through, up to `2^-19`.
pub proof fn lemma_tint_takes_what_the_brush_lacks(canvas: Float32, brush: Float32, t: Float32)
    requires
        fraction(canvas) && fraction(brush) && fraction(t),
    ensures
        tinted(canvas, brush, t).finite(),
        ({
            let u = unit();
            let z = tinted(canvas, brush, t).value();
            0x8_0000 * distance(
                (z * u) * u,
                canvas.value() * (u * u - t.value() * (u - brush.value())),
            ) <= (u * u) * u
        }),
{
    reveal(tinted);
    lemma_units();
    let one = Float32(ONE);
    lemma_difference_near(one, brush);
    let d = one.difference(brush);
    lemma_product_near(t, d);
    lemma_small_product(t, d);
    let q = t.product(d);
    lemma_difference_near(one, q);
    let r = one.difference(q);
    lemma_product_near(canvas, r);
    lemma_tinted_arithmetic(
        canvas.value(),
        brush.value(),
        t.value(),
        d.value(),
        q.value(),
        r.value(),
        canvas.product(r).value(),
        unit(),
    );
}

proof fn lemma_covered_arithmetic(a: int, t: int, d: int, m: int, z: int, u: int)
    requires
        u >= 0x100_0000_0000_0000,
        0 <= a <= u && 0 <= t <= u,
        near(d, u - a, 1),
        near(m * u, d * t, u),
        near(z, a + m, 1),
    ensures
        close(z, a * u + (u - a) * t, u),
{
    let uu = u * u;
    assert(0x100_0000_0000_0000 * u <= uu) by (nonlinear_arith)
        requires
            uu == u * u,
            u >= 0x100_0000_0000_0000,
    ;
    let dt = d * t;
    lemma_bounded_product(d, t, 2 * u, u);
    assert((2 * u) * u == 2 * uu) by (nonlinear_arith)
        requires
            uu == u * u,
    ;
    let mu = m * u;
    assert(-3 * uu <= mu <= 3 * uu);
    assert(-3 * u <= m <= 3 * u) by (nonlinear_arith)
        requires
            mu == m * u,
            -3 * uu <= mu <= 3 * uu,
            uu == u * u,
            u > 0,
    ;
    let ed = d - (u - a);
    lemma_bounded_product(0x80_0000 * ed, t, u + 0x80_0000, u);
    let edt = ed * t;
    assert((0x80_0000 * ed) * t == 0x80_0000 * edt && (u + 0x80_0000) * u == uu + 0x80_0000 * u)
        by (nonlinear_arith)
        requires
            edt == ed * t,
            uu == u * u,
    ;
    assert(dt == (u - a) * t + edt) by (nonlinear_arith)
        requires
            dt == d * t,
            ed == d - (u - a),
            edt == ed * t,
    ;
    let ez = z - (a + m);
    lemma_bounded_product(0x80_0000 * ez, u, 4 * u + 0x80_0000, u);
    let ezu = ez * u;
    assert((0x80_0000 * ez) * u == 0x80_0000 * ezu && (4 * u + 0x80_0000) * u == 4 * uu + 0x80_0000
        * u) by (nonlinear_arith)
        requires
            ezu == ez * u,
            uu == u * u,
    ;
    assert(z * u == a * u + mu + ezu) by (nonlinear_arith)
        requires
            ez == z - (a + m),
            ezu == ez * u,
            mu == m * u,
    ;
}

/// What a stroke covers of a pixel: what was covered, and the part `t` of what was free, up to
/// `2^-19`.
pub proof fn lemma_cover_takes_of_what_is_free(alpha: Float32, t: Float32)
    requires
        fraction(alpha) && fraction(t),
    ensures
        covered(alpha, t).finite(),
        close(
            covered(alpha, t).value(),
            alpha.value() * unit() + (unit() - alpha.value()) * t.value(),
            unit(),
        ),
{
    reveal(covered);
    lemma_units();
    let one = Float32(ONE);
    lemma_difference_near(one, alpha);
    let d = one.difference(alpha);
    lemma_product_near(d, t);
    lemma_small_product(d, t);
    let m = d.product(t);
    lemma_sum_near(alpha, m);
    lemma_covered_arithmetic(
        alpha.value(),
        t.value(),
        d.value(),
        m.value(),
        alpha.sum(m).value(),
        unit(),
    );
}

/// How strongly a stroke acts is its coverage times its alpha, up to rounding, and from 0 to 1.
pub proof fn lemma_strength_is_coverage_times_alpha(alpha: Float32, coverage: Float32)
    requires
        fraction(alpha) && fraction(coverage),
    ensures
        fraction(strength(alpha, coverage)),
        close(strength(alpha, coverage).value(), coverage.value() * alpha.value(), unit()),
{
    lemma_units();
    let u = unit();
    let uu = u * u;
    let p = coverage.product(alpha);
    lemma_product_near(coverage, alpha);
    let n = coverage.value() * alpha.value();
    assert(0 <= n <= uu) by (nonlinear_arith)
        requires
            n == coverage.value() * alpha.value(),
            uu == u * u,
            0 <= coverage.value() <= u,
            0 <= alpha.value() <= u,
    ;
    assert(0x100_0000_0000_0000 * u <= uu) by (nonlinear_arith)
        requires
            uu == u * u,
            u >= 0x100_0000_0000_0000,
    ;
    lemma_clamped_to_unit(p);
    let s = strength(alpha, coverage).value();
    let pv = p.value();
    // Clamping brings the value no further from one that lies from 0 to 1.
    assert(s * u <= uu && s * u >= 0) by (nonlinear_arith)
        requires
            0 <= s <= u,
            uu == u * u,
    ;
    if pv > u {
        assert(pv * u >= u * u) by (nonlinear_arith)
            requires
                pv > u,
                u > 0,
        ;
    }
    if pv < 0 {
        assert(pv * u <= 0) by (nonlinear_arith)
            requires
                pv < 0,
                u > 0,
        ;
        assert(s == 0);
        assert(s * u == 0);
    }
}

proof fn lemma_clamped_to_unit(p: Float32)
    requires
        p.finite(),
    ensures
        ({
            let s = p.clamped(Float32(0), Float32(ONE));
            &&& fraction(s)
            &&& 0 <= p.value() <= unit() ==> s.value() == p.value()
            &&& p.value() < 0 ==> s.value() == 0
            &&& p.value() > unit() ==> s.value() == unit()
        }),
{
    lemma_units();
    let m = p.magnitude();
    let one = Float32(ONE).magnitude();
    crate::float32::lemma_step(0, 0);
    if m > 0 {
        crate::float32::lemma_magnitude_value_increases(0, m);
    }
    if m < one {
        crate::float32::lemma_magnitude_value_increases(m, one);
    }
    if m > one {
        crate::float32::lemma_magnitude_value_increases(one, m);
    }
}

/// A plain stroke takes a pixel the part of the way to the color of the brush by which it acts
/// there: its coverage times the alpha of the brush. What is covered grows by that part of what
/// was free.
pub proof fn lemma_plain_stroke_lays_its_color_over(
    canvas: LinearRgba,
    brush: LinearRgba,
    coverage: Float32,
)
    requires
        fractions(canvas) && fractions(brush) && fraction(coverage),
    ensures
        ({
            let t = strength(brush.a, coverage).value();
            let u = unit();
            let after = plain_result(canvas, brush, coverage);
            &&& close(t, coverage.value() * brush.a.value(), u)
            &&& close(
                after.r.value(),
                canvas.r.value() * (u - t) + brush.r.value() * t,
                u,
            )
            &&& close(
                after.g.value(),
                canvas.g.value() * (u - t) + brush.g.value() * t,
                u,
            )
            &&& close(
                after.b.value(),
                canvas.b.value() * (u - t) + brush.b.value() * t,
                u,
            )
            &&& close(after.a.value(), canvas.a.value() * u + (u - canvas.a.value()) * t, u)
        }),
{
    lemma_strength_is_coverage_times_alpha(brush.a, coverage);
    let t = strength(brush.a, coverage);
    lemma_laid_over_is_on_the_way(canvas.r, brush.r, t);
    lemma_laid_over_is_on_the_way(canvas.g, brush.g, t);
    lemma_laid_over_is_on_the_way(canvas.b, brush.b, t);
    lemma_cover_takes_of_what_is_free(canvas.a, t);
}

/// `z` is what is left of `c` when the part `t` of what `b` lacks is taken.
pub open spec fn takes(z: int, c: int, b: int, t: int, u: int) -> bool {
    0x8_0000 * distance((z * u) * u, c * (u * u - t * (u - b))) <= (u * u) * u
}

/// A highlighter takes from each channel the part of what its color lacks there by which it acts:
/// its coverage times its alpha. What is covered grows by that part of what was free.
pub proof fn lemma_highlighter_tints(
    canvas: LinearRgba,
    brush: LinearRgba,
    coverage: Float32,
)
    requires
        fractions(canvas) && fractions(brush) && fraction(coverage),
    ensures
        ({
            let t = strength(brush.a, coverage).value();
            let u = unit();
            let after = highlighter_result(canvas, brush, coverage);
            &&& close(t, coverage.value() * brush.a.value(), u)
            &&& takes(after.r.value(), canvas.r.value(), brush.r.value(), t, u)
            &&& takes(after.g.value(), canvas.g.value(), brush.g.value(), t, u)
            &&& takes(after.b.value(), canvas.b.value(), brush.b.value(), t, u)
            &&& close(after.a.value(), canvas.a.value() * u + (u - canvas.a.value()) * t, u)
        }),
{
    lemma_strength_is_coverage_times_alpha(brush.a, coverage);
    let t = strength(brush.a, coverage);
    lemma_tint_takes_what_the_brush_lacks(canvas.r, brush.r, t);
    lemma_tint_takes_what_the_brush_lacks(canvas.g, brush.g, t);
    lemma_tint_takes_what_the_brush_lacks(canvas.b, brush.b, t);
    lemma_cover_takes_of_what_is_free(canvas.a, t);
}

proof fn lemma_between_arithmetic(a: int, b: int, t: int, d: int, p: int, z: int, u: int)
    requires
        u >= 0x100_0000_0000_0000,
        0 <= t <= u,
        near(d, b - a, 1),
        near(p * u, d * t, u),
        near(z, a + p, 1),
    ensures
        0x8_0000 * distance(z * u, a * (u - t) + b * t) <= (size(a) + size(b) + u) * u,
{
    let k = size(a) + size(b) + u;
    let ku = k * u;
    assert(0x100_0000_0000_0000 * u <= ku) by (nonlinear_arith)
        requires
            ku == k * u,
            k >= u,
            u >= 0x100_0000_0000_0000,
    ;
    assert(-(2 * k) <= d <= 2 * k);
    let dt = d * t;
    lemma_bounded_product(d, t, 2 * k, u);
    assert((2 * k) * u == 2 * ku) by (nonlinear_arith)
        requires
            ku == k * u,
    ;
    let pu = p * u;
    assert(-(3 * ku) <= pu <= 3 * ku);
    assert(-(3 * k) <= p <= 3 * k) by (nonlinear_arith)
        requires
            pu == p * u,
            -(3 * ku) <= pu <= 3 * ku,
            ku == k * u,
            u > 0,
    ;
    let ed = d - (b - a);
    lemma_bounded_product(0x80_0000 * ed, t, k + 0x80_0000, u);
    let edt = ed * t;
    assert((0x80_0000 * ed) * t == 0x80_0000 * edt && (k + 0x80_0000) * u == ku + 0x80_0000 * u)
        by (nonlinear_arith)
        requires
            edt == ed * t,
            ku == k * u,
    ;
    assert(dt == (b - a) * t + edt) by (nonlinear_arith)
        requires
            dt == d * t,
            ed == d - (b - a),
            edt == ed * t,
    ;
    let ez = z - (a + p);
    lemma_bounded_product(0x80_0000 * ez, u, 4 * k + 0x80_0000, u);
    let ezu = ez * u;
    assert((0x80_0000 * ez) * u == 0x80_0000 * ezu && (4 * k + 0x80_0000) * u == 4 * ku + 0x80_0000
        * u) by (nonlinear_arith)
        requires
            ezu == ez * u,
            ku == k * u,
    ;
    assert(z * u == a * u + pu + ezu) by (nonlinear_arith)
        requires
            ez == z - (a + p),
            ezu == ez * u,
            pu == p * u,
    ;
    assert(a * (u - t) + b * t == a * u + (b - a) * t) by (nonlinear_arith);
}

/// The number at the part `t` of the way from `a` to `b` is `a (1 - t) + b t`, up to `2^-19` of
/// their size.
pub proof fn lemma_between_is_on_the_way(a: Float32, b: Float32, t: Float32)
    requires
        moderate_width(a) && moderate_width(b) && fraction(t),
    ensures
        between(a, b, t).finite(),
        0x8_0000 * distance(
            between(a, b, t).value() * unit(),
            a.value() * (unit() - t.value()) + b.value() * t.value(),
        ) <= (size(a.value()) + size(b.value()) + unit()) * unit(),
{
    lemma_units();
    let u = unit();
    lemma_difference_near(b, a);
    let d = b.difference(a);
    lemma_product_near(d, t);
    let p = d.product(t);
    let pu = p.value() * u;
    let uu = u * u;
    lemma_bounded_product(d.value(), t.value(), 1024 * u, u);
    assert((1024 * u) * u == 1024 * uu && 0x100_0000_0000_0000 * u <= uu) by (nonlinear_arith)
        requires
            uu == u * u,
            u >= 0x100_0000_0000_0000,
    ;
    assert(-(2048 * u) <= p.value() <= 2048 * u) by (nonlinear_arith)
        requires
            pu == p.value() * u,
            -(2048 * uu) <= pu <= 2048 * uu,
            uu == u * u,
            u > 0,
    ;
    lemma_sum_near(a, p);
    lemma_between_arithmetic(
        a.value(),
        b.value(),
        t.value(),
        d.value(),
        p.value(),
        a.sum(p).value(),
        u,
    );
}

/// A brush is as wide as its pressure says: from its minimum without pressure to its maximum
/// under full pressure, and in proportion between.
pub proof fn lemma_pressure_decides_the_width(brush: BrushParams, pressure: Float32)
    requires
        moderate_brush(brush) && fraction(pressure),
    ensures
        ({
            let low = brush.min_width.value();
            let high = brush.max_width.value();
            let u = unit();
            0x8_0000 * distance(
                width_under(brush, pressure).value() * u,
                low * (u - pressure.value()) + high * pressure.value(),
            ) <= (size(low) + size(high) + u) * u
        }),
{
    lemma_between_is_on_the_way(brush.min_width, brush.max_width, pressure);
}

/// A minimum width that is set by its ratio is that part of the maximum, up to rounding.
pub proof fn lemma_ratio_decides_the_minimum(brush: BrushParams, ratio: Float32)
    requires
        moderate_brush(brush),
        ratio.finite(),
    ensures
        ({
            let low = brush.with_min_ratio(ratio).min_width.value() * unit();
            let high = brush.max_width.value();
            &&& 0 <= ratio.value() <= unit() ==> near(low, ratio.value() * high, unit())
            &&& ratio.value() <= 0 ==> near(low, 0, unit())
            &&& ratio.value() >= unit() ==> near(low, unit() * high, unit())
        }),
{
    lemma_units();
    lemma_clamped_to_unit(ratio);
    let r = ratio.clamped(Float32(0), Float32(ONE));
    lemma_product_near(r, brush.max_width);
    if ratio.value() <= 0 {
        assert(r.value() == 0);
        assert(r.value() * brush.max_width.value() == 0) by (nonlinear_arith)
            requires
                r.value() == 0,
        ;
    }
}

proof fn lemma_ratio_arithmetic(low: int, high: int, r: int, high2: int, low2: int, u: int)
    requires
        u >= 0x100_0000_0000_0000,
        0 <= low,
        0 < high,
        0 <= high2 <= 1024 * u,
        0 <= r,
        near(r * high, low * u, high),
        near(low2 * u, r * high2, u),
    ensures
        0x20_0000 * distance(low2 * high, low * high2) <= low * high2 + 0x1_0000_0000 * high,
{
    let rh = r * high;
    let lu = low * u;
    assert(lu >= 0) by (nonlinear_arith)
        requires
            lu == low * u,
            low >= 0,
            u >= 0,
    ;
    let e1 = rh - lu;
    assert(0x80_0000 * size(e1) <= lu + 0x80_0000 * high);
    let r2 = r * high2;
    assert(r2 >= 0) by (nonlinear_arith)
        requires
            r2 == r * high2,
            r >= 0,
            high2 >= 0,
    ;
    let e2 = low2 * u - r2;
    assert(0x80_0000 * size(e2) <= r2 + 0x80_0000 * u);
    // (low2 high - low high2) u = e2 high + e1 high2
    let e1h = e1 * high2;
    let e2h = e2 * high;
    let gap = low2 * high - low * high2;
    assert(gap * u == e2h + e1h) by {
        let lh = low2 * high;
        let ll = low * high2;
        let l2u = low2 * u;
        assert(gap * u == lh * u - ll * u) by (nonlinear_arith)
            requires
                gap == lh - ll,
        ;
        assert(lh * u == l2u * high) by (nonlinear_arith)
            requires
                lh == low2 * high,
                l2u == low2 * u,
        ;
        assert(ll * u == lu * high2) by (nonlinear_arith)
            requires
                ll == low * high2,
                lu == low * u,
        ;
        assert(e2h == l2u * high - r2 * high) by (nonlinear_arith)
            requires
                e2 == l2u - r2,
                e2h == e2 * high,
        ;
        assert(e1h == rh * high2 - lu * high2) by (nonlinear_arith)
            requires
                e1 == rh - lu,
                e1h == e1 * high2,
        ;
        assert(r2 * high == rh * high2) by (nonlinear_arith)
            requires
                r2 == r * high2,
                rh == r * high,
        ;
    }
    let part = low * high2;
    let pu = part * u;
    let hh = high * high2;
    let hu = high * u;
    assert(hh <= 1024 * hu && hh >= 0 && part >= 0 && hu >= 0) by (nonlinear_arith)
        requires
            hh == high * high2,
            hu == high * u,
            part == low * high2,
            high > 0,
            0 <= high2 <= 1024 * u,
            low >= 0,
            u > 0,
    ;
    assert(lu * high2 == pu) by (nonlinear_arith)
        requires
            lu == low * u,
            part == low * high2,
            pu == part * u,
    ;
    lemma_bounded_product(0x80_0000 * e1, high2, lu + 0x80_0000 * high, high2);
    assert((0x80_0000 * e1) * high2 == 0x80_0000 * e1h) by (nonlinear_arith)
        requires
            e1h == e1 * high2,
    ;
    assert((lu + 0x80_0000 * high) * high2 == pu + 0x80_0000 * hh) by (nonlinear_arith)
        requires
            lu * high2 == pu,
            hh == high * high2,
    ;
    let r2h = r2 * high;
    assert(r2h <= 2 * pu + hh) by {
        assert(rh <= 2 * lu + high);
        assert(rh * high2 <= (2 * lu + high) * high2) by (nonlinear_arith)
            requires
                rh <= 2 * lu + high,
                high2 >= 0,
        ;
        assert((2 * lu + high) * high2 == 2 * pu + hh) by (nonlinear_arith)
            requires
                lu * high2 == pu,
                hh == high * high2,
        ;
        assert(r2h == rh * high2) by (nonlinear_arith)
            requires
                r2h == r2 * high,
                r2 == r * high2,
                rh == r * high,
        ;
    }
    lemma_bounded_product(0x80_0000 * e2, high, r2 + 0x80_0000 * u, high);
    assert((0x80_0000 * e2) * high == 0x80_0000 * e2h) by (nonlinear_arith)
        requires
            e2h == e2 * high,
    ;
    assert((r2 + 0x80_0000 * u) * high == r2h + 0x80_0000 * hu) by (nonlinear_arith)
        requires
            r2h == r2 * high,
            hu == high * u,
    ;
    let top = part + 0x1_0000_0000 * high;
    assert(top * u == pu + 0x1_0000_0000 * hu) by (nonlinear_arith)
        requires
            top == part + 0x1_0000_0000 * high,
            pu == part * u,
            hu == high * u,
    ;
    let gu = gap * u;
    assert(-(top * u) <= 0x20_0000 * gu <= top * u);
    assert(-top <= 0x20_0000 * gap <= top) by (nonlinear_arith)
        requires
            gu == gap * u,
            -(top * u) <= 0x20_0000 * gu <= top * u,
            u > 0,
    ;
}

/// Setting the maximum width keeps the ratio of the two widths: the new minimum is to the new
/// maximum what the old one was to the old one, up to `2^-21`.
pub proof fn lemma_max_width_keeps_the_ratio(brush: BrushParams, v: Float32)
    requires
        moderate_brush(brush),
        !brush.min_width.negative(),
        !brush.max_width.negative(),
        0 <= brush.min_width.value() <= brush.max_width.value(),
        0 < brush.max_width.value(),
        v.finite(),
    ensures
        ({
            let low = brush.min_width.value();
            let high = brush.max_width.value();
            let after = brush.with_max_width(v);
            0x20_0000 * distance(
                after.min_width.value() * high,
                low * after.max_width.value(),
            ) <= low * after.max_width.value() + 0x1_0000_0000 * high
        }),
{
    lemma_units();
    let u = unit();
    let high2 = BrushParams::limited_max_width(v);
    lemma_limited_max_width(v);
    crate::float32::lemma_step(0, 0);
    if brush.max_width.magnitude() > 0 {
        crate::float32::lemma_magnitude_value_increases(0, brush.max_width.magnitude());
    }
    assert(Float32(0).below(brush.max_width));
    lemma_quotient_near(brush.min_width, brush.max_width);
    let r = brush.ratio();
    let rh = r.value() * brush.max_width.value();
    let low = brush.min_width.value();
    let high = brush.max_width.value();
    assert(low * u <= high * u) by (nonlinear_arith)
        requires
            low <= high,
            u > 0,
    ;
    assert(rh <= 2 * (high * u) + high);
    assert(r.value() <= 3 * u) by (nonlinear_arith)
        requires
            rh == r.value() * high,
            rh <= 2 * (high * u) + high,
            high > 0,
            u >= 1,
    ;
    if r.magnitude() > 0 {
        crate::float32::lemma_magnitude_value_increases(0, r.magnitude());
    }
    lemma_product_near(r, high2);
    lemma_ratio_arithmetic(
        low,
        high,
        r.value(),
        high2.value(),
        r.product(high2).value(),
        u,
    );
}

/// The maximum width is a number from 0 to 64, whatever it is set to.
proof fn lemma_limited_max_width(v: Float32)
    requires
        v.finite(),
    ensures
        BrushParams::limited_max_width(v).finite(),
        0 <= BrushParams::limited_max_width(v).value() <= 64 * unit(),
{
    lemma_units();
    let w = BrushParams::limited_max_width(v);
    let top = Float32(MAX_WIDTH_MAX);
    lemma2_to64();
    lemma_pow2_adds(23, 132);
    lemma_pow2_adds(6, 149);
    assert(top.value() == 64 * unit());
    crate::float32::lemma_step(0, 0);
    if w.magnitude() > 0 {
        crate::float32::lemma_magnitude_value_increases(0, w.magnitude());
    }
    if w.magnitude() < top.magnitude() {
        crate::float32::lemma_magnitude_value_increases(w.magnitude(), top.magnitude());
    }
}

/// Half the width at a sample is half of what its pressure gives, up to rounding.
pub proof fn lemma_half_width_is_half(sample: Sample, brush: BrushParams)
    requires
        width_under(brush, sample.pressure).finite(),
        !width_under(brush, sample.pressure).negative(),
        width_under(brush, sample.pressure).value() <= 2048 * unit(),
    ensures
        ({
            let half = half_width(sample, brush).value();
            let width = width_under(brush, sample.pressure).value();
            near(half * (2 * unit()), width * unit(), 2 * unit())
        }),
{
    lemma_units();
    let two = Float32(crate::ribbon::TWO);
    lemma2_to64();
    lemma_pow2_adds(23, 127);
    lemma_pow2_adds(1, 149);
    assert(two.value() == 2 * unit());
    let width = width_under(brush, sample.pressure);
    lemma_quotient_near(width, two);
}

} // verus!
