//! How far a ribbon reaches: for samples and brushes as they come from a hand and a page, every
//! vertex is a finite point, and every direction is long enough to shape a cap.

use crate::brush::BrushParams;
use crate::curve::{control_fraction, knot_interval, Cubic, EPSILON};
use crate::float32::near::{
    lemma_difference_near, lemma_product_near, lemma_sum_near, near, unit,
};
use crate::float32::Float32;
use crate::float64::bounds::{
    beyond, lemma_difference_within, lemma_product_bounds, lemma_product_within,
    lemma_quotient_beyond, lemma_quotient_within, lemma_root_beyond, lemma_root_within,
    lemma_sum_beyond, lemma_sum_within, power, power_magnitude, within,
};
use crate::float64::error::size;
use crate::float64::Float64;
use crate::geometry::Point;
use crate::ribbon::cap::{disc_vertices, Cap, UnitDirection};
use crate::ribbon::layout::{cap_at, laid};
use crate::ribbon::walk::{curve_of, RailsView};
use crate::ribbon::Segment;
use crate::sample::Sample;
use crate::vector::{Vector, UNIT};
use vstd::arithmetic::power2::*;
use vstd::prelude::*;

verus! {

/// A vector whose coordinates are at most `2^k` in size.
pub open spec fn vector_within(v: Vector, k: int) -> bool {
    within(v.x, k) && within(v.y, k)
}

/// A point whose coordinates are at most `2^k` in size.
pub open spec fn point_within(p: Point, k: int) -> bool {
    within(p.x, k) && within(p.y, k)
}

/// A point whose coordinates are finite.
pub open spec fn is_finite(p: Point) -> bool {
    p.x.finite() && p.y.finite()
}

/// A direction: no coordinate is above 2 in size, and it is too long to be taken for none.
pub open spec fn directed(v: Vector) -> bool {
    vector_within(v, 1) && !v.length().below(Float64(EPSILON))
}

/// A parameter of a curve.
pub open spec fn in_unit(t: Float64) -> bool {
    (t.zero() || !t.negative()) && within(t, 0)
}

pub(crate) proof fn lemma_way_within(p: Point, q: Point, k: int)
    requires
        -1000 <= k <= 1000,
        point_within(p, k) && point_within(q, k),
    ensures
        vector_within(p.way_from(q), k + 1),
{
    lemma_difference_within(p.x, q.x, k);
    lemma_difference_within(p.y, q.y, k);
}

pub(crate) proof fn lemma_scaled_within(v: Vector, f: Float64, a: int, b: int)
    requires
        -400 <= a <= 400 && -400 <= b <= 400,
        vector_within(v, a),
        within(f, b),
    ensures
        vector_within(v.scaled(f), a + b),
{
    lemma_product_within(v.x, f, a, b);
    lemma_product_within(v.y, f, a, b);
}

proof fn lemma_both_within(v: Vector, w: Vector, k: int)
    requires
        -1000 <= k <= 1000,
        vector_within(v, k) && vector_within(w, k),
    ensures
        vector_within(v.sum(w), k + 1),
{
    lemma_sum_within(v.x, w.x, k);
    lemma_sum_within(v.y, w.y, k);
}

pub(crate) proof fn lemma_moved_within(p: Point, v: Vector, k: int)
    requires
        -1000 <= k <= 1000,
        point_within(p, k) && vector_within(v, k),
    ensures
        point_within(p.moved(v), k + 1) && is_finite(p.moved(v)),
        point_within(p.moved_back(v), k + 1) && is_finite(p.moved_back(v)),
{
    lemma_sum_within(p.x, v.x, k);
    lemma_sum_within(p.y, v.y, k);
    lemma_difference_within(p.x, v.x, k);
    lemma_difference_within(p.y, v.y, k);
}

/// A vector is at most twice as long as its larger coordinate.
pub(crate) proof fn lemma_length_within(v: Vector, k: int)
    requires
        -400 <= k <= 400,
        vector_within(v, k),
    ensures
        within(v.length(), k + 1),
        v.length().finite(),
        !v.length().negative(),
{
    lemma_product_within(v.x, v.x, k, k);
    lemma_product_within(v.y, v.y, k, k);
    lemma_sum_within(v.x.product(v.x), v.y.product(v.y), 2 * k);
    let square = v.x.product(v.x).sum(v.y.product(v.y));
    assert(!square.negative()) by {
        lemma_sum_is_not_negative(v.x.product(v.x), v.y.product(v.y));
    }
    lemma_root_within(square, k + 1);
}

proof fn lemma_sum_is_not_negative(x: Float64, y: Float64)
    requires
        x.finite() && y.finite() && x.sum(y).finite(),
        !x.negative() && !y.negative(),
    ensures
        !x.sum(y).negative(),
{
    crate::float64::lemma_step(0, 0);
    if x.magnitude() > 0 {
        crate::float64::lemma_magnitude_value_increases(0, x.magnitude());
    }
    if y.magnitude() > 0 {
        crate::float64::lemma_magnitude_value_increases(0, y.magnitude());
    }
    let v = x.value() + y.value();
    crate::float64::lemma_rounding_exists(v, 1);
}

/// A vector is at least as long as each of its coordinates.
pub(crate) proof fn lemma_length_beyond(v: Vector, k: int)
    requires
        -400 <= k <= 400,
        vector_within(v, 400),
        beyond(v.x, k) || beyond(v.y, k),
    ensures
        beyond(v.length(), k),
{
    lemma_length_within(v, 400);
    lemma_product_within(v.x, v.x, 400, 400);
    lemma_product_within(v.y, v.y, 400, 400);
    lemma_sum_within(v.x.product(v.x), v.y.product(v.y), 800);
    if beyond(v.x, k) {
        lemma_product_bounds(v.x, v.x, k, k, 400, 400);
    }
    if beyond(v.y, k) {
        lemma_product_bounds(v.y, v.y, k, k, 400, 400);
    }
    lemma_sum_beyond(v.x.product(v.x), v.y.product(v.y), 2 * k);
    lemma_root_beyond(v.x.product(v.x).sum(v.y.product(v.y)), k);
}

/// Between which powers of two a magnitude lies.
proof fn lemma_binade(m: int) -> (k: int)
    requires
        power_magnitude(-22) <= m <= power_magnitude(200),
    ensures
        -22 <= k <= 200,
        power_magnitude(k) <= m < power_magnitude(k + 1),
{
    m / 0x10_0000_0000_0000 - 1023
}

/// A vector that is not too short has a coordinate that is not too small.
pub(crate) proof fn lemma_long_is_not_small(v: Vector)
    requires
        !v.length().below(Float64(EPSILON)),
    ensures
        !vector_within(v, -22),
{
    if vector_within(v, -22) {
        lemma_length_within(v, -22);
        assert(v.length().magnitude() < Float64(EPSILON).magnitude());
    }
}

/// A vector with a coordinate of at least `2^k` and none above `2^(k + 1)`, divided by its
/// length.
proof fn lemma_divided(v: Vector, k: int)
    requires
        -22 <= k <= 200,
        vector_within(v, k + 1),
        beyond(v.x, k) || beyond(v.y, k),
    ensures
        vector_within(v.divided(v.length()), 1),
        beyond(v.divided(v.length()).x, -2) || beyond(v.divided(v.length()).y, -2),
{
    let len = v.length();
    lemma_length_within(v, k + 1);
    lemma_length_beyond(v, k);
    let one = Float64(UNIT);
    assert(beyond(one, 0) && within(one, 0));
    let inverse = one.quotient(len);
    lemma_quotient_within(one, len, 0, k);
    lemma_quotient_beyond(one, len, 0, k + 2);
    lemma_product_within(v.x, inverse, k + 1, -k);
    lemma_product_within(v.y, inverse, k + 1, -k);
    if beyond(v.x, k) {
        lemma_product_bounds(v.x, inverse, k, -(k + 2), k + 1, -k);
    } else {
        lemma_product_bounds(v.y, inverse, k, -(k + 2), k + 1, -k);
    }
}

/// What is long enough becomes a direction when it is divided by its length.
pub(crate) proof fn lemma_divided_is_directed(v: Vector)
    requires
        vector_within(v, 200),
        !v.length().below(Float64(EPSILON)),
    ensures
        directed(v.divided(v.length())),
{
    lemma_long_is_not_small(v);
    let m = if v.x.magnitude() < v.y.magnitude() {
        v.y.magnitude()
    } else {
        v.x.magnitude()
    };
    let k = lemma_binade(m);
    lemma_divided(v, k);
    lemma_length_within(v.divided(v.length()), 1);
    lemma_length_beyond(v.divided(v.length()), -2);
}

/// The direction of a derivative is a direction, where the one before was.
proof fn lemma_direction_is_directed(raw: Vector, before: Vector)
    requires
        vector_within(raw, 200),
        directed(before),
    ensures
        directed(crate::ribbon::walk::direction(raw, before)),
{
    if !raw.length().below(Float64(EPSILON)) {
        lemma_divided_is_directed(raw);
    }
}

pub(crate) proof fn lemma_knot_interval(way: Vector)
    requires
        vector_within(way, 41),
    ensures
        within(knot_interval(way), 21),
        beyond(knot_interval(way), -20),
        !knot_interval(way).negative(),
{
    lemma_length_within(way, 41);
    lemma_root_within(way.length(), 21);
    assert(beyond(Float64(EPSILON), -20) && within(Float64(EPSILON), 21));
}

proof fn lemma_control_fraction(middle: Float64, span: Float64)
    requires
        within(middle, 24),
        within(span, 25),
    ensures
        within(control_fraction(middle, span), 43),
{
    let three = Float64(crate::curve::THREE);
    let wide = span.larger(Float64(EPSILON));
    assert(beyond(Float64(EPSILON), -20) && within(Float64(EPSILON), 25));
    assert(beyond(wide, -20) && within(wide, 25));
    assert(beyond(three, 1) && within(three, 2));
    lemma_product_bounds(wide, three, -20, 1, 25, 2);
    lemma_quotient_within(middle, wide.product(three), 24, -19);
}

/// The knots of a curve, from the intervals between them.
proof fn lemma_knots_within(i1: Float64, i2: Float64, i3: Float64)
    requires
        within(i1, 21) && within(i2, 21) && within(i3, 21),
    ensures
        ({
            let k1 = Float64(0).sum(i1);
            let k2 = k1.sum(i2);
            let k3 = k2.sum(i3);
            &&& within(k2.difference(k1), 24)
            &&& within(k2.difference(Float64(0)), 24)
            &&& within(k3.difference(k1), 25)
        }),
{
    let zero = Float64(0);
    let k1 = zero.sum(i1);
    lemma_sum_within(zero, i1, 21);
    let k2 = k1.sum(i2);
    lemma_sum_within(k1, i2, 22);
    let k3 = k2.sum(i3);
    lemma_sum_within(k2, i3, 23);
    lemma_difference_within(k2, k1, 23);
    lemma_difference_within(k2, zero, 23);
    lemma_difference_within(k3, k1, 24);
}

/// A control point, from the point and the way that it is moved by a part of.
proof fn lemma_control_within(p: Point, way: Vector, part: Float64)
    requires
        point_within(p, 40),
        vector_within(way, 41),
        within(part, 43),
    ensures
        point_within(p, 85),
        point_within(p.moved(way.scaled(part)), 85),
        point_within(p.moved_back(way.scaled(part)), 85),
{
    lemma_scaled_within(way, part, 41, 43);
    lemma_moved_within(p, way.scaled(part), 84);
}

/// The curve through points within `2^40` stays within `2^85`.
pub(crate) proof fn lemma_curve_within(p0: Point, p1: Point, p2: Point, p3: Point)
    requires
        point_within(p0, 40) && point_within(p1, 40),
        point_within(p2, 40) && point_within(p3, 40),
    ensures
        cubic_within(Cubic::through(p0, p1, p2, p3)),
{
    reveal(Cubic::through);
    lemma_way_within(p1, p0, 40);
    lemma_way_within(p2, p1, 40);
    lemma_way_within(p3, p2, 40);
    lemma_way_within(p2, p0, 40);
    lemma_way_within(p3, p1, 40);
    let i1 = knot_interval(p1.way_from(p0));
    let i2 = knot_interval(p2.way_from(p1));
    let i3 = knot_interval(p3.way_from(p2));
    lemma_knot_interval(p1.way_from(p0));
    lemma_knot_interval(p2.way_from(p1));
    lemma_knot_interval(p3.way_from(p2));
    lemma_knots_within(i1, i2, i3);
    let zero = Float64(0);
    let k1 = zero.sum(i1);
    let k2 = k1.sum(i2);
    let k3 = k2.sum(i3);
    let middle = k2.difference(k1);
    let out = control_fraction(middle, k2.difference(zero));
    let back = control_fraction(middle, k3.difference(k1));
    lemma_control_fraction(middle, k2.difference(zero));
    lemma_control_fraction(middle, k3.difference(k1));
    lemma_control_within(p1, p2.way_from(p0), out);
    lemma_control_within(p2, p3.way_from(p1), back);
}

/// A curve whose points are within `2^85`.
pub open spec fn cubic_within(c: Cubic) -> bool {
    &&& point_within(c.start, 85)
    &&& point_within(c.lead, 85)
    &&& point_within(c.trail, 85)
    &&& point_within(c.end, 85)
}

pub(crate) proof fn lemma_at_within(c: Cubic, t: Float64)
    requires
        cubic_within(c),
        in_unit(t),
    ensures
        point_within(c.at(t), 91),
{
    reveal(Cubic::at);
    let one = Float64(UNIT);
    let three = Float64(crate::curve::THREE);
    let s = one.difference(t);
    assert(within(one, 0) && within(three, 2));
    lemma_difference_within(one, t, 0);
    lemma_product_within(s, three, 1, 2);
    lemma_product_within(s, s, 1, 1);
    lemma_product_within(s.product(s), three, 2, 2);
    lemma_product_within(s.product(s), s, 2, 1);
    lemma_scaled_within(c.trail.way(), s.product(three), 85, 3);
    lemma_scaled_within(c.end.way(), t, 85, 0);
    let tail = c.trail.way().scaled(s.product(three)).sum(c.end.way().scaled(t));
    lemma_both_within(c.trail.way().scaled(s.product(three)), c.end.way().scaled(t), 88);
    lemma_scaled_within(c.lead.way(), s.product(s).product(three), 85, 4);
    lemma_scaled_within(tail, t, 89, 0);
    let lead = c.lead.way().scaled(s.product(s).product(three));
    let rest = lead.sum(tail.scaled(t));
    lemma_both_within(lead, tail.scaled(t), 89);
    lemma_scaled_within(c.start.way(), s.product(s).product(s), 85, 3);
    lemma_scaled_within(rest, t, 90, 0);
    lemma_both_within(c.start.way().scaled(s.product(s).product(s)), rest.scaled(t), 90);
}

pub(crate) proof fn lemma_velocity_within(c: Cubic, t: Float64)
    requires
        cubic_within(c),
        in_unit(t),
    ensures
        vector_within(c.velocity(t), 200),
{
    reveal(Cubic::velocity);
    let one = Float64(UNIT);
    let two = Float64(crate::curve::TWO);
    let three = Float64(crate::curve::THREE);
    let s = one.difference(t);
    assert(within(one, 0) && within(two, 1) && within(three, 2));
    lemma_difference_within(one, t, 0);
    lemma_product_within(s, s, 1, 1);
    lemma_product_within(s, two, 1, 1);
    lemma_way_within(c.lead, c.start, 85);
    lemma_way_within(c.trail, c.lead, 85);
    lemma_way_within(c.end, c.trail, 85);
    let d0 = c.lead.way_from(c.start).scaled(three);
    let d1 = c.trail.way_from(c.lead).scaled(three);
    let d2 = c.end.way_from(c.trail).scaled(three);
    lemma_scaled_within(c.lead.way_from(c.start), three, 86, 2);
    lemma_scaled_within(c.trail.way_from(c.lead), three, 86, 2);
    lemma_scaled_within(c.end.way_from(c.trail), three, 86, 2);
    lemma_scaled_within(d0, s.product(s), 88, 2);
    lemma_scaled_within(d1, s.product(two), 88, 2);
    lemma_scaled_within(d2, t, 88, 0);
    let inner = d1.scaled(s.product(two)).sum(d2.scaled(t));
    lemma_both_within(d1.scaled(s.product(two)), d2.scaled(t), 90);
    lemma_scaled_within(inner, t, 91, 0);
    lemma_both_within(d0.scaled(s.product(s)), inner.scaled(t), 91);
}

/// A finite width of at most 256 in size.
pub open spec fn moderate_width(x: Float32) -> bool {
    x.finite() && size(x.value()) <= 256 * unit()
}

/// A pressure from 0 to 1.
pub open spec fn moderate_pressure(x: Float32) -> bool {
    x.finite() && 0 <= x.value() <= unit()
}

/// A sample within `2^40` points of the corner of the page, with a pressure from 0 to 1.
pub open spec fn moderate_sample(s: Sample) -> bool {
    point_within(s.position, 40) && moderate_pressure(s.pressure)
}

/// A brush whose widths are at most 256 in size.
pub open spec fn moderate_brush(brush: BrushParams) -> bool {
    moderate_width(brush.min_width) && moderate_width(brush.max_width)
}

/// The numbers behind a point on the way: `d` is the way, `p` the part of it, `s` the sum.
proof fn lemma_part_of_way(a: int, b: int, t: int, d: int, p: int, s: int, u: int, k: int)
    requires
        u >= 0x100_0000_0000_0000,
        u <= k,
        size(a) <= k && size(b) <= k,
        size(t) <= 16 * u,
        near(d, b - a, 1),
        near(p * u, d * t, u),
        near(s, a + p, 1),
    ensures
        size(d) <= 3 * k,
        size(p) <= 50 * k,
        size(s) <= 64 * k,
{
    assert(size(d) <= 3 * k);
    let dt = d * t;
    let pu = p * u;
    assert(size(dt) <= 48 * (k * u)) by (nonlinear_arith)
        requires
            dt == d * t,
            -3 * k <= d <= 3 * k,
            -16 * u <= t <= 16 * u,
            k > 0,
            u > 0,
    ;
    assert(u * 1 <= k * u) by (nonlinear_arith)
        requires
            k >= 1,
            u > 0,
    ;
    assert(size(pu) <= 50 * (k * u));
    assert(-50 * k <= p <= 50 * k) by (nonlinear_arith)
        requires
            pu == p * u,
            -50 * (k * u) <= pu <= 50 * (k * u),
            u > 0,
    ;
}

/// A point on the way between two numbers is at most 64 times as large as they are.
proof fn lemma_between_within(a: Float32, b: Float32, t: Float32, k: int)
    requires
        1 <= k <= 256,
        a.finite() && size(a.value()) <= k * unit(),
        b.finite() && size(b.value()) <= k * unit(),
        t.finite() && size(t.value()) <= 16 * unit(),
    ensures
        crate::ribbon::between(a, b, t).finite(),
        size(crate::ribbon::between(a, b, t).value()) <= 64 * (k * unit()),
{
    let u = unit();
    lemma_pow2_strictly_increases(56, 149);
    lemma2_to64_rest();
    let ku = k * u;
    assert(u <= ku <= 256 * u) by (nonlinear_arith)
        requires
            ku == k * u,
            1 <= k <= 256,
            u > 0,
    ;
    lemma_difference_near(b, a);
    let d = b.difference(a);
    assert(size(d.value()) <= 3 * ku);
    lemma_product_near(d, t);
    let p = d.product(t);
    assert(size(p.value()) <= 50 * ku) by {
        lemma_part_of_way(
            a.value(),
            b.value(),
            t.value(),
            d.value(),
            p.value(),
            a.value() + p.value(),
            u,
            ku,
        );
    }
    lemma_sum_near(a, p);
    lemma_part_of_way(
        a.value(),
        b.value(),
        t.value(),
        d.value(),
        p.value(),
        a.sum(p).value(),
        u,
        ku,
    );
}

/// A pressure on the way between two is at most 16 in size.
proof fn lemma_pressure_within(a: Float32, b: Float32, t: Float32)
    requires
        moderate_pressure(a) && moderate_pressure(b),
        t.finite() && 0 <= t.value() <= unit(),
    ensures
        crate::ribbon::between(a, b, t).finite(),
        size(crate::ribbon::between(a, b, t).value()) <= 16 * unit(),
{
    let u = unit();
    lemma_pow2_strictly_increases(56, 149);
    lemma2_to64_rest();
    lemma_difference_near(b, a);
    let d = b.difference(a);
    assert(size(d.value()) <= 2 * u);
    lemma_product_near(d, t);
    let p = d.product(t);
    let dt = d.value() * t.value();
    let pu = p.value() * u;
    let uu = u * u;
    assert(-2 * uu <= dt <= 2 * uu) by (nonlinear_arith)
        requires
            dt == d.value() * t.value(),
            uu == u * u,
            -2 * u <= d.value() <= 2 * u,
            0 <= t.value() <= u,
    ;
    assert(u <= uu) by (nonlinear_arith)
        requires
            uu == u * u,
            u >= 1,
    ;
    assert(-4 * uu <= pu <= 4 * uu);
    assert(-4 * u <= p.value() <= 4 * u) by (nonlinear_arith)
        requires
            pu == p.value() * u,
            uu == u * u,
            -4 * uu <= pu <= 4 * uu,
            u > 0,
    ;
    lemma_sum_near(a, p);
}

/// A parameter from 0 to 1 is one in single precision too.
proof fn lemma_narrowed_parameter(t: Float64)
    requires
        in_unit(t),
    ensures
        Float32::narrowed(t).finite(),
        0 <= Float32::narrowed(t).value() <= unit(),
{
    let v = crate::float64::magnitude_value(t.magnitude());
    let den = pow2(925) as int;
    lemma_pow2_pos(925);
    crate::float64::lemma_step(0, 0);
    if t.magnitude() > 0 {
        crate::float64::lemma_magnitude_value_increases(0, t.magnitude());
    }
    crate::float64::bounds::lemma_within(t, 0);
    lemma_pow2_adds(149, 925);
    crate::float32::lemma_value_of_one();
    let one = 0x3f80_0000int;
    let top = crate::float32::magnitude_value(one) * den;
    assert(v <= top);
    crate::float32::lemma_rounding_exists(v, den);
    crate::float32::lemma_exact_value_rounds_to_itself(one, den);
    let r = crate::float32::rounded(v, den);
    assert(v * den <= top * den) by (nonlinear_arith)
        requires
            v <= top,
            den > 0,
    ;
    crate::float32::lemma_rounding_is_monotone(v, den, r, top, den, one);
    crate::float32::lemma_step(0, 0);
    if t.zero() {
        crate::float32::lemma_exact_value_rounds_to_itself(0, den);
        assert(0 * den == 0);
    }
    if r > 0 {
        crate::float32::lemma_magnitude_value_increases(0, r);
    }
    if r < one {
        crate::float32::lemma_magnitude_value_increases(r, one);
    }
}

/// A width of at most `2^14` in double precision.
proof fn lemma_widened_within(x: Float32)
    requires
        x.finite(),
        size(x.value()) <= 0x4000 * unit(),
    ensures
        within(Float64::widened(x), 14),
        Float64::widened(x).negative() == x.negative(),
{
    let m = crate::float32::magnitude_value(x.magnitude());
    crate::float32::lemma_step(0, 0);
    if x.magnitude() > 0 {
        crate::float32::lemma_magnitude_value_increases(0, x.magnitude());
    }
    let p = pow2(925) as int;
    lemma_pow2_pos(925);
    lemma_pow2_adds(149, 925);
    lemma_pow2_adds(1074, 14);
    lemma2_to64();
    assert(0 <= m * p <= power(14) * 1) by (nonlinear_arith)
        requires
            0 <= m <= 0x4000 * unit(),
            p > 0,
            power(14) == pow2(1074) * 0x4000,
            pow2(1074) == unit() * p,
    ;
    crate::float64::bounds::lemma_rounded_within(m * p, 1, 14);
}

/// The width under a pressure on the way between two.
pub(crate) proof fn lemma_width_within(from: Sample, to: Sample, brush: BrushParams, t: Float64)
    requires
        moderate_sample(from) && moderate_sample(to),
        moderate_brush(brush),
        in_unit(t),
    ensures
        ({
            let pressure = crate::ribbon::between(from.pressure, to.pressure, Float32::narrowed(t));
            within(Float64::widened(crate::ribbon::width_under(brush, pressure)), 14)
        }),
{
    lemma_narrowed_parameter(t);
    let pressure = crate::ribbon::between(from.pressure, to.pressure, Float32::narrowed(t));
    lemma_pressure_within(from.pressure, to.pressure, Float32::narrowed(t));
    lemma_between_within(brush.min_width, brush.max_width, pressure, 256);
    lemma_widened_within(crate::ribbon::width_under(brush, pressure));
}

/// Every vertex is finite, and the directions at the two ends are directions.
pub open spec fn sound(rails: RailsView) -> bool {
    &&& forall|i: int| 0 <= i < rails.left.len() ==> is_finite(#[trigger] rails.left[i])
    &&& forall|i: int| 0 <= i < rails.right.len() ==> is_finite(#[trigger] rails.right[i])
    &&& directed(rails.first)
    &&& directed(rails.last)
}

proof fn lemma_rightwards_is_directed()
    ensures
        directed(Vector::rightwards()),
{
    let v = Vector::rightwards();
    assert(beyond(v.x, 0) && vector_within(v, 0));
    lemma_length_within(v, 0);
    lemma_length_beyond(v, 0);
}

/// A parameter that is kept within 0 and 1.
pub(crate) proof fn lemma_clamped_parameter(t: Float64)
    requires
        !t.nan(),
    ensures
        in_unit(t.clamped(Float64(0), Float64(UNIT))),
{
}

/// The vertices on the two sides of a point.
proof fn lemma_sides_are_finite(p: Point, tangent: Vector, width: Float64)
    requires
        point_within(p, 91),
        directed(tangent),
        within(width, 14),
    ensures
        ({
            let aside = tangent.turned().scaled(width.quotient(Float64(crate::ribbon::walk::TWO)));
            is_finite(p.moved(aside)) && is_finite(p.moved_back(aside))
        }),
{
    let two = Float64(crate::ribbon::walk::TWO);
    assert(beyond(two, 1));
    lemma_quotient_within(width, two, 14, 1);
    lemma_scaled_within(tangent.turned(), width.quotient(two), 1, 13);
    lemma_moved_within(p, tangent.turned().scaled(width.quotient(two)), 91);
}

proof fn lemma_step_is_sound(
    rails: RailsView,
    from: Sample,
    to: Sample,
    brush: BrushParams,
    curve: Cubic,
    t: Float64,
)
    requires
        sound(rails),
        moderate_sample(from) && moderate_sample(to),
        moderate_brush(brush),
        cubic_within(curve),
        !t.nan(),
    ensures
        sound(rails.stepped(from, to, brush, curve, t)),
{
    lemma_clamped_parameter(t);
    let t = t.clamped(Float64(0), Float64(UNIT));
    let tangent = crate::ribbon::walk::direction(curve.velocity(t), rails.last);
    lemma_at_within(curve, t);
    lemma_velocity_within(curve, t);
    lemma_direction_is_directed(curve.velocity(t), rails.last);
    lemma_width_within(from, to, brush, t);
    let pressure = crate::ribbon::between(from.pressure, to.pressure, Float32::narrowed(t));
    let width = Float64::widened(crate::ribbon::width_under(brush, pressure));
    lemma_sides_are_finite(curve.at(t), tangent, width);
}

proof fn lemma_walk_is_sound(
    rails: RailsView,
    from: Sample,
    to: Sample,
    brush: BrushParams,
    curve: Cubic,
    params: Seq<Float64>,
)
    requires
        sound(rails),
        moderate_sample(from) && moderate_sample(to),
        moderate_brush(brush),
        cubic_within(curve),
        forall|i: int| 0 <= i < params.len() ==> !(#[trigger] params[i]).nan(),
    ensures
        sound(rails.walked(from, to, brush, curve, params)),
    decreases params.len(),
{
    if params.len() > 0 {
        lemma_walk_is_sound(rails, from, to, brush, curve, params.drop_last());
        lemma_step_is_sound(
            rails.walked(from, to, brush, curve, params.drop_last()),
            from,
            to,
            brush,
            curve,
            params.last(),
        );
    }
}

/// No parameter is missing.
pub open spec fn parameters_are_numbers(params: Seq<Vec<Float64>>) -> bool {
    forall|k: int, i: int|
        0 <= k < params.len() && 0 <= i < params[k]@.len() ==> !(#[trigger] params[k]@[i]).nan()
}

/// The ribbon of moderate samples has finite vertices only, and at both of its ends it has a
/// direction that is long enough to shape a cap.
pub proof fn lemma_ribbon_is_finite(
    samples: Seq<Sample>,
    brush: BrushParams,
    segments: Seq<Segment>,
    params: Seq<Vec<Float64>>,
    n: nat,
)
    requires
        n <= segments.len() == params.len(),
        forall|i: int| 0 <= i < samples.len() ==> moderate_sample(#[trigger] samples[i]),
        moderate_brush(brush),
        forall|k: int|
            0 <= k < segments.len() ==> crate::ribbon::layout::within(
                #[trigger] segments[k],
                samples,
            ),
        parameters_are_numbers(params),
    ensures
        sound(laid(samples, brush, segments, params, n)),
    decreases n,
{
    if n == 0 {
        lemma_rightwards_is_directed();
    } else {
        lemma_ribbon_is_finite(samples, brush, segments, params, (n - 1) as nat);
        let s = segments[n - 1];
        assert(crate::ribbon::layout::within(segments[n - 1], samples));
        assert(moderate_sample(samples[s.before as int]));
        assert(moderate_sample(samples[s.from as int]));
        assert(moderate_sample(samples[s.to as int]));
        assert(moderate_sample(samples[s.after as int]));
        lemma_curve_within(
            samples[s.before as int].position,
            samples[s.from as int].position,
            samples[s.to as int].position,
            samples[s.after as int].position,
        );
        lemma_walk_is_sound(
            laid(samples, brush, segments, params, (n - 1) as nat),
            samples[s.from as int],
            samples[s.to as int],
            brush,
            curve_of(samples, s),
            params[n - 1]@,
        );
    }
}

proof fn lemma_square_of_negated(x: Float64)
    ensures
        x.negated().magnitude() == x.magnitude(),
        x.negated().product(x.negated()) == x.product(x),
{
    assert(x.negated().magnitude() == x.magnitude());
    assert(x.negated().negative() != x.negative());
}

proof fn lemma_reversed_is_directed(v: Vector)
    requires
        directed(v),
    ensures
        directed(v.reversed()),
{
    lemma_square_of_negated(v.x);
    lemma_square_of_negated(v.y);
}

/// Half the width at a sample.
pub open spec fn half_width(sample: Sample, brush: BrushParams) -> Float32 {
    crate::ribbon::width_under(brush, sample.pressure).quotient(Float32(crate::ribbon::TWO))
}

/// A ribbon has a cap at each end where it has a width: no direction is too short for one.
pub proof fn lemma_ribbon_has_its_caps(
    samples: Seq<Sample>,
    brush: BrushParams,
    rails: RailsView,
    screen_scale: Float64,
)
    requires
        samples.len() > 0,
        sound(rails),
    ensures
        ({
            let first = cap_at(samples[0], rails.first.reversed(), brush, screen_scale);
            let last = cap_at(samples.last(), rails.last, brush, screen_scale);
            &&& first is Some <==> !Float64::widened(half_width(samples[0], brush)).at_most(
                Float64(0),
            )
            &&& last is Some <==> !Float64::widened(half_width(samples.last(), brush)).at_most(
                Float64(0),
            )
        }),
{
    lemma_reversed_is_directed(rails.first);
}

/// Half a number is no larger than the number.
proof fn lemma_half_is_no_larger(x: Float32)
    requires
        x.finite(),
    ensures
        x.quotient(Float32(crate::ribbon::TWO)).finite(),
        size(x.quotient(Float32(crate::ribbon::TWO)).value()) <= size(x.value()),
{
    let m = crate::float32::magnitude_value(x.magnitude());
    let two = Float32(crate::ribbon::TWO);
    let den = crate::float32::magnitude_value(two.magnitude());
    let u = unit();
    lemma_pow2_pos(149);
    crate::float32::lemma_step(0, 0);
    if x.magnitude() > 0 {
        crate::float32::lemma_magnitude_value_increases(0, x.magnitude());
    }
    crate::float32::lemma_value_of_one();
    crate::float32::lemma_magnitude_value_increases(0x3f80_0000, two.magnitude());
    let num = m * u;
    assert(0 <= num <= m * den) by (nonlinear_arith)
        requires
            num == m * u,
            0 <= m,
            0 < u <= den,
    ;
    crate::float32::lemma_rounding_exists(num, den);
    crate::float32::lemma_exact_value_rounds_to_itself(x.magnitude(), den);
    let r = crate::float32::rounded(num, den);
    let top = m * den;
    assert(num * den <= top * den) by (nonlinear_arith)
        requires
            num <= top,
            den > 0,
    ;
    crate::float32::lemma_rounding_is_monotone(num, den, r, top, den, x.magnitude());
    if r < x.magnitude() {
        crate::float32::lemma_magnitude_value_increases(r, x.magnitude());
    }
    if r > 0 {
        crate::float32::lemma_magnitude_value_increases(0, r);
    }
}

/// The radius of the cap at a sample.
proof fn lemma_radius_within(sample: Sample, brush: BrushParams)
    requires
        moderate_sample(sample),
        moderate_brush(brush),
    ensures
        within(Float64::widened(half_width(sample, brush)), 14),
{
    lemma_pow2_pos(149);
    lemma_between_within(brush.min_width, brush.max_width, sample.pressure, 256);
    let width = crate::ribbon::width_under(brush, sample.pressure);
    lemma_half_is_no_larger(width);
    lemma_widened_within(half_width(sample, brush));
}

/// Directions by cosines and sines of at most 1 in size.
pub open spec fn on_the_circle(inner: Seq<UnitDirection>) -> bool {
    forall|i: int|
        0 <= i < inner.len() ==> within((#[trigger] inner[i]).cos, 0) && within(inner[i].sin, 0)
}

proof fn lemma_cap_vertex_is_finite(cap: Cap, d: UnitDirection)
    requires
        point_within(cap.center, 40),
        vector_within(cap.outward, 1),
        within(cap.radius, 14),
        within(d.cos, 0) && within(d.sin, 0),
    ensures
        is_finite(cap.vertex(d)),
{
    let turned = cap.outward.turned().scaled(d.cos);
    let along = cap.outward.scaled(d.sin);
    lemma_scaled_within(cap.outward.turned(), d.cos, 1, 0);
    lemma_scaled_within(cap.outward, d.sin, 1, 0);
    lemma_both_within(turned, along, 1);
    lemma_scaled_within(turned.sum(along), cap.radius, 2, 14);
    lemma_moved_within(cap.center, turned.sum(along).scaled(cap.radius), 40);
}

proof fn lemma_rim_is_finite(cap: Cap, inner: Seq<UnitDirection>, i: int)
    requires
        point_within(cap.center, 40),
        vector_within(cap.outward, 1),
        within(cap.radius, 14),
        on_the_circle(inner),
        0 <= i < inner.len() + 2,
    ensures
        is_finite(cap.rim(inner)[i]),
{
    lemma_scaled_within(cap.outward.turned(), cap.radius, 1, 14);
    lemma_moved_within(cap.center, cap.aside(), 40);
    if 0 < i <= inner.len() {
        lemma_cap_vertex_is_finite(cap, inner[i - 1]);
    }
}

/// The cap at a moderate sample, facing in a direction, has finite vertices only.
pub proof fn lemma_cap_is_finite(
    sample: Sample,
    outward: Vector,
    brush: BrushParams,
    screen_scale: Float64,
    inner: Seq<UnitDirection>,
    i: int,
)
    requires
        moderate_sample(sample),
        moderate_brush(brush),
        directed(outward),
        on_the_circle(inner),
        0 <= i < inner.len() + 2,
    ensures
        cap_at(sample, outward, brush, screen_scale) matches Some(cap) ==> is_finite(
            cap.rim(inner)[i],
        ),
{
    if let Some(cap) = cap_at(sample, outward, brush, screen_scale) {
        lemma_radius_within(sample, brush);
        lemma_divided_is_directed(outward);
        lemma_rim_is_finite(cap, inner, i);
    }
}

/// The disc of a stroke that does not move has finite vertices only.
pub proof fn lemma_disc_is_finite(
    sample: Sample,
    brush: BrushParams,
    inner: Seq<UnitDirection>,
    i: int,
)
    requires
        moderate_sample(sample),
        moderate_brush(brush),
        on_the_circle(inner),
        0 <= i < inner.len() + 1,
    ensures
        is_finite(
            disc_vertices(
                sample.position,
                Float64::widened(half_width(sample, brush)),
                inner,
            )[i],
        ),
{
    let radius = Float64::widened(half_width(sample, brush));
    lemma_radius_within(sample, brush);
    if i == 0 {
        lemma_moved_within(sample.position, Vector { x: radius, y: Float64(0) }, 40);
    } else {
        let d = inner[i - 1];
        lemma_product_within(radius, d.cos, 14, 0);
        lemma_product_within(radius, d.sin, 14, 0);
        let way = Vector { x: radius.product(d.cos), y: radius.product(d.sin) };
        lemma_moved_within(sample.position, way, 40);
    }
}

} // verus!
