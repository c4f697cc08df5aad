//! What the vertices of a ribbon are for the curve that it follows: they lie across the curve, on
//! its left and on its right, as far apart as the ribbon is wide. Values are in units of
//! `2^-1074`.

use crate::brush::BrushParams;
use crate::curve::{Cubic, EPSILON};
use crate::float32::Float32;
use crate::float64::bounds::{
    beyond, lemma_product_within, lemma_quotient_beyond, lemma_quotient_within,
    lemma_sum_within, lemma_within, power, within,
};
use crate::float64::error::{distance, precision, size};
use crate::float64::ratio::{
    alike, lemma_alike_in_turn, lemma_alike_is_near, lemma_multiples_are_alike,
    lemma_quotient_is_alike,
};
use crate::float64::Float64;
use crate::geometry::Point;
use crate::ribbon::extent::{
    cubic_within, lemma_at_within, lemma_clamped_parameter, lemma_divided_is_directed,
    lemma_length_beyond, lemma_length_within, lemma_long_is_not_small, lemma_moved_within,
    lemma_velocity_within, lemma_width_within, moderate_brush,
    moderate_sample, vector_within,
};
use crate::ribbon::walk::RailsView;
use crate::sample::Sample;
use crate::vector::{Vector, UNIT};
use crate::viewport_laws::{lemma_positive_value, lemma_size_of_product};
use vstd::arithmetic::power2::*;
use vstd::prelude::*;

verus! {

/// What the coordinates of a vector are together in size.
pub open spec fn spread(v: Vector) -> int {
    size(v.x.value()) + size(v.y.value())
}

/// The square of the length of a vector, exactly.
pub open spec fn square(v: Vector) -> int {
    v.x.value() * v.x.value() + v.y.value() * v.y.value()
}

/// A square that is not too small is so large that a rounded one is alike.
proof fn lemma_square_is_large(a: int, b: int, least: int, u: int)
    requires
        0 < least,
        size(a) >= least || size(b) >= least,
        least * 0x40_0000 == u,
        precision() * precision() * 0x40_0000 <= least,
    ensures
        precision() * precision() * u <= a * a + b * b,
        a * a >= 0 && b * b >= 0,
{
    let e = precision();
    assert(a * a >= 0 && b * b >= 0) by (nonlinear_arith);
    let ll = least * least;
    assert(a * a >= ll || b * b >= ll) by (nonlinear_arith)
        requires
            ll == least * least,
            least > 0,
            size(a) >= least || size(b) >= least,
            size(a) == a || size(a) == -a,
            size(b) == b || size(b) == -b,
    ;
    assert(e * e * u <= ll) by (nonlinear_arith)
        requires
            ll == least * least,
            u == least * 0x40_0000,
            e * e * 0x40_0000 <= least,
            least > 0,
    ;
}

/// The length of a vector is the root of the sum of its squares: its square is alike that sum, up
/// to 10 parts in `2^52`.
pub proof fn lemma_length_is_of_pythagoras(v: Vector)
    requires
        vector_within(v, 200),
        !v.length().below(Float64(EPSILON)),
    ensures
        alike(v.length().value() * v.length().value(), square(v), 10),
        v.length().finite() && !v.length().negative(),
        v.length().value() > 0,
        beyond(v.length(), -22) && within(v.length(), 201),
{
    let u = pow2(1074) as int;
    lemma_pow2_pos(1074);
    lemma_long_is_not_small(v);
    lemma_within(v.x, -22);
    lemma_within(v.y, -22);
    assert(beyond(v.x, -22) || beyond(v.y, -22));
    lemma_length_within(v, 200);
    lemma_length_beyond(v, -22);
    let a = v.x.value();
    let b = v.y.value();
    let p = v.x.product(v.x);
    let q = v.y.product(v.y);
    lemma_product_within(v.x, v.x, 200, 200);
    lemma_product_within(v.y, v.y, 200, 200);
    lemma_sum_within(p, q, 400);
    let ss = p.sum(q);
    lemma_product_is_of_values(v.x);
    lemma_product_is_of_values(v.y);
    crate::float64::error::lemma_sum_error(p, q);
    assert(power(-22) * 0x40_0000 == u) by {
        lemma_pow2_adds(1052, 22);
        lemma2_to64();
    }
    assert(precision() * precision() * 0x40_0000 <= power(-22)) by {
        lemma2_to64_rest();
        lemma2_to64();
        lemma_pow2_adds(52, 52);
        lemma_pow2_adds(104, 22);
        lemma_pow2_strictly_increases(126, 1052);
    }
    lemma_square_is_large(a, b, power(-22), u);
    let n = a * a + b * b;
    let pu = p.value() * u;
    let qu = q.value() * u;
    let e = precision();
    assert(2 * (e * u) <= n) by (nonlinear_arith)
        requires
            e * e * u <= n,
            e == 0x10_0000_0000_0000,
            u > 0,
    ;
    assert(e * distance(pu + qu, n) <= 2 * n);
    let pq = p.value() + q.value();
    assert(pq * u == pu + qu) by (nonlinear_arith)
        requires
            pq == p.value() + q.value(),
            pu == p.value() * u,
            qu == q.value() * u,
    ;
    assert(n > 0) by (nonlinear_arith)
        requires
            e * e * u <= n,
            e == 0x10_0000_0000_0000,
            u > 0,
    ;
    assert(alike(pq * u, n, 4));
    assert(pq > 0) by (nonlinear_arith)
        requires
            pq * u > 0,
            u > 0,
    ;
    crate::float64::ratio::lemma_rounded_is_alike(ss.value(), pq);
    lemma_multiples_are_alike(ss.value(), pq, u, 2);
    let l = v.length();
    assert(l.normal()) by {
        lemma_within(l, -22);
    }
    assert(!ss.negative()) by {
        if ss.negative() {
            crate::float64::lemma_step(0, 0);
            if ss.magnitude() > 0 {
                crate::float64::lemma_magnitude_value_increases(0, ss.magnitude());
            }
        }
    }
    crate::float64::error::lemma_root_error(ss);
    assert(ss.value() * u > 0) by (nonlinear_arith)
        requires
            ss.value() > 0,
            u > 0,
    ;
    let ll = l.value() * l.value();
    assert(ll > 0) by (nonlinear_arith)
        requires
            ll == l.value() * l.value(),
            l.value() > 0,
    ;
    assert(alike(ll, ss.value() * u, 2));
    lemma_alike_in_turn(ll, ss.value() * u, pq * u, 2, 2);
    lemma_alike_in_turn(ll, pq * u, n, 5, 4);
}

/// A square as it is computed.
proof fn lemma_product_is_of_values(x: Float64)
    requires
        within(x, 200),
    ensures
        precision() * distance(x.product(x).value() * pow2(1074), x.value() * x.value())
            <= x.value() * x.value() + precision() * pow2(1074),
{
    lemma_product_within(x, x, 200, 200);
    crate::float64::error::lemma_product_near(x, x);
    let a = x.value();
    assert(a * a >= 0) by (nonlinear_arith);
}

/// What is at most `q` times `m` in its parts is so as a whole.
proof fn lemma_both_parts(p: int, q: int, a: int, b: int, m: int)
    requires
        size(p) <= m && size(q) <= m,
    ensures
        size(p * a + q * b) <= m * (size(a) + size(b)),
        size(p * a - q * b) <= m * (size(a) + size(b)),
{
    lemma_size_of_product(p, a);
    lemma_size_of_product(q, b);
    let x = size(a);
    let y = size(b);
    assert(size(p) * x <= m * x && size(q) * y <= m * y) by (nonlinear_arith)
        requires
            size(p) <= m,
            size(q) <= m,
            x >= 0,
            y >= 0,
    ;
    assert(m * (x + y) == m * x + m * y) by (nonlinear_arith);
}

/// A coordinate of a direction is the coordinate of the vector over its length.
proof fn lemma_coordinate_error(a: int, i: int, x: int, u: int)
    requires
        u >= 0x100_0000_0000_0000_0000,
        precision() * distance(x * u, a * i) <= size(a * i) + precision() * u,
        size(x) <= 2 * u,
    ensures
        precision() * size(x * u - a * i) <= 4 * (u * u),
{
    let e = precision();
    let ai = a * i;
    let xu = x * u;
    let uu = u * u;
    assert(-(2 * uu) <= xu <= 2 * uu) by (nonlinear_arith)
        requires
            xu == x * u,
            uu == u * u,
            -(2 * u) <= x <= 2 * u,
            u > 0,
    ;
    assert(0x100_0000_0000_0000_0000 * u <= uu) by (nonlinear_arith)
        requires
            uu == u * u,
            u >= 0x100_0000_0000_0000_0000,
    ;
    assert(e * u <= uu);
}

proof fn lemma_cross_identity(a: int, b: int, i: int, x: int, y: int, u: int)
    ensures
        (y * a - x * b) * u == (y * u - b * i) * a - (x * u - a * i) * b,
{
    let yu = y * u;
    let xu = x * u;
    let ai = a * i;
    let bi = b * i;
    assert((y * a - x * b) * u == yu * a - xu * b) by (nonlinear_arith)
        requires
            yu == y * u,
            xu == x * u,
    ;
    assert((yu - bi) * a == yu * a - bi * a && (xu - ai) * b == xu * b - ai * b) by (nonlinear_arith);
    assert(bi * a == ai * b) by (nonlinear_arith)
        requires
            ai == a * i,
            bi == b * i,
    ;
}

proof fn lemma_inner_identity(a: int, b: int, i: int, x: int, y: int, u: int)
    ensures
        (x * a + y * b) * u == i * (a * a + b * b) + ((x * u - a * i) * a + (y * u - b * i) * b),
{
    let yu = y * u;
    let xu = x * u;
    let ai = a * i;
    let bi = b * i;
    assert((x * a + y * b) * u == xu * a + yu * b) by (nonlinear_arith)
        requires
            yu == y * u,
            xu == x * u,
    ;
    assert((xu - ai) * a == xu * a - ai * a && (yu - bi) * b == yu * b - bi * b) by (nonlinear_arith);
    assert(ai * a == i * (a * a)) by (nonlinear_arith)
        requires
            ai == a * i,
    ;
    assert(bi * b == i * (b * b)) by (nonlinear_arith)
        requires
            bi == b * i,
    ;
    assert(i * (a * a + b * b) == i * (a * a) + i * (b * b)) by (nonlinear_arith);
}

proof fn lemma_turned_inner_identity(
    a: int,
    b: int,
    x: int,
    y: int,
    h: int,
    ax: int,
    ay: int,
    u: int,
)
    ensures
        (ax * a + ay * b) * u == -(h * (y * a - x * b)) + ((ax * u - (-y * h)) * a + (ay * u - x
            * h) * b),
{
    let axu = ax * u;
    let ayu = ay * u;
    let yh = -y * h;
    let xh = x * h;
    assert((ax * a + ay * b) * u == axu * a + ayu * b) by (nonlinear_arith)
        requires
            axu == ax * u,
            ayu == ay * u,
    ;
    assert((axu - yh) * a == axu * a - yh * a && (ayu - xh) * b == ayu * b - xh * b)
        by (nonlinear_arith);
    assert(yh * a == -(h * (y * a))) by (nonlinear_arith)
        requires
            yh == -y * h,
    ;
    assert(xh * b == h * (x * b)) by (nonlinear_arith)
        requires
            xh == x * h,
    ;
    assert(h * (y * a - x * b) == h * (y * a) - h * (x * b)) by (nonlinear_arith);
}

proof fn lemma_turned_cross_identity(
    a: int,
    b: int,
    l: int,
    x: int,
    y: int,
    h: int,
    ax: int,
    ay: int,
    u: int,
)
    ensures
        (a * ay - b * ax - h * l) * u == h * (x * a + y * b - u * l) + ((ay * u - x * h) * a - (ax
            * u - (-y * h)) * b),
{
    let axu = ax * u;
    let ayu = ay * u;
    let yh = -y * h;
    let xh = x * h;
    let hl = h * l;
    assert((a * ay - b * ax - hl) * u == ayu * a - axu * b - hl * u) by (nonlinear_arith)
        requires
            axu == ax * u,
            ayu == ay * u,
    ;
    assert((axu - yh) * b == axu * b - yh * b && (ayu - xh) * a == ayu * a - xh * a)
        by (nonlinear_arith);
    assert(yh * b == -(h * (y * b))) by (nonlinear_arith)
        requires
            yh == -y * h,
    ;
    assert(xh * a == h * (x * a)) by (nonlinear_arith)
        requires
            xh == x * h,
    ;
    assert(hl * u == h * (u * l)) by (nonlinear_arith)
        requires
            hl == h * l,
    ;
    assert(h * (x * a + y * b - u * l) == h * (x * a) + h * (y * b) - h * (u * l))
        by (nonlinear_arith);
}

/// The direction of a vector is parallel to it: their cross product vanishes, and the inner one
/// is the length, up to rounding.
proof fn lemma_direction_arithmetic(a: int, b: int, l: int, i: int, x: int, y: int, u: int)
    requires
        u >= 0x100_0000_0000_0000_0000,
        l > 0 && i > 0,
        alike(l * l, a * a + b * b, 10),
        alike(i * l, u * u, 2),
        precision() * distance(x * u, a * i) <= size(a * i) + precision() * u,
        precision() * distance(y * u, b * i) <= size(b * i) + precision() * u,
        size(x) <= 2 * u && size(y) <= 2 * u,
    ensures
        precision() * size(y * a - x * b) <= 4 * (u * (size(a) + size(b))),
        precision() * size(x * a + y * b - u * l) <= 32 * (u * (size(a) + size(b))),
        l <= 2 * (size(a) + size(b)),
{
    let e = precision();
    let q = size(a) + size(b);
    let uu = u * u;
    let n = a * a + b * b;
    lemma_coordinate_error(a, i, x, u);
    lemma_coordinate_error(b, i, y, u);
    let ex = x * u - a * i;
    let ey = y * u - b * i;
    let m = 4 * uu;
    assert(uu > 0) by (nonlinear_arith)
        requires
            uu == u * u,
            u > 0,
    ;
    // u (y a - x b) = ey a - ex b
    let p1 = y * a - x * b;
    lemma_both_parts(e * ey, e * ex, a, b, m);
    lemma_cross_identity(a, b, i, x, y, u);
    assert(e * (p1 * u) == (e * ey) * a - (e * ex) * b) by (nonlinear_arith)
        requires
            p1 * u == ey * a - ex * b,
    ;
    lemma_size_of_product(p1, u);
    let s1 = size(p1);
    assert(e * (s1 * u) <= m * q) by {
        lemma_size_of_product(e, p1 * u);
    }
    assert(e * s1 <= 4 * (u * q)) by (nonlinear_arith)
        requires
            e * (s1 * u) <= m * q,
            m == 4 * (u * u),
            u > 0,
    ;
    // u (x a + y b) = i n + ex a + ey b
    let p2 = x * a + y * b;
    lemma_both_parts(e * ex, e * ey, a, b, m);
    let rest = ex * a + ey * b;
    lemma_inner_identity(a, b, i, x, y, u);
    assert(e * rest == (e * ex) * a + (e * ey) * b) by (nonlinear_arith)
        requires
            rest == ex * a + ey * b,
    ;
    lemma_size_of_product(e, rest);
    assert(e * size(rest) <= m * q);
    // i n ~ i l l ~ u u l
    lemma_multiples_are_alike(l * l, n, i, 10);
    lemma_multiples_are_alike(i * l, uu, l, 2);
    assert((l * l) * i == (i * l) * l && n * i == i * n) by (nonlinear_arith);
    assert(alike(i * n, (i * l) * l, 10));
    lemma_alike_in_turn(i * n, (i * l) * l, uu * l, 10, 2);
    lemma_alike_is_near(i * n, uu * l, 13);
    // l is at most twice the spread.
    assert(n <= q * q) by (nonlinear_arith)
        requires
            n == a * a + b * b,
            q == size(a) + size(b),
            size(a) == a || size(a) == -a,
            size(b) == b || size(b) == -b,
            size(a) >= 0,
            size(b) >= 0,
    ;
    assert(l <= 2 * q) by (nonlinear_arith)
        requires
            e * (l * l) <= (e + 10) * n,
            n <= q * q,
            e == 0x10_0000_0000_0000,
            l > 0,
            q >= 0,
    ;
    assert(uu * l <= 2 * (uu * q)) by (nonlinear_arith)
        requires
            l <= 2 * q,
            uu > 0,
    ;
    assert(m * q == 4 * (uu * q)) by (nonlinear_arith)
        requires
            m == 4 * uu,
    ;
    let d = p2 - u * l;
    assert(d * u == (i * n - uu * l) + rest) by (nonlinear_arith)
        requires
            d == p2 - u * l,
            p2 * u == i * n + rest,
            uu == u * u,
    ;
    lemma_size_of_product(d, u);
    let sd = size(d);
    assert(e * (sd * u) <= 32 * (uu * q));
    assert(e * sd <= 32 * (u * q)) by (nonlinear_arith)
        requires
            e * (sd * u) <= 32 * (uu * q),
            uu == u * u,
            u > 0,
    ;
}

/// The way to the left, from the direction and half the width.
proof fn lemma_aside_arithmetic(
    a: int,
    b: int,
    l: int,
    x: int,
    y: int,
    h: int,
    ax: int,
    ay: int,
    u: int,
)
    requires
        u > 0,
        size(x) <= 2 * u && size(y) <= 2 * u,
        precision() * size(y * a - x * b) <= 4 * (u * (size(a) + size(b))),
        precision() * size(x * a + y * b - u * l) <= 32 * (u * (size(a) + size(b))),
        precision() * distance(ax * u, -y * h) <= size(-y * h) + precision() * u,
        precision() * distance(ay * u, x * h) <= size(x * h) + precision() * u,
    ensures
        precision() * size(ax * a + ay * b) <= (6 * size(h) + precision()) * (size(a) + size(b)),
        precision() * size(a * ay - b * ax - h * l) <= (34 * size(h) + precision()) * (size(a)
            + size(b)),
{
    let e = precision();
    let q = size(a) + size(b);
    let sh = size(h);
    let fx = ax * u - (-y * h);
    let fy = ay * u - x * h;
    lemma_size_of_product(-y, h);
    lemma_size_of_product(x, h);
    assert(size(-y) == size(y));
    let m = (2 * sh + e) * u;
    assert(size(y) * sh + e * u <= m && size(x) * sh + e * u <= m) by (nonlinear_arith)
        requires
            m == (2 * sh + e) * u,
            size(y) <= 2 * u,
            size(x) <= 2 * u,
            sh >= 0,
    ;
    lemma_size_of_product(e, fx);
    lemma_size_of_product(e, fy);
    let mq = m * q;
    let hq = sh * (u * q);
    assert(mq == 2 * hq + e * (u * q)) by (nonlinear_arith)
        requires
            mq == m * q,
            m == (2 * sh + e) * u,
            hq == sh * (u * q),
    ;
    // u (ax a + ay b) = -h (y a - x b) + fx a + fy b
    let d1 = ax * a + ay * b;
    let p1 = y * a - x * b;
    lemma_both_parts(e * fx, e * fy, a, b, m);
    lemma_turned_inner_identity(a, b, x, y, h, ax, ay, u);
    assert(e * (d1 * u) == -(e * (h * p1)) + ((e * fx) * a + (e * fy) * b)) by (nonlinear_arith)
        requires
            d1 * u == -(h * p1) + (fx * a + fy * b),
    ;
    lemma_size_of_product(h, p1);
    lemma_size_of_product(e, h * p1);
    let s1 = size(p1);
    assert(e * (sh * s1) <= 4 * hq) by (nonlinear_arith)
        requires
            e * s1 <= 4 * (u * q),
            hq == sh * (u * q),
            sh >= 0,
    ;
    lemma_size_of_product(d1, u);
    lemma_size_of_product(e, d1 * u);
    let sd1 = size(d1);
    assert(e * (sd1 * u) <= 6 * hq + e * (u * q));
    assert(e * sd1 <= (6 * sh + e) * q) by (nonlinear_arith)
        requires
            e * (sd1 * u) <= 6 * hq + e * (u * q),
            hq == sh * (u * q),
            u > 0,
    ;
    // u (a ay - b ax - h l) = h (x a + y b - u l) + fy a - fx b
    let d2 = a * ay - b * ax - h * l;
    let p2 = x * a + y * b - u * l;
    lemma_both_parts(e * fy, e * fx, a, b, m);
    lemma_turned_cross_identity(a, b, l, x, y, h, ax, ay, u);
    assert(e * (d2 * u) == e * (h * p2) + ((e * fy) * a - (e * fx) * b)) by (nonlinear_arith)
        requires
            d2 * u == h * p2 + (fy * a - fx * b),
    ;
    lemma_size_of_product(h, p2);
    lemma_size_of_product(e, h * p2);
    let s2 = size(p2);
    assert(e * (sh * s2) <= 32 * hq) by (nonlinear_arith)
        requires
            e * s2 <= 32 * (u * q),
            hq == sh * (u * q),
            sh >= 0,
    ;
    lemma_size_of_product(d2, u);
    lemma_size_of_product(e, d2 * u);
    let sd2 = size(d2);
    assert(e * (sd2 * u) <= 34 * hq + e * (u * q));
    assert(e * sd2 <= (34 * sh + e) * q) by (nonlinear_arith)
        requires
            e * (sd2 * u) <= 34 * hq + e * (u * q),
            hq == sh * (u * q),
            u > 0,
    ;
}

/// A vertex on either side of a point, in one coordinate.
proof fn lemma_vertex_arithmetic(p: int, a: int, l: int, r: int)
    requires
        precision() * distance(l, p + a) <= size(p + a),
        precision() * distance(r, p - a) <= size(p - a),
    ensures
        0x8_0000_0000_0000 * size(l - r - 2 * a) <= size(l) + size(r),
        0x8_0000_0000_0000 * distance(l + r, 2 * p) <= size(l) + size(r),
{
}

/// The vertices on the two sides, from the way to the left.
proof fn lemma_sides_arithmetic(
    a: int,
    b: int,
    l: int,
    h: int,
    w: int,
    ax: int,
    ay: int,
    dx: int,
    dy: int,
    s: int,
)
    requires
        0 < l <= 2 * (size(a) + size(b)),
        precision() * size(ax * a + ay * b) <= (6 * size(h) + precision()) * (size(a) + size(b)),
        precision() * size(a * ay - b * ax - h * l) <= (34 * size(h) + precision()) * (size(a)
            + size(b)),
        precision() * distance(2 * h, w) <= size(w) + 2 * precision(),
        0x8_0000_0000_0000 * size(dx - 2 * ax) <= s,
        0x8_0000_0000_0000 * size(dy - 2 * ay) <= s,
        s >= 0,
    ensures
        0x4000_0000_0000 * size(dx * a + dy * b) <= (s + size(w) + precision()) * (size(a)
            + size(b)),
        0x4000_0000_0000 * distance(a * dy - b * dx, w * l) <= (s + size(w) + precision())
            * (size(a) + size(b)),
{
    let q = size(a) + size(b);
    let sh = size(h);
    let sw = size(w);
    let ex = dx - 2 * ax;
    let ey = dy - 2 * ay;
    assert(0x20_0000_0000_0000 * sh <= 0x10_0000_0000_0001 * sw + 0x20_0000_0000_0000);
    lemma_size_of_product(0x8_0000_0000_0000, ex);
    lemma_size_of_product(0x8_0000_0000_0000, ey);
    lemma_both_parts(0x8_0000_0000_0000 * ex, 0x8_0000_0000_0000 * ey, a, b, s);
    lemma_both_parts(0x8_0000_0000_0000 * ey, 0x8_0000_0000_0000 * ex, a, b, s);
    let dot = dx * a + dy * b;
    let d1 = ax * a + ay * b;
    let g1 = ex * a + ey * b;
    assert(dot == 2 * d1 + g1) by (nonlinear_arith)
        requires
            dot == dx * a + dy * b,
            d1 == ax * a + ay * b,
            g1 == ex * a + ey * b,
            ex == dx - 2 * ax,
            ey == dy - 2 * ay,
    ;
    assert(0x8_0000_0000_0000 * g1 == (0x8_0000_0000_0000 * ex) * a + (0x8_0000_0000_0000 * ey)
        * b) by (nonlinear_arith)
        requires
            g1 == ex * a + ey * b,
    ;
    lemma_size_of_product(0x8_0000_0000_0000, g1);
    let sq = s * q;
    let hq = sh * q;
    let wq = sw * q;
    assert((6 * sh + precision()) * q == 6 * hq + 0x10_0000_0000_0000 * q && (34 * sh
        + precision()) * q == 34 * hq + 0x10_0000_0000_0000 * q) by (nonlinear_arith)
        requires
            hq == sh * q,
            precision() == 0x10_0000_0000_0000,
    ;
    assert((s + sw + precision()) * q == sq + wq + 0x10_0000_0000_0000 * q) by (nonlinear_arith)
        requires
            sq == s * q,
            wq == sw * q,
            precision() == 0x10_0000_0000_0000,
    ;
    assert(0x20_0000_0000_0000 * hq <= 0x10_0000_0000_0001 * wq + 0x20_0000_0000_0000 * q && sq >= 0
        && wq >= 0 && hq >= 0) by (nonlinear_arith)
        requires
            0x20_0000_0000_0000 * sh <= 0x10_0000_0000_0001 * sw + 0x20_0000_0000_0000,
            hq == sh * q,
            wq == sw * q,
            sq == s * q,
            q >= 0,
            s >= 0,
            sw >= 0,
            sh >= 0,
    ;
    let cross = a * dy - b * dx;
    let d2 = a * ay - b * ax - h * l;
    let g2 = ey * a - ex * b;
    let k = (2 * h - w) * l;
    assert(cross - w * l == 2 * d2 + g2 + k) by (nonlinear_arith)
        requires
            cross == a * dy - b * dx,
            d2 == a * ay - b * ax - h * l,
            g2 == ey * a - ex * b,
            ex == dx - 2 * ax,
            ey == dy - 2 * ay,
            k == (2 * h - w) * l,
    ;
    assert(0x8_0000_0000_0000 * g2 == (0x8_0000_0000_0000 * ey) * a - (0x8_0000_0000_0000 * ex)
        * b) by (nonlinear_arith)
        requires
            g2 == ey * a - ex * b,
    ;
    lemma_size_of_product(0x8_0000_0000_0000, g2);
    lemma_size_of_product(2 * h - w, l);
    let sk = size(2 * h - w);
    assert(0x10_0000_0000_0000 * (sk * l) <= 2 * wq + 0x40_0000_0000_0000 * q) by (nonlinear_arith)
        requires
            0x10_0000_0000_0000 * sk <= sw + 0x20_0000_0000_0000,
            0 < l <= 2 * q,
            wq == sw * q,
            sk >= 0,
            sw >= 0,
    ;
}

/// What is stated of a step of the ribbon at a point of the curve with the given derivative, where
/// the ribbon has the given width: the way from the vertex on the right to the one on the left is
/// perpendicular to the derivative, and its cross product with the derivative is the width times
/// the length of the derivative, so that it leads to the left and is as long as the ribbon is
/// wide. The point lies in the middle between them.
pub open spec fn lies_across(
    left: Point,
    right: Point,
    at: Point,
    velocity: Vector,
    width: Float64,
) -> bool {
    let a = velocity.x.value();
    let b = velocity.y.value();
    let dx = left.x.value() - right.x.value();
    let dy = left.y.value() - right.y.value();
    let s = size(left.x.value()) + size(right.x.value()) + size(left.y.value()) + size(
        right.y.value(),
    );
    let error = (s + size(width.value()) + precision()) * (size(a) + size(b));
    &&& 0x4000_0000_0000 * size(dx * a + dy * b) <= error
    &&& 0x4000_0000_0000 * distance(a * dy - b * dx, width.value() * velocity.length().value())
        <= error
    &&& 0x8_0000_0000_0000 * distance(left.x.value() + right.x.value(), 2 * at.x.value()) <= s
    &&& 0x8_0000_0000_0000 * distance(left.y.value() + right.y.value(), 2 * at.y.value()) <= s
}

/// A number divided by two.
proof fn lemma_halved(w: Float64)
    requires
        within(w, 14),
    ensures
        ({
            let h = w.quotient(Float64(crate::ribbon::walk::TWO));
            &&& within(h, 13)
            &&& precision() * distance(2 * h.value(), w.value()) <= size(w.value()) + 2
                * precision()
        }),
{
    let two = Float64(crate::ribbon::walk::TWO);
    assert(beyond(two, 1));
    lemma_quotient_within(w, two, 14, 1);
    crate::float64::bounds::lemma_power_has_magnitude(1);
    crate::float64::bounds::lemma_next_power(0);
    let u = pow2(1074) as int;
    lemma_pow2_pos(1074);
    assert(two.value() == 2 * u);
    crate::float64::error::lemma_quotient_near(w, two);
    let h = w.quotient(two).value();
    let e = precision();
    let d = 2 * h - w.value();
    assert(h * (2 * u) - w.value() * u == d * u) by (nonlinear_arith)
        requires
            d == 2 * h - w.value(),
    ;
    lemma_size_of_product(d, u);
    let sd = size(d);
    let sw = size(w.value());
    assert(e * (sd * u) <= sw * u + e * (2 * u));
    assert(e * sd <= sw + 2 * e) by (nonlinear_arith)
        requires
            e * (sd * u) <= sw * u + e * (2 * u),
            u > 0,
    ;
}

/// A direction is that of a vector: it is parallel to the vector, and its inner product with the
/// vector is the length of the vector, so that it is one long and points the same way.
pub open spec fn points_along(t: Vector, v: Vector) -> bool {
    let u = pow2(1074) as int;
    let a = v.x.value();
    let b = v.y.value();
    let x = t.x.value();
    let y = t.y.value();
    &&& precision() * size(y * a - x * b) <= 4 * (u * spread(v))
    &&& precision() * size(x * a + y * b - u * v.length().value()) <= 32 * (u * spread(v))
}

proof fn lemma_unit_is_large()
    ensures
        pow2(1074) >= 0x100_0000_0000_0000_0000,
{
    lemma2_to64_rest();
    lemma2_to64();
    lemma_pow2_adds(64, 8);
    lemma_pow2_strictly_increases(72, 1074);
}

/// A vector divided by its length points along it.
pub proof fn lemma_divided_points_along(v: Vector)
    requires
        vector_within(v, 200),
        !v.length().below(Float64(EPSILON)),
    ensures
        points_along(v.divided(v.length()), v),
        vector_within(v.divided(v.length()), 1),
        size(v.divided(v.length()).x.value()) <= 2 * pow2(1074),
        size(v.divided(v.length()).y.value()) <= 2 * pow2(1074),
        0 < v.length().value() <= 2 * spread(v),
{
    let u = pow2(1074) as int;
    lemma_unit_is_large();
    lemma_length_is_of_pythagoras(v);
    lemma_divided_is_directed(v);
    let len = v.length();
    let one = Float64(UNIT);
    crate::float64::bounds::lemma_power_has_magnitude(0);
    assert(beyond(one, 0) && within(one, 0) && one.value() == u);
    let inverse = one.quotient(len);
    lemma_quotient_within(one, len, 0, -22);
    lemma_quotient_beyond(one, len, 0, 201);
    lemma_within(inverse, -201);
    lemma_positive_value(inverse);
    lemma_quotient_is_alike(one, len);
    let t = v.divided(len);
    assert(t.x == v.x.product(inverse) && t.y == v.y.product(inverse));
    lemma_product_within(v.x, inverse, 200, 22);
    lemma_product_within(v.y, inverse, 200, 22);
    crate::float64::error::lemma_product_near(v.x, inverse);
    crate::float64::error::lemma_product_near(v.y, inverse);
    lemma_within(t.x, 1);
    lemma_within(t.y, 1);
    crate::float64::bounds::lemma_next_power(0);
    lemma_direction_arithmetic(
        v.x.value(),
        v.y.value(),
        len.value(),
        inverse.value(),
        t.x.value(),
        t.y.value(),
        u,
    );
}

/// The negated number has the negated value.
pub(crate) proof fn lemma_negated(x: Float64)
    ensures
        x.negated().value() == -x.value(),
        x.negated().magnitude() == x.magnitude(),
        size(x.negated().value()) == size(x.value()),
{
    crate::float64::lemma_step(0, 0);
}

proof fn lemma_part_of_aside(x: Float64, h: Float64)
    requires
        within(x, 1),
        within(h, 13),
    ensures
        within(x.product(h), 14),
        precision() * distance(x.product(h).value() * pow2(1074), x.value() * h.value()) <= size(
            x.value() * h.value(),
        ) + precision() * pow2(1074),
{
    lemma_product_within(x, h, 1, 13);
    crate::float64::error::lemma_product_near(x, h);
}

/// The way to the left is across the vector, half the width long.
#[verifier::rlimit(40)]
proof fn lemma_aside_is_across(t: Vector, v: Vector, h: Float64)
    requires
        points_along(t, v),
        vector_within(t, 1),
        size(t.x.value()) <= 2 * pow2(1074) && size(t.y.value()) <= 2 * pow2(1074),
        within(h, 13),
    ensures
        ({
            let aside = t.turned().scaled(h);
            let a = v.x.value();
            let b = v.y.value();
            &&& vector_within(aside, 14)
            &&& precision() * size(aside.x.value() * a + aside.y.value() * b) <= (6 * size(
                h.value(),
            ) + precision()) * spread(v)
            &&& precision() * size(
                a * aside.y.value() - b * aside.x.value() - h.value() * v.length().value(),
            ) <= (34 * size(h.value()) + precision()) * spread(v)
        }),
{
    let u = pow2(1074) as int;
    lemma_pow2_pos(1074);
    let aside = t.turned().scaled(h);
    assert(aside.x == t.y.negated().product(h) && aside.y == t.x.product(h));
    lemma_negated(t.y);
    lemma_part_of_aside(t.y.negated(), h);
    lemma_part_of_aside(t.x, h);
    lemma_aside_arithmetic(
        v.x.value(),
        v.y.value(),
        v.length().value(),
        t.x.value(),
        t.y.value(),
        h.value(),
        aside.x.value(),
        aside.y.value(),
        u,
    );
}

/// The vertices on the two sides of a point, across a derivative that has a direction.
proof fn lemma_sides_lie_across(p: Point, velocity: Vector, width: Float64)
    requires
        crate::ribbon::extent::point_within(p, 91),
        vector_within(velocity, 200),
        !velocity.length().below(Float64(EPSILON)),
        within(width, 14),
    ensures
        ({
            let tangent = velocity.divided(velocity.length());
            let aside = tangent.turned().scaled(
                width.quotient(Float64(crate::ribbon::walk::TWO)),
            );
            lies_across(p.moved(aside), p.moved_back(aside), p, velocity, width)
        }),
{
    let t = velocity.divided(velocity.length());
    let h = width.quotient(Float64(crate::ribbon::walk::TWO));
    lemma_divided_points_along(velocity);
    lemma_halved(width);
    lemma_aside_is_across(t, velocity, h);
    let aside = t.turned().scaled(h);
    lemma_vertices_lie_across(p, aside, velocity, h, width);
}

proof fn lemma_vertices_lie_across(
    p: Point,
    aside: Vector,
    v: Vector,
    h: Float64,
    width: Float64,
)
    requires
        crate::ribbon::extent::point_within(p, 91),
        vector_within(aside, 14),
        0 < v.length().value() <= 2 * spread(v),
        precision() * distance(2 * h.value(), width.value()) <= size(width.value()) + 2
            * precision(),
        precision() * size(aside.x.value() * v.x.value() + aside.y.value() * v.y.value()) <= (6
            * size(h.value()) + precision()) * spread(v),
        precision() * size(
            v.x.value() * aside.y.value() - v.y.value() * aside.x.value() - h.value()
                * v.length().value(),
        ) <= (34 * size(h.value()) + precision()) * spread(v),
    ensures
        lies_across(p.moved(aside), p.moved_back(aside), p, v, width),
{
    lemma_moved_within(p, aside, 91);
    crate::float64::error::lemma_sum_error(p.x, aside.x);
    crate::float64::error::lemma_sum_error(p.y, aside.y);
    crate::float64::error::lemma_difference_error(p.x, aside.x);
    crate::float64::error::lemma_difference_error(p.y, aside.y);
    let left = p.moved(aside);
    let right = p.moved_back(aside);
    lemma_vertex_arithmetic(p.x.value(), aside.x.value(), left.x.value(), right.x.value());
    lemma_vertex_arithmetic(p.y.value(), aside.y.value(), left.y.value(), right.y.value());
    let s = size(left.x.value()) + size(right.x.value()) + size(left.y.value()) + size(
        right.y.value(),
    );
    lemma_sides_arithmetic(
        v.x.value(),
        v.y.value(),
        v.length().value(),
        h.value(),
        width.value(),
        aside.x.value(),
        aside.y.value(),
        left.x.value() - right.x.value(),
        left.y.value() - right.y.value(),
        s,
    );
}

/// A step of the ribbon at a parameter where the curve has a direction leaves one vertex more on
/// either side: the two lie across the curve's derivative there, the one on its left and the other
/// on its right, at the same distance from the point of the curve, and as far apart as the brush
/// is wide under the pressure there. The direction that it leaves for the cap is the curve's.
#[verifier::rlimit(40)]
pub proof fn lemma_step_lies_across_the_curve(
    rails: RailsView,
    from: Sample,
    to: Sample,
    brush: BrushParams,
    curve: Cubic,
    t: Float64,
)
    requires
        moderate_sample(from) && moderate_sample(to),
        moderate_brush(brush),
        cubic_within(curve),
        Float64(0).at_most(t) && t.at_most(Float64(UNIT)),
        !curve.velocity(t).length().below(Float64(EPSILON)),
    ensures
        ({
            let after = rails.stepped(from, to, brush, curve, t);
            let pressure = crate::ribbon::between(from.pressure, to.pressure, Float32::narrowed(t));
            let width = Float64::widened(crate::ribbon::width_under(brush, pressure));
            &&& after.left.len() == rails.left.len() + 1
            &&& after.right.len() == rails.right.len() + 1
            &&& after.left.drop_last() == rails.left
            &&& after.right.drop_last() == rails.right
            &&& lies_across(
                after.left.last(),
                after.right.last(),
                curve.at(t),
                curve.velocity(t),
                width,
            )
            &&& points_along(after.last, curve.velocity(t))
            &&& rails.left.len() == 0 ==> after.first == after.last
            &&& rails.left.len() > 0 ==> after.first == rails.first
        }),
{
    lemma_clamped_parameter(t);
    assert(t.clamped(Float64(0), Float64(UNIT)) == t);
    lemma_at_within(curve, t);
    lemma_velocity_within(curve, t);
    lemma_width_within(from, to, brush, t);
    let pressure = crate::ribbon::between(from.pressure, to.pressure, Float32::narrowed(t));
    let width = Float64::widened(crate::ribbon::width_under(brush, pressure));
    lemma_sides_lie_across(curve.at(t), curve.velocity(t), width);
    lemma_divided_points_along(curve.velocity(t));
    let after = rails.stepped(from, to, brush, curve, t);
    assert(after.left.drop_last() =~= rails.left);
    assert(after.right.drop_last() =~= rails.right);
}

proof fn lemma_parameters_are_kept(t: Float64)
    ensures
        Float64(0).at_most(t) && t.at_most(Float64(UNIT)) ==> t.clamped(Float64(0), Float64(UNIT))
            == t,
        t.below(Float64(0)) ==> t.clamped(Float64(0), Float64(UNIT)) == Float64(0),
        Float64(UNIT).below(t) ==> t.clamped(Float64(0), Float64(UNIT)) == Float64(UNIT),
        Float64(0).clamped(Float64(0), Float64(UNIT)) == Float64(0),
        Float64(UNIT).clamped(Float64(0), Float64(UNIT)) == Float64(UNIT),
{
}

/// Where the curve has no direction of its own, the ribbon keeps the one that it had.
pub proof fn lemma_step_without_direction_goes_straight_on(
    rails: RailsView,
    from: Sample,
    to: Sample,
    brush: BrushParams,
    curve: Cubic,
    t: Float64,
)
    requires
        Float64(0).at_most(t) && t.at_most(Float64(UNIT)),
        curve.velocity(t).length().below(Float64(EPSILON)),
    ensures
        rails.stepped(from, to, brush, curve, t).last == rails.last,
{
    lemma_parameters_are_kept(t);
}

/// A parameter beyond the ends of the curve is taken for the end.
pub proof fn lemma_steps_stay_on_the_curve(
    rails: RailsView,
    from: Sample,
    to: Sample,
    brush: BrushParams,
    curve: Cubic,
    t: Float64,
)
    requires
        t.below(Float64(0)) || Float64(UNIT).below(t),
    ensures
        rails.stepped(from, to, brush, curve, t) == rails.stepped(
            from,
            to,
            brush,
            curve,
            if t.below(Float64(0)) {
                Float64(0)
            } else {
                Float64(UNIT)
            },
        ),
{
    lemma_parameters_are_kept(t);
}

} // verus!
