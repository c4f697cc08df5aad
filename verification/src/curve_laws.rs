//! Where a curve runs: its points are those of the cubic through its four control points, and its
//! derivative is that of the cubic. Values are in units of `2^-1074`, so that 1 is `pow2(1074)`.

use crate::curve::{control_fraction, knot_interval, Cubic, EPSILON, THREE, TWO};
use crate::float64::bounds::{
    lemma_difference_within, lemma_power_has_magnitude, lemma_product_within, lemma_root_beyond,
    lemma_root_within, lemma_sum_within, lemma_within, power, within,
};
use crate::float64::error::{
    distance, lemma_difference_error, lemma_product_near, lemma_root_error, lemma_sum_error, size,
};
use crate::float64::Float64;
use crate::geometry::Point;
use crate::ribbon::extent::{
    lemma_knot_interval, lemma_length_within, lemma_way_within, point_within, vector_within,
};
use crate::vector::{Vector, UNIT};
use vstd::arithmetic::power2::*;
use vstd::prelude::*;

verus! {

/// The number is the quotient of `n` by `d`, which is at most `b`, up to `e` parts of `b` in
/// `2^52`.
pub open spec fn est(x: Float64, n: int, d: int, b: int, e: int) -> bool {
    &&& x.finite()
    &&& 0 < d
    &&& 0 < b <= power(300)
    &&& 0 <= e <= 0x1_0000
    &&& size(n) <= b * d
    &&& 0x10_0000_0000_0000 * distance(x.value() * d, n) <= e * (b * d)
}

pub(crate) proof fn lemma_bounded_product(a: int, b: int, m: int, n: int)
    requires
        size(a) <= m,
        size(b) <= n,
    ensures
        size(a * b) <= m * n,
{
    assert(-(m * n) <= a * b <= m * n) by (nonlinear_arith)
        requires
            -m <= a <= m,
            -n <= b <= n,
    ;
}

/// An estimated number is not much larger than its bound.
proof fn lemma_est_size(x: Float64, n: int, d: int, b: int, e: int)
    requires
        est(x, n, d, b, e),
    ensures
        size(x.value() * d) <= 2 * (b * d),
        size(x.value()) <= 2 * b,
        within(x, 301),
{
    let bd = b * d;
    assert(bd > 0) by (nonlinear_arith)
        requires
            bd == b * d,
            b > 0,
            d > 0,
    ;
    assert(e * bd <= 0x1_0000 * bd) by (nonlinear_arith)
        requires
            e <= 0x1_0000,
            bd > 0,
    ;
    let v = x.value();
    let vd = v * d;
    assert(-(2 * bd) <= vd <= 2 * bd);
    assert(-(2 * b) <= v <= 2 * b) by (nonlinear_arith)
        requires
            vd == v * d,
            -(2 * bd) <= vd <= 2 * bd,
            bd == b * d,
            d > 0,
    ;
    crate::float64::bounds::lemma_next_power(300);
    lemma_within(x, 301);
}

proof fn lemma_est_product_arithmetic(
    x: int,
    n1: int,
    d1: int,
    b1: int,
    e1: int,
    y: int,
    n2: int,
    d2: int,
    b2: int,
    e2: int,
    z: int,
    b: int,
    u: int,
)
    requires
        0x100_0000_0000_0000 <= u,
        u <= b,
        0 < d1 && 0 < d2 && 0 < b1 && 0 < b2,
        0 <= e1 && 0 <= e2,
        size(n1) <= b1 * d1,
        size(n2) <= b2 * d2,
        size(x * d1) <= 2 * (b1 * d1),
        size(y * d2) <= 2 * (b2 * d2),
        0x10_0000_0000_0000 * distance(x * d1, n1) <= e1 * (b1 * d1),
        0x10_0000_0000_0000 * distance(y * d2, n2) <= e2 * (b2 * d2),
        b1 * b2 <= b * u,
        0x10_0000_0000_0000 * distance(z * u, x * y) <= size(x * y) + 0x10_0000_0000_0000 * u,
    ensures
        ({
            let d = d1 * d2 * u;
            &&& 0 < d
            &&& size(n1 * n2) <= b * d
            &&& 0x10_0000_0000_0000 * distance(z * d, n1 * n2) <= (2 * e1 + e2 + 5) * (b * d)
        }),
{
    let dd = d1 * d2;
    let d = dd * u;
    let ad = b1 * d1;
    let bd = b2 * d2;
    let top = b * d;
    assert(dd > 0 && d > 0 && ad > 0 && bd > 0 && top > 0) by (nonlinear_arith)
        requires
            dd == d1 * d2,
            d == dd * u,
            ad == b1 * d1,
            bd == b2 * d2,
            top == b * d,
            d1 > 0,
            d2 > 0,
            b1 > 0,
            b2 > 0,
            b > 0,
            u > 0,
    ;
    let prod = ad * bd;
    assert(prod <= top) by {
        let bb = b1 * b2;
        let bu = b * u;
        assert(prod == bb * dd) by (nonlinear_arith)
            requires
                prod == ad * bd,
                ad == b1 * d1,
                bd == b2 * d2,
                bb == b1 * b2,
                dd == d1 * d2,
        ;
        assert(top == bu * dd) by (nonlinear_arith)
            requires
                top == b * d,
                d == dd * u,
                bu == b * u,
        ;
        assert(bb * dd <= bu * dd) by (nonlinear_arith)
            requires
                bb <= bu,
                dd > 0,
        ;
    }
    let xd = x * d1;
    let yd = y * d2;
    let xy = x * y;
    let xyd = xd * yd;
    assert(xyd == xy * dd) by (nonlinear_arith)
        requires
            xyd == xd * yd,
            xd == x * d1,
            yd == y * d2,
            xy == x * y,
            dd == d1 * d2,
    ;
    lemma_bounded_product(n1, n2, ad, bd);
    lemma_bounded_product(xd, yd, 2 * ad, 2 * bd);
    assert((2 * ad) * (2 * bd) == 4 * prod) by (nonlinear_arith)
        requires
            prod == ad * bd,
    ;
    // What the factors are off.
    let o1 = xd - n1;
    let o2 = yd - n2;
    let e1a = e1 * ad;
    let e2b = e2 * bd;
    lemma_bounded_product(0x10_0000_0000_0000 * o1, yd, e1a, 2 * bd);
    lemma_bounded_product(n1, 0x10_0000_0000_0000 * o2, ad, e2b);
    let o1y = o1 * yd;
    let no2 = n1 * o2;
    assert((0x10_0000_0000_0000 * o1) * yd == 0x10_0000_0000_0000 * o1y && n1 * (
    0x10_0000_0000_0000 * o2) == 0x10_0000_0000_0000 * no2) by (nonlinear_arith)
        requires
            o1y == o1 * yd,
            no2 == n1 * o2,
    ;
    assert(e1a * (2 * bd) == 2 * (e1 * prod) && ad * e2b == e2 * prod) by (nonlinear_arith)
        requires
            e1a == e1 * ad,
            e2b == e2 * bd,
            prod == ad * bd,
    ;
    assert(xyd - n1 * n2 == o1y + no2) by (nonlinear_arith)
        requires
            xyd == xd * yd,
            o1 == xd - n1,
            o2 == yd - n2,
            o1y == o1 * yd,
            no2 == n1 * o2,
    ;
    assert(e1 * prod <= e1 * top && e2 * prod <= e2 * top) by (nonlinear_arith)
        requires
            prod <= top,
            e1 >= 0,
            e2 >= 0,
    ;
    // What the rounding adds.
    let oz = z * u - xy;
    let ozd = oz * dd;
    assert(z * d - xyd == ozd) by (nonlinear_arith)
        requires
            oz == z * u - xy,
            ozd == oz * dd,
            d == dd * u,
            xyd == xy * dd,
    ;
    let most = size(xy) + 0x10_0000_0000_0000 * u;
    lemma_bounded_product(0x10_0000_0000_0000 * oz, dd, most, dd);
    assert((0x10_0000_0000_0000 * oz) * dd == 0x10_0000_0000_0000 * ozd) by (nonlinear_arith)
        requires
            ozd == oz * dd,
    ;
    assert(most * dd == size(xyd) + 0x10_0000_0000_0000 * d) by {
        assert(size(xyd) == size(xy) * dd) by (nonlinear_arith)
            requires
                xyd == xy * dd,
                dd > 0,
                size(xy) == if xy < 0 { -xy } else { xy },
                size(xyd) == if xyd < 0 { -xyd } else { xyd },
        ;
        let sxy = size(xy);
        assert(most * dd == sxy * dd + 0x10_0000_0000_0000 * d) by (nonlinear_arith)
            requires
                most == sxy + 0x10_0000_0000_0000 * u,
                d == dd * u,
        ;
    }
    assert(0x10_0000_0000_0000 * d <= top) by (nonlinear_arith)
        requires
            top == b * d,
            b >= 0x10_0000_0000_0000,
            d > 0,
    ;
    assert((2 * e1 + e2 + 5) * top == 2 * (e1 * top) + e2 * top + 5 * top) by (nonlinear_arith);
}

/// The product of estimated numbers is estimated by the product.
pub(crate) proof fn lemma_est_product(
    x: Float64,
    n1: int,
    d1: int,
    b1: int,
    e1: int,
    y: Float64,
    n2: int,
    d2: int,
    b2: int,
    e2: int,
    b: int,
)
    requires
        est(x, n1, d1, b1, e1),
        est(y, n2, d2, b2, e2),
        2 * e1 + e2 + 5 <= 0x1_0000,
        pow2(1074) <= b <= power(300),
        b1 * b2 <= b * pow2(1074),
    ensures
        est(x.product(y), n1 * n2, d1 * d2 * pow2(1074), b, 2 * e1 + e2 + 5),
{
    lemma_unit();
    lemma_est_size(x, n1, d1, b1, e1);
    lemma_est_size(y, n2, d2, b2, e2);
    lemma_product_within(x, y, 301, 301);
    lemma_product_near(x, y);
    lemma_est_product_arithmetic(
        x.value(),
        n1,
        d1,
        b1,
        e1,
        y.value(),
        n2,
        d2,
        b2,
        e2,
        x.product(y).value(),
        b,
        pow2(1074) as int,
    );
}

pub(crate) proof fn lemma_unit()
    ensures
        pow2(1074) >= 0x100_0000_0000_0000,
        power(0) == pow2(1074),
        Float64(UNIT).value() == pow2(1074),
        Float64(TWO).value() == 2 * pow2(1074),
        Float64(THREE).value() == 3 * pow2(1074),
        within(Float64(UNIT), 0) && within(Float64(TWO), 1) && within(Float64(THREE), 2),
        0 < 64 * power(85) <= power(300),
{
    lemma2_to64();
    lemma2_to64_rest();
    lemma_pow2_strictly_increases(56, 1074);
    lemma_pow2_adds(52, 1022);
    lemma_pow2_adds(52, 1023);
    lemma_pow2_adds(1, 1074);
    let m: int = 0x4008_0000_0000_0000;
    assert(m / 0x10_0000_0000_0000 == 1024 && m % 0x10_0000_0000_0000 == 0x8_0000_0000_0000);
    assert(0x10_0000_0000_0000 * pow2(1023) == 2 * pow2(1074));
    lemma_pow2_pos(1159);
    lemma_pow2_adds(6, 1159);
    lemma_pow2_strictly_increases(1165, 1374);
}

/// A number is what it is.
pub(crate) proof fn lemma_est_exact(x: Float64, b: int)
    requires
        x.finite(),
        size(x.value()) <= b,
        0 < b <= power(300),
    ensures
        est(x, x.value(), 1, b, 0),
{
    assert(x.value() * 1 == x.value() && b * 1 == b);
}

/// The sum of estimated numbers is estimated by the sum.
pub(crate) proof fn lemma_est_sum(
    x: Float64,
    n1: int,
    b1: int,
    e1: int,
    y: Float64,
    n2: int,
    b2: int,
    e2: int,
    d: int,
)
    requires
        est(x, n1, d, b1, e1),
        est(y, n2, d, b2, e2),
        e1 + e2 + 4 <= 0x1_0000,
        b1 + b2 <= power(300),
    ensures
        est(x.sum(y), n1 + n2, d, b1 + b2, e1 + e2 + 4),
{
    lemma_est_size(x, n1, d, b1, e1);
    lemma_est_size(y, n2, d, b2, e2);
    lemma_sum_within(x, y, 301);
    lemma_sum_error(x, y);
    let z = x.sum(y).value();
    let xv = x.value();
    let yv = y.value();
    let o = z - (xv + yv);
    let od = o * d;
    let xd = xv * d;
    let yd = yv * d;
    assert(z * d == xd + yd + od) by (nonlinear_arith)
        requires
            o == z - (xv + yv),
            od == o * d,
            xd == xv * d,
            yd == yv * d,
    ;
    let a = b1 * d;
    let c = b2 * d;
    assert((b1 + b2) * d == a + c && a > 0 && c > 0) by (nonlinear_arith)
        requires
            a == b1 * d,
            c == b2 * d,
            b1 > 0,
            b2 > 0,
            d > 0,
    ;
    let bound = 2 * b1 + 2 * b2;
    lemma_bounded_product(0x10_0000_0000_0000 * o, d, bound, d);
    assert((0x10_0000_0000_0000 * o) * d == 0x10_0000_0000_0000 * od && bound * d == 2 * a + 2 * c)
        by (nonlinear_arith)
        requires
            od == o * d,
            bound == 2 * b1 + 2 * b2,
            a == b1 * d,
            c == b2 * d,
    ;
    assert((e1 + e2 + 4) * (a + c) >= e1 * a + e2 * c + 4 * (a + c)) by (nonlinear_arith)
        requires
            a > 0,
            c > 0,
            e1 >= 0,
            e2 >= 0,
    ;
}

/// A difference of numbers is estimated by their difference.
proof fn lemma_est_difference(x: Float64, y: Float64, b: int)
    requires
        x.finite(),
        y.finite(),
        size(x.value()) <= b,
        size(y.value()) <= b,
        0 < b,
        2 * b <= power(300),
    ensures
        est(x.difference(y), x.value() - y.value(), 1, 2 * b, 1),
{
    lemma_within(x, 300);
    lemma_within(y, 300);
    lemma_difference_within(x, y, 300);
    lemma_difference_error(x, y);
    let z = x.difference(y).value();
    assert(z * 1 == z && (2 * b) * 1 == 2 * b);
}

/// A small multiple of an estimated number is estimated by that multiple.
proof fn lemma_est_multiple(x: Float64, n: int, d: int, b: int, e: int, k: Float64, c: int)
    requires
        est(x, n, d, b, e),
        2 * e + 5 <= 0x1_0000,
        k.finite(),
        k.value() == c * pow2(1074),
        c == 2 || c == 3,
        pow2(1074) <= b,
        3 * b <= power(300),
    ensures
        est(x.product(k), c * n, d, c * b, 2 * e + 5),
{
    lemma_unit();
    let u = pow2(1074) as int;
    lemma_est_exact(k, c * u);
    assert(b * (c * u) == (c * b) * u) by (nonlinear_arith);
    lemma_est_product(x, n, d, b, e, k, c * u, 1, c * u, 0, c * b);
    let z = x.product(k).value();
    let m = 2 * e + 5;
    assert(d * 1 * u == d * u && n * (c * u) == (c * n) * u) by (nonlinear_arith);
    lemma_cancel(z, c * n, d, c * b, m, u);
}

proof fn lemma_cancel(z: int, n: int, d: int, b: int, e: int, u: int)
    requires
        u > 0,
        d > 0,
        size(n * u) <= b * (d * u),
        0x10_0000_0000_0000 * distance(z * (d * u), n * u) <= e * (b * (d * u)),
    ensures
        size(n) <= b * d,
        0x10_0000_0000_0000 * distance(z * d, n) <= e * (b * d),
{
    let bd = b * d;
    let zd = z * d;
    assert(b * (d * u) == bd * u && z * (d * u) == zd * u) by (nonlinear_arith)
        requires
            bd == b * d,
            zd == z * d,
    ;
    let o = zd - n;
    assert(zd * u - n * u == o * u) by (nonlinear_arith)
        requires
            o == zd - n,
    ;
    let ebd = e * bd;
    assert(e * (bd * u) == ebd * u) by (nonlinear_arith)
        requires
            ebd == e * bd,
    ;
    assert(-bd <= n <= bd) by (nonlinear_arith)
        requires
            -(bd * u) <= n * u <= bd * u,
            u > 0,
    ;
    assert(-ebd <= 0x10_0000_0000_0000 * o <= ebd) by (nonlinear_arith)
        requires
            -(ebd * u) <= 0x10_0000_0000_0000 * (o * u) <= ebd * u,
            u > 0,
    ;
}

/// A coordinate of a point of a curve, from those of its control points.
spec fn coordinate(a: Float64, b: Float64, c: Float64, e: Float64, t: Float64) -> Float64 {
    let s = Float64(UNIT).difference(t);
    let tail = c.product(s.product(Float64(THREE))).sum(e.product(t));
    let rest = b.product(s.product(s).product(Float64(THREE))).sum(tail.product(t));
    a.product(s.product(s).product(s)).sum(rest.product(t))
}

/// The coordinate of the cubic with the given control points, over the cube of the unit: each
/// control point weighs by its Bernstein polynomial.
pub open spec fn bernstein(a: int, b: int, c: int, e: int, t: int, u: int) -> int {
    let s = u - t;
    a * (s * s * s) + 3 * (b * (s * s * t)) + 3 * (c * (s * t * t)) + e * (t * t * t)
}

/// A parameter from 0 to 1.
pub open spec fn parameter(t: Float64) -> bool {
    t.finite() && 0 <= t.value() <= pow2(1074)
}

/// A coordinate of at most `k` in size.
pub open spec fn reaches(x: Float64, k: int) -> bool {
    x.finite() && size(x.value()) <= k
}

proof fn lemma_bernstein_identity(a: int, b: int, c: int, e: int, t: int, s: int, u: int)
    requires
        s == u - t,
    ensures
        a * (s * s * s) + (b * (3 * (s * s)) + (c * (3 * s) + e * t) * t) * t == bernstein(
            a,
            b,
            c,
            e,
            t,
            u,
        ),
{
    let ss = s * s;
    let st = s * t;
    let tt = t * t;
    assert((c * (3 * s) + e * t) * t == 3 * (c * st) + e * tt) by (nonlinear_arith)
        requires
            st == s * t,
            tt == t * t,
    ;
    let inner = 3 * (c * st) + e * tt;
    let stt = st * t;
    let ttt = tt * t;
    let sst = ss * t;
    assert(inner * t == 3 * (c * stt) + e * ttt) by (nonlinear_arith)
        requires
            inner == 3 * (c * st) + e * tt,
            stt == st * t,
            ttt == tt * t,
    ;
    assert((b * (3 * ss) + inner) * t == 3 * (b * sst) + inner * t) by (nonlinear_arith)
        requires
            sst == ss * t,
    ;
    assert(s * t * t == stt && t * t * t == ttt && s * s * t == sst) by (nonlinear_arith)
        requires
            stt == st * t,
            st == s * t,
            ttt == tt * t,
            tt == t * t,
            sst == ss * t,
            ss == s * s,
    ;
}

/// The rest of a parameter, its square and its cube.
proof fn lemma_rest_powers(t: Float64)
    requires
        parameter(t),
    ensures
        ({
            let u = pow2(1074) as int;
            let r = u - t.value();
            let s = Float64(UNIT).difference(t);
            &&& est(s, r, 1, u, 1)
            &&& est(s.product(s), r * r, u, u, 8)
            &&& est(s.product(s).product(s), r * r * r, u * u, u, 22)
            &&& est(s.product(Float64(TWO)), 2 * r, 1, 2 * u, 7)
            &&& est(s.product(Float64(THREE)), 3 * r, 1, 3 * u, 7)
            &&& est(s.product(s).product(Float64(THREE)), 3 * (r * r), u, 3 * u, 21)
            &&& est(t, t.value(), 1, u, 0)
        }),
{
    lemma_unit();
    let u = pow2(1074) as int;
    let r = u - t.value();
    let one = Float64(UNIT);
    let s = one.difference(t);
    lemma_within(t, 0);
    lemma_difference_within(one, t, 0);
    lemma_difference_error(one, t);
    lemma_small_unit();
    assert(s.value() * 1 == s.value() && u * 1 == u);
    assert(est(s, r, 1, u, 1));
    lemma_est_exact(t, u);
    lemma_est_product(s, r, 1, u, 1, s, r, 1, u, 1, u);
    assert(1 * 1 * u == u);
    let ss = s.product(s);
    lemma_est_product(ss, r * r, u, u, 8, s, r, 1, u, 1, u);
    assert(u * 1 * u == u * u) by (nonlinear_arith);
    lemma_est_multiple(s, r, 1, u, 1, Float64(TWO), 2);
    lemma_est_multiple(s, r, 1, u, 1, Float64(THREE), 3);
    lemma_est_multiple(ss, r * r, u, u, 8, Float64(THREE), 3);
}

pub(crate) proof fn lemma_small_unit()
    ensures
        0 < 64 * pow2(1074) <= power(300),
{
    lemma2_to64();
    lemma_pow2_pos(1074);
    lemma_pow2_adds(6, 1074);
    lemma_pow2_strictly_increases(1080, 1374);
}

proof fn lemma_coordinate(a: Float64, b: Float64, c: Float64, e: Float64, t: Float64, k: int)
    requires
        reaches(a, k) && reaches(b, k) && reaches(c, k) && reaches(e, k),
        pow2(1074) <= k <= power(85),
        parameter(t),
    ensures
        ({
            let u = pow2(1074) as int;
            let z = coordinate(a, b, c, e, t);
            &&& z.finite()
            &&& 0x200_0000_0000 * distance(
                z.value() * (u * u * u),
                bernstein(a.value(), b.value(), c.value(), e.value(), t.value(), u),
            ) <= k * (u * u * u)
        }),
{
    lemma_unit();
    lemma_rest_powers(t);
    let u = pow2(1074) as int;
    let tv = t.value();
    let r = u - tv;
    let s = Float64(UNIT).difference(t);
    let s3 = s.product(Float64(THREE));
    let ss = s.product(s);
    let ss3 = ss.product(Float64(THREE));
    let sss = ss.product(s);
    lemma_est_exact(a, k);
    lemma_est_exact(b, k);
    lemma_est_exact(c, k);
    lemma_est_exact(e, k);
    assert(k * (3 * u) == (3 * k) * u && (4 * k) * u == u * (4 * k) && (7 * k) * u == u * (7 * k))
        by (nonlinear_arith);
    let uu = u * u;
    let uuu = uu * u;
    assert(u * u * u == uuu);
    lemma_est_product(c, c.value(), 1, k, 0, s3, 3 * r, 1, 3 * u, 7, 3 * k);
    lemma_est_product(e, e.value(), 1, k, 0, t, tv, 1, u, 0, k);
    assert(1 * 1 * u == u);
    let cs = c.product(s3);
    let et = e.product(t);
    lemma_est_sum(cs, c.value() * (3 * r), 3 * k, 12, et, e.value() * tv, k, 5, u);
    let tail = cs.sum(et);
    let n1 = c.value() * (3 * r) + e.value() * tv;
    lemma_est_product(b, b.value(), 1, k, 0, ss3, 3 * (r * r), u, 3 * u, 21, 3 * k);
    lemma_est_product(tail, n1, u, 4 * k, 21, t, tv, 1, u, 0, 4 * k);
    assert(1 * u * u == uu && u * 1 * u == uu) by (nonlinear_arith)
        requires
            uu == u * u,
    ;
    let bs = b.product(ss3);
    let tt = tail.product(t);
    let n2 = b.value() * (3 * (r * r)) + n1 * tv;
    lemma_est_sum(bs, b.value() * (3 * (r * r)), 3 * k, 26, tt, n1 * tv, 4 * k, 47, uu);
    let rest = bs.sum(tt);
    lemma_est_product(a, a.value(), 1, k, 0, sss, r * r * r, uu, u, 22, k);
    lemma_est_product(rest, n2, uu, 7 * k, 77, t, tv, 1, u, 0, 7 * k);
    assert(1 * uu * u == uuu && uu * 1 * u == uuu) by (nonlinear_arith)
        requires
            uuu == uu * u,
    ;
    let asss = a.product(sss);
    let rt = rest.product(t);
    lemma_est_sum(asss, a.value() * (r * r * r), k, 27, rt, n2 * tv, 7 * k, 159, uuu);
    lemma_bernstein_identity(a.value(), b.value(), c.value(), e.value(), tv, r, u);
    let ku = k * uuu;
    assert(190 * ((k + 7 * k) * uuu) == 1520 * ku && ku >= 0) by (nonlinear_arith)
        requires
            ku == k * uuu,
            k >= 0,
            uuu > 0,
    ;
}

/// The point of a curve at the parameter `t` is the point of the cubic with its control points,
/// up to `2^-41` of the size of their coordinates.
pub proof fn lemma_curve_runs_along_its_cubic(curve: Cubic, t: Float64, k: int)
    requires
        pow2(1074) <= k <= power(85),
        reaches(curve.start.x, k) && reaches(curve.start.y, k),
        reaches(curve.lead.x, k) && reaches(curve.lead.y, k),
        reaches(curve.trail.x, k) && reaches(curve.trail.y, k),
        reaches(curve.end.x, k) && reaches(curve.end.y, k),
        parameter(t),
    ensures
        ({
            let u = pow2(1074) as int;
            let z = curve.at(t);
            &&& z.x.finite() && z.y.finite()
            &&& 0x200_0000_0000 * distance(
                z.x.value() * (u * u * u),
                bernstein(
                    curve.start.x.value(),
                    curve.lead.x.value(),
                    curve.trail.x.value(),
                    curve.end.x.value(),
                    t.value(),
                    u,
                ),
            ) <= k * (u * u * u)
            &&& 0x200_0000_0000 * distance(
                z.y.value() * (u * u * u),
                bernstein(
                    curve.start.y.value(),
                    curve.lead.y.value(),
                    curve.trail.y.value(),
                    curve.end.y.value(),
                    t.value(),
                    u,
                ),
            ) <= k * (u * u * u)
        }),
{
    reveal(Cubic::at);
    lemma_coordinate(curve.start.x, curve.lead.x, curve.trail.x, curve.end.x, t, k);
    lemma_coordinate(curve.start.y, curve.lead.y, curve.trail.y, curve.end.y, t, k);
}

/// A coordinate of the derivative of a curve, from those of its control points.
spec fn slope(a: Float64, b: Float64, c: Float64, e: Float64, t: Float64) -> Float64 {
    let s = Float64(UNIT).difference(t);
    let d0 = b.difference(a).product(Float64(THREE));
    let d1 = c.difference(b).product(Float64(THREE));
    let d2 = e.difference(c).product(Float64(THREE));
    d0.product(s.product(s)).sum(
        d1.product(s.product(Float64(TWO))).sum(d2.product(t)).product(t),
    )
}

/// The derivative of the cubic with the given control points, over the square of the unit.
pub open spec fn bernstein_slope(a: int, b: int, c: int, e: int, t: int, u: int) -> int {
    let s = u - t;
    3 * ((b - a) * (s * s)) + 6 * ((c - b) * (s * t)) + 3 * ((e - c) * (t * t))
}

proof fn lemma_slope_identity(p: int, q: int, w: int, t: int, s: int)
    ensures
        (3 * p) * (s * s) + ((3 * q) * (2 * s) + (3 * w) * t) * t == 3 * (p * (s * s)) + 6 * (q * (s
            * t)) + 3 * (w * (t * t)),
{
    let ss = s * s;
    let st = s * t;
    let tt = t * t;
    let qs = q * s;
    let wt = w * t;
    assert((3 * q) * (2 * s) == 6 * qs && (3 * w) * t == 3 * wt) by (nonlinear_arith)
        requires
            qs == q * s,
            wt == w * t,
    ;
    assert((6 * qs + 3 * wt) * t == 6 * (qs * t) + 3 * (wt * t)) by (nonlinear_arith);
    assert(qs * t == q * st && wt * t == w * tt) by (nonlinear_arith)
        requires
            qs == q * s,
            wt == w * t,
            st == s * t,
            tt == t * t,
    ;
    assert((3 * p) * ss == 3 * (p * ss)) by (nonlinear_arith);
}

proof fn lemma_slope(a: Float64, b: Float64, c: Float64, e: Float64, t: Float64, k: int)
    requires
        reaches(a, k) && reaches(b, k) && reaches(c, k) && reaches(e, k),
        pow2(1074) <= k <= power(85),
        parameter(t),
    ensures
        ({
            let u = pow2(1074) as int;
            let z = slope(a, b, c, e, t);
            &&& z.finite()
            &&& 0x100_0000_0000 * distance(
                z.value() * (u * u),
                bernstein_slope(a.value(), b.value(), c.value(), e.value(), t.value(), u),
            ) <= k * (u * u)
        }),
{
    lemma_unit();
    lemma_rest_powers(t);
    let u = pow2(1074) as int;
    let uu = u * u;
    let tv = t.value();
    let r = u - tv;
    let s = Float64(UNIT).difference(t);
    let s2 = s.product(Float64(TWO));
    let ss = s.product(s);
    let p = b.value() - a.value();
    let q = c.value() - b.value();
    let w = e.value() - c.value();
    lemma_est_difference(b, a, k);
    lemma_est_difference(c, b, k);
    lemma_est_difference(e, c, k);
    lemma_est_multiple(b.difference(a), p, 1, 2 * k, 1, Float64(THREE), 3);
    lemma_est_multiple(c.difference(b), q, 1, 2 * k, 1, Float64(THREE), 3);
    lemma_est_multiple(e.difference(c), w, 1, 2 * k, 1, Float64(THREE), 3);
    let d0 = b.difference(a).product(Float64(THREE));
    let d1 = c.difference(b).product(Float64(THREE));
    let d2 = e.difference(c).product(Float64(THREE));
    assert((6 * k) * u == u * (6 * k) && (6 * k) * (2 * u) == (12 * k) * u) by (nonlinear_arith);
    lemma_est_product(d0, 3 * p, 1, 6 * k, 7, ss, r * r, u, u, 8, 6 * k);
    lemma_est_product(d1, 3 * q, 1, 6 * k, 7, s2, 2 * r, 1, 2 * u, 7, 12 * k);
    lemma_est_product(d2, 3 * w, 1, 6 * k, 7, t, tv, 1, u, 0, 6 * k);
    assert(1 * 1 * u == u && 1 * u * u == uu) by (nonlinear_arith)
        requires
            uu == u * u,
    ;
    let m = d1.product(s2);
    let l = d2.product(t);
    lemma_est_sum(m, (3 * q) * (2 * r), 12 * k, 26, l, (3 * w) * tv, 6 * k, 19, u);
    let inner = m.sum(l);
    let n = (3 * q) * (2 * r) + (3 * w) * tv;
    lemma_est_product(inner, n, u, 18 * k, 49, t, tv, 1, u, 0, 18 * k);
    assert(u * 1 * u == uu) by (nonlinear_arith)
        requires
            uu == u * u,
    ;
    let first = d0.product(ss);
    let last = inner.product(t);
    lemma_est_sum(first, (3 * p) * (r * r), 6 * k, 27, last, n * tv, 18 * k, 103, uu);
    lemma_slope_identity(p, q, w, tv, r);
    let ku = k * uu;
    assert(134 * ((6 * k + 18 * k) * uu) == 3216 * ku && ku >= 0) by (nonlinear_arith)
        requires
            ku == k * uu,
            k >= 0,
            uu >= 0,
    ;
}

/// The derivative of a curve at the parameter `t` is that of the cubic with its control points, up
/// to `2^-40` of the size of their coordinates.
pub proof fn lemma_curve_turns_as_its_cubic(curve: Cubic, t: Float64, k: int)
    requires
        pow2(1074) <= k <= power(85),
        reaches(curve.start.x, k) && reaches(curve.start.y, k),
        reaches(curve.lead.x, k) && reaches(curve.lead.y, k),
        reaches(curve.trail.x, k) && reaches(curve.trail.y, k),
        reaches(curve.end.x, k) && reaches(curve.end.y, k),
        parameter(t),
    ensures
        ({
            let u = pow2(1074) as int;
            let z = curve.velocity(t);
            &&& z.x.finite() && z.y.finite()
            &&& 0x100_0000_0000 * distance(
                z.x.value() * (u * u),
                bernstein_slope(
                    curve.start.x.value(),
                    curve.lead.x.value(),
                    curve.trail.x.value(),
                    curve.end.x.value(),
                    t.value(),
                    u,
                ),
            ) <= k * (u * u)
            &&& 0x100_0000_0000 * distance(
                z.y.value() * (u * u),
                bernstein_slope(
                    curve.start.y.value(),
                    curve.lead.y.value(),
                    curve.trail.y.value(),
                    curve.end.y.value(),
                    t.value(),
                    u,
                ),
            ) <= k * (u * u)
        }),
{
    reveal(Cubic::velocity);
    lemma_slope(curve.start.x, curve.lead.x, curve.trail.x, curve.end.x, t, k);
    lemma_slope(curve.start.y, curve.lead.y, curve.trail.y, curve.end.y, t, k);
}

/// The numbers behind the part of a way that a control point is moved by: `m` and `s` stand for
/// the middle interval `i` and the span, `w` for three times the span, `f` for the part.
proof fn lemma_part_arithmetic(
    i: int,
    span: int,
    t: int,
    m: int,
    s: int,
    w: int,
    f: int,
    u: int,
)
    requires
        0x100_0000_0000_0000 <= u,
        0 < i <= span <= t,
        0x10_0000_0000_0000 <= t,
        512 * t <= 0x10_0000_0000_0000 * i,
        0x10_0000_0000_0000 * distance(m, i) <= 8 * t,
        0x10_0000_0000_0000 * distance(s, span) <= 8 * t,
        0x10_0000_0000_0000 * distance(w, 3 * s) <= 3 * s + 0x10_0000_0000_0000,
        0 <= f,
        0x10_0000_0000_0000 * distance(f * w, m * u) <= m * u + 0x10_0000_0000_0000 * w,
    ensures
        f <= u,
        0x10_0000_0000_0000 * distance(f * (3 * span), i * u) <= 45 * (t * u),
{
    assert(0 < m && 8 * m <= 9 * i);
    assert(8 * s <= 9 * span && 8 * s >= 7 * span);
    assert(0x10_0000_0000_0000 <= 0x10_0000_0000_0000 * span);
    assert(2 * w >= 5 * span && w <= 4 * span + 1);
    let fw = f * w;
    let mu = m * u;
    let tu = t * u;
    let iu = i * u;
    let su = span * u;
    assert(0 < mu && 8 * mu <= 9 * su && su <= tu && iu <= su && 0 < iu) by (nonlinear_arith)
        requires
            mu == m * u,
            su == span * u,
            tu == t * u,
            iu == i * u,
            0 < m,
            8 * m <= 9 * i,
            0 < i,
            i <= span,
            span <= t,
            u > 0,
    ;
    assert(w <= su) by (nonlinear_arith)
        requires
            w <= 4 * span + 1,
            su == span * u,
            span >= 1,
            u >= 0x100_0000_0000_0000,
    ;
    assert(0x1000 * fw <= 0x1001 * mu + 0x1000 * w);
    assert(0x40_0000_0000 * w <= su) by (nonlinear_arith)
        requires
            w <= 4 * span + 1,
            su == span * u,
            span >= 1,
            u >= 0x100_0000_0000_0000,
    ;
    assert(fw <= 2 * su);
    assert(f <= u) by (nonlinear_arith)
        requires
            fw == f * w,
            fw <= 2 * su,
            su == span * u,
            2 * w >= 5 * span,
            span > 0,
            f >= 0,
            u > 0,
    ;
    let off = 3 * span - w;
    assert(0x10_0000_0000_0000 * size(off) <= 31 * t);
    lemma_bounded_product(f, 0x10_0000_0000_0000 * off, u, 31 * t);
    let fo = f * off;
    assert(f * (0x10_0000_0000_0000 * off) == 0x10_0000_0000_0000 * fo && u * (31 * t) == 31 * tu)
        by (nonlinear_arith)
        requires
            fo == f * off,
            tu == t * u,
    ;
    let om = m - i;
    let omu = om * u;
    lemma_bounded_product(0x10_0000_0000_0000 * om, u, 8 * t, u);
    assert((0x10_0000_0000_0000 * om) * u == 0x10_0000_0000_0000 * omu && (8 * t) * u == 8 * tu
        && mu == iu + omu) by (nonlinear_arith)
        requires
            omu == om * u,
            tu == t * u,
            om == m - i,
            mu == m * u,
            iu == i * u,
    ;
    assert(f * (3 * span) == fo + fw) by (nonlinear_arith)
        requires
            off == 3 * span - w,
            fo == f * off,
            fw == f * w,
    ;
    assert(0x10_0000_0000_0000 * w <= 4 * tu) by (nonlinear_arith)
        requires
            w <= 4 * span + 1,
            span <= t,
            t >= 0x10_0000_0000_0000,
            tu == t * u,
            u >= 0x100_0000_0000_0000,
    ;
}

proof fn lemma_control_arithmetic(
    p: int,
    way: int,
    w: int,
    f: int,
    g: int,
    z: int,
    i: int,
    span: int,
    t: int,
    k: int,
    u: int,
)
    requires
        0x100_0000_0000_0000 <= u <= k,
        0 < span <= t,
        size(p) <= k,
        size(way) <= 2 * k,
        0x10_0000_0000_0000 * distance(w, way) <= size(way),
        0 <= f <= u,
        0x10_0000_0000_0000 * distance(f * (3 * span), i * u) <= 45 * (t * u),
        0x10_0000_0000_0000 * distance(g * u, w * f) <= size(w * f) + 0x10_0000_0000_0000 * u,
        0x10_0000_0000_0000 * distance(z, p + g) <= size(p + g),
    ensures
        0x2000_0000_0000 * distance((z - p) * (3 * span), way * i) <= k * t,
{
    let ku = k * u;
    let wf = w * f;
    lemma_bounded_product(w, f, 3 * k, u);
    assert((3 * k) * u == 3 * ku && 0x10_0000_0000_0000 * u <= ku) by (nonlinear_arith)
        requires
            ku == k * u,
            k >= 0x10_0000_0000_0000,
            u > 0,
    ;
    let gu = g * u;
    assert(-(4 * ku) <= gu <= 4 * ku);
    assert(-(4 * k) <= g <= 4 * k) by (nonlinear_arith)
        requires
            gu == g * u,
            -(4 * ku) <= gu <= 4 * ku,
            ku == k * u,
            u > 0,
    ;
    let o1 = z - (p + g);
    let o1u = o1 * u;
    assert(0x10_0000_0000_0000 * size(o1) <= 5 * k);
    lemma_bounded_product(0x10_0000_0000_0000 * o1, u, 5 * k, u);
    assert((0x10_0000_0000_0000 * o1) * u == 0x10_0000_0000_0000 * o1u && (5 * k) * u == 5 * ku)
        by (nonlinear_arith)
        requires
            o1u == o1 * u,
            ku == k * u,
    ;
    let o2 = gu - wf;
    assert(0x10_0000_0000_0000 * size(o2) <= 4 * ku);
    let o3 = w - way;
    let o3f = o3 * f;
    lemma_bounded_product(0x10_0000_0000_0000 * o3, f, 2 * k, u);
    assert((0x10_0000_0000_0000 * o3) * f == 0x10_0000_0000_0000 * o3f && (2 * k) * u == 2 * ku)
        by (nonlinear_arith)
        requires
            o3f == o3 * f,
            ku == k * u,
    ;
    let yf = way * f;
    assert(wf == yf + o3f) by (nonlinear_arith)
        requires
            wf == w * f,
            yf == way * f,
            o3 == w - way,
            o3f == o3 * f,
    ;
    // What the control point is off, times the unit.
    let off = o1u + o2 + o3f;
    assert(0x10_0000_0000_0000 * size(off) <= 11 * ku);
    let zp = z - p;
    let s3 = 3 * span;
    assert(zp * u == yf + off) by (nonlinear_arith)
        requires
            zp == z - p,
            o1 == z - (p + g),
            o1u == o1 * u,
            gu == g * u,
            gu == wf + o2,
            wf == yf + o3f,
            off == o1u + o2 + o3f,
    ;
    let os = off * s3;
    let kt = k * t;
    let ktu = kt * u;
    lemma_bounded_product(0x10_0000_0000_0000 * off, s3, 11 * ku, 3 * t);
    assert((0x10_0000_0000_0000 * off) * s3 == 0x10_0000_0000_0000 * os && (11 * ku) * (3 * t) == 33
        * ktu) by (nonlinear_arith)
        requires
            os == off * s3,
            ku == k * u,
            kt == k * t,
            ktu == kt * u,
    ;
    let fs = f * s3;
    let iu = i * u;
    let o4 = fs - iu;
    let tu = t * u;
    let yo = way * o4;
    lemma_bounded_product(way, 0x10_0000_0000_0000 * o4, 2 * k, 45 * tu);
    assert(way * (0x10_0000_0000_0000 * o4) == 0x10_0000_0000_0000 * yo && (2 * k) * (45 * tu) == 90
        * ktu) by (nonlinear_arith)
        requires
            yo == way * o4,
            tu == t * u,
            kt == k * t,
            ktu == kt * u,
    ;
    let yi = way * i;
    let zs = zp * s3;
    assert(zs * u == yi * u + yo + os) by {
        assert(zs * u == (zp * u) * s3) by (nonlinear_arith)
            requires
                zs == zp * s3,
        ;
        let zpu = zp * u;
        assert(zpu * s3 == yf * s3 + os) by (nonlinear_arith)
            requires
                zpu == yf + off,
                os == off * s3,
        ;
        assert(yf * s3 == way * fs) by (nonlinear_arith)
            requires
                yf == way * f,
                fs == f * s3,
        ;
        assert(way * fs == way * iu + yo) by (nonlinear_arith)
            requires
                o4 == fs - iu,
                yo == way * o4,
        ;
        assert(way * iu == yi * u) by (nonlinear_arith)
            requires
                iu == i * u,
                yi == way * i,
        ;
    }
    let gap = zs - yi;
    assert(gap * u == zs * u - yi * u) by (nonlinear_arith)
        requires
            gap == zs - yi,
    ;
    let gapu = gap * u;
    assert(-ktu <= 0x2000_0000_0000 * gapu <= ktu);
    assert(-kt <= 0x2000_0000_0000 * gap <= kt) by (nonlinear_arith)
        requires
            gapu == gap * u,
            ktu == kt * u,
            -ktu <= 0x2000_0000_0000 * gapu <= ktu,
            u > 0,
    ;
}

/// The knots that the intervals lead to, and the spans between them.
proof fn lemma_knots(i1: Float64, i2: Float64, i3: Float64)
    requires
        within(i1, 21) && within(i2, 21) && within(i3, 21),
        i1.finite() && i2.finite() && i3.finite(),
        i1.value() > 0 && i2.value() > 0 && i3.value() > 0,
    ensures
        ({
            let k1 = Float64(0).sum(i1);
            let k2 = k1.sum(i2);
            let k3 = k2.sum(i3);
            let m = k2.difference(k1);
            let s1 = k2.difference(Float64(0));
            let s2 = k3.difference(k1);
            let t = i1.value() + i2.value() + i3.value();
            &&& m.finite() && s1.finite() && s2.finite()
            &&& 0x10_0000_0000_0000 * distance(m.value(), i2.value()) <= 8 * t
            &&& 0x10_0000_0000_0000 * distance(s1.value(), i1.value() + i2.value()) <= 8 * t
            &&& 0x10_0000_0000_0000 * distance(s2.value(), i2.value() + i3.value()) <= 8 * t
        }),
{
    let zero = Float64(0);
    crate::float64::lemma_step(0, 0);
    assert(zero.value() == 0);
    let k1 = zero.sum(i1);
    lemma_sum_within(zero, i1, 21);
    lemma_sum_error(zero, i1);
    let k2 = k1.sum(i2);
    lemma_sum_within(k1, i2, 22);
    lemma_sum_error(k1, i2);
    let k3 = k2.sum(i3);
    lemma_sum_within(k2, i3, 23);
    lemma_sum_error(k2, i3);
    lemma_difference_within(k2, k1, 23);
    lemma_difference_error(k2, k1);
    lemma_difference_within(k2, zero, 23);
    lemma_difference_error(k2, zero);
    lemma_difference_within(k3, k1, 24);
    lemma_difference_error(k3, k1);
}

/// The part of a way that a control point is moved by, from the knots.
proof fn lemma_part(m: Float64, s: Float64, i: int, span: int, t: int)
    requires
        m.finite() && s.finite(),
        Float64(EPSILON).value() <= i,
        2 * Float64(EPSILON).value() <= span,
        i <= span <= t <= 4 * power(21),
        0x10_0000_0000_0000 * distance(m.value(), i) <= 8 * t,
        0x10_0000_0000_0000 * distance(s.value(), span) <= 8 * t,
    ensures
        ({
            let u = pow2(1074) as int;
            let f = control_fraction(m, s);
            &&& f.finite()
            &&& 0 <= f.value() <= u
            &&& 0x10_0000_0000_0000 * distance(f.value() * (3 * span), i * u) <= 45 * (t * u)
        }),
{
    lemma_unit();
    lemma_epsilon();
    let u = pow2(1074) as int;
    let eps = Float64(EPSILON);
    let three = Float64(THREE);
    assert(512 * t <= 2048 * power(21));
    assert(0x10_0000_0000_0000 * power(-20) <= 0x10_0000_0000_0000 * i);
    assert(512 * t <= 0x10_0000_0000_0000 * i);
    assert(m.value() > 0 && s.value() > eps.value());
    assert(m.value() <= power(24) && s.value() <= power(24));
    lemma_within(m, 24);
    lemma_within(s, 24);
    crate::float64::lemma_order_is_order_of_values(eps, s);
    assert(s.larger(eps) == s);
    lemma_within(s, -20);
    lemma_not_negative(m);
    lemma_not_negative(s);
    crate::float64::bounds::lemma_product_bounds(s, three, -20, 1, 24, 2);
    let w = s.product(three);
    lemma_product_near(s, three);
    lemma_within(w, 26);
    lemma_within(w, -19);
    let sv = s.value();
    let wv = w.value();
    assert(sv * (3 * u) == (3 * sv) * u) by (nonlinear_arith);
    lemma_whole_product(wv, 3 * sv, u);
    crate::float64::bounds::lemma_quotient_within(m, w, 24, -19);
    let f = m.quotient(w);
    lemma_value_is_not_negative(w);
    crate::float64::error::lemma_quotient_near(m, w);
    lemma_value_is_not_negative(f);
    lemma_part_arithmetic(i, span, t, m.value(), sv, wv, f.value(), u);
}

/// A rounded multiple of the unit is near that multiple.
proof fn lemma_whole_product(a: int, b: int, u: int)
    requires
        u > 0,
        b >= 0,
        0x10_0000_0000_0000 * distance(a * u, b * u) <= size(b * u) + 0x10_0000_0000_0000 * u,
    ensures
        0x10_0000_0000_0000 * distance(a, b) <= b + 0x10_0000_0000_0000,
{
    let o = a - b;
    assert(a * u - b * u == o * u && b * u >= 0) by (nonlinear_arith)
        requires
            o == a - b,
            b >= 0,
            u > 0,
    ;
    let m = b + 0x10_0000_0000_0000;
    assert(m * u == b * u + 0x10_0000_0000_0000 * u) by (nonlinear_arith)
        requires
            m == b + 0x10_0000_0000_0000,
    ;
    assert(-m <= 0x10_0000_0000_0000 * o <= m) by (nonlinear_arith)
        requires
            -(m * u) <= 0x10_0000_0000_0000 * (o * u) <= m * u,
            u > 0,
    ;
}

pub(crate) proof fn lemma_not_negative(x: Float64)
    requires
        x.finite(),
        x.value() > 0,
    ensures
        !x.negative(),
{
    crate::float64::lemma_step(0, 0);
    if x.magnitude() > 0 {
        crate::float64::lemma_magnitude_value_increases(0, x.magnitude());
    }
}

pub(crate) proof fn lemma_value_is_not_negative(x: Float64)
    requires
        x.finite(),
        !x.negative(),
    ensures
        x.value() >= 0,
        !x.zero() ==> x.value() > 0,
{
    crate::float64::lemma_step(0, 0);
    if x.magnitude() > 0 {
        crate::float64::lemma_magnitude_value_increases(0, x.magnitude());
    }
}

proof fn lemma_epsilon()
    ensures
        Float64(EPSILON).finite(),
        power(-20) <= Float64(EPSILON).value() <= power(-19),
        power(24) == 8 * power(21),
        0x10_0000_0000_0000 * power(-20) >= 2048 * power(21),
        power(-20) >= 0x10_0000_0000_0000,
{
    let eps = Float64(EPSILON);
    lemma_within(eps, -20);
    lemma_within(eps, -19);
    lemma_value_is_not_negative(eps);
    lemma2_to64();
    lemma2_to64_rest();
    lemma_pow2_adds(3, 1095);
    lemma_pow2_adds(52, 1054);
    lemma_pow2_adds(11, 1095);
    lemma_pow2_strictly_increases(1094, 1095);
    lemma_pow2_strictly_increases(52, 1054);
}

/// An interval between knots is a number of at least `EPSILON`.
proof fn lemma_interval(way: Vector)
    requires
        vector_within(way, 41),
    ensures
        knot_interval(way).finite(),
        within(knot_interval(way), 21),
        Float64(EPSILON).value() <= knot_interval(way).value() <= power(21),
{
    lemma_epsilon();
    lemma_knot_interval(way);
    let i = knot_interval(way);
    lemma_within(i, 21);
    lemma_value_is_not_negative(i);
    let root = way.length().root();
    lemma_length_within(way, 41);
    lemma_root_within(way.length(), 21);
    crate::float64::lemma_order_is_order_of_values(Float64(EPSILON), root);
    crate::float64::lemma_order_is_order_of_values(root, Float64(EPSILON));
}

/// A control point that is moved by a part of a way.
proof fn lemma_control(
    p: Float64,
    to: Float64,
    from: Float64,
    f: Float64,
    i: int,
    span: int,
    t: int,
    k: int,
)
    requires
        pow2(1074) <= k <= power(40),
        reaches(p, k) && reaches(to, k) && reaches(from, k),
        0 < span <= t,
        f.finite(),
        0 <= f.value() <= pow2(1074),
        0x10_0000_0000_0000 * distance(f.value() * (3 * span), i * pow2(1074)) <= 45 * (t * pow2(
            1074,
        )),
    ensures
        ({
            let way = to.value() - from.value();
            let g = to.difference(from).product(f);
            &&& p.sum(g).finite() && p.difference(g).finite()
            &&& 0x2000_0000_0000 * distance(
                (p.sum(g).value() - p.value()) * (3 * span),
                way * i,
            ) <= k * t
            &&& 0x2000_0000_0000 * distance(
                (p.value() - p.difference(g).value()) * (3 * span),
                way * i,
            ) <= k * t
        }),
{
    lemma_unit();
    let u = pow2(1074) as int;
    let way = to.value() - from.value();
    lemma_power_has_magnitude(40);
    lemma_within(to, 40);
    lemma_within(from, 40);
    lemma_within(p, 40);
    lemma_within(f, 0);
    lemma_difference_within(to, from, 40);
    lemma_difference_error(to, from);
    let w = to.difference(from);
    lemma_product_within(w, f, 41, 0);
    lemma_product_near(w, f);
    let g = w.product(f);
    crate::float64::bounds::lemma_next_power(40);
    lemma_within(p, 41);
    lemma_sum_within(p, g, 41);
    lemma_sum_error(p, g);
    lemma_difference_within(p, g, 41);
    lemma_difference_error(p, g);
    let (wv, fv, gv, pv) = (w.value(), f.value(), g.value(), p.value());
    lemma_control_arithmetic(pv, way, wv, fv, gv, p.sum(g).value(), i, span, t, k, u);
    assert((-gv) * u == -(gv * u) && (-wv) * fv == -(wv * fv) && (-way) * i == -(way * i))
        by (nonlinear_arith);
    let z = p.difference(g).value();
    lemma_control_arithmetic(pv, -way, -wv, fv, -gv, z, i, span, t, k, u);
    let s3 = 3 * span;
    let back = pv - z;
    assert(back * s3 == -((z - pv) * s3)) by (nonlinear_arith)
        requires
            back == pv - z,
    ;
}

/// A coordinate at most `k` in size of all four points of a curve.
pub open spec fn points_reach(p0: Point, p1: Point, p2: Point, p3: Point, k: int) -> bool {
    &&& reaches(p0.x, k) && reaches(p0.y, k)
    &&& reaches(p1.x, k) && reaches(p1.y, k)
    &&& reaches(p2.x, k) && reaches(p2.y, k)
    &&& reaches(p3.x, k) && reaches(p3.y, k)
}

/// The tangent at one end of a curve: what the control point lies from the end, three times,
/// is to the way between the neighbours what the middle interval is to the span of that way.
pub open spec fn tangent_follows(
    off: int,
    way: int,
    middle: int,
    span: int,
    t: int,
    k: int,
) -> bool {
    0x2000_0000_0000 * distance(off * (3 * span), way * middle) <= k * t
}

/// The curve through four points runs from the second to the third. Its tangent at each of the
/// two follows the way between the neighbours of that point, over the time between them, where the
/// time from one point to the next is the root of their distance.
pub proof fn lemma_curve_follows_its_neighbours(p0: Point, p1: Point, p2: Point, p3: Point, k: int)
    requires
        pow2(1074) <= k <= power(40),
        points_reach(p0, p1, p2, p3, k),
    ensures
        ({
            let curve = Cubic::through(p0, p1, p2, p3);
            let before = knot_interval(p1.way_from(p0)).value();
            let middle = knot_interval(p2.way_from(p1)).value();
            let after = knot_interval(p3.way_from(p2)).value();
            let t = before + middle + after;
            &&& curve.start == p1
            &&& curve.end == p2
            &&& 0 < before && 0 < middle && 0 < after
            &&& tangent_follows(
                curve.lead.x.value() - p1.x.value(),
                p2.x.value() - p0.x.value(),
                middle,
                before + middle,
                t,
                k,
            )
            &&& tangent_follows(
                curve.lead.y.value() - p1.y.value(),
                p2.y.value() - p0.y.value(),
                middle,
                before + middle,
                t,
                k,
            )
            &&& tangent_follows(
                p2.x.value() - curve.trail.x.value(),
                p3.x.value() - p1.x.value(),
                middle,
                middle + after,
                t,
                k,
            )
            &&& tangent_follows(
                p2.y.value() - curve.trail.y.value(),
                p3.y.value() - p1.y.value(),
                middle,
                middle + after,
                t,
                k,
            )
        }),
{
    reveal(Cubic::through);
    lemma_epsilon();
    lemma_unit();
    lemma_point_within(p0, k);
    lemma_point_within(p1, k);
    lemma_point_within(p2, k);
    lemma_point_within(p3, k);
    lemma_way_within(p1, p0, 40);
    lemma_way_within(p2, p1, 40);
    lemma_way_within(p3, p2, 40);
    lemma_interval(p1.way_from(p0));
    lemma_interval(p2.way_from(p1));
    lemma_interval(p3.way_from(p2));
    let i1 = knot_interval(p1.way_from(p0));
    let i2 = knot_interval(p2.way_from(p1));
    let i3 = knot_interval(p3.way_from(p2));
    lemma_knots(i1, i2, i3);
    let zero = Float64(0);
    let k1 = zero.sum(i1);
    let k2 = k1.sum(i2);
    let k3 = k2.sum(i3);
    let m = k2.difference(k1);
    let t = i1.value() + i2.value() + i3.value();
    let i = i2.value();
    let s1 = i1.value() + i2.value();
    let s2 = i2.value() + i3.value();
    let out = control_fraction(m, k2.difference(zero));
    let back = control_fraction(m, k3.difference(k1));
    lemma_part(m, k2.difference(zero), i, s1, t);
    lemma_part(m, k3.difference(k1), i, s2, t);
    lemma_control(p1.x, p2.x, p0.x, out, i, s1, t, k);
    lemma_control(p1.y, p2.y, p0.y, out, i, s1, t, k);
    lemma_control(p2.x, p3.x, p1.x, back, i, s2, t, k);
    lemma_control(p2.y, p3.y, p1.y, back, i, s2, t, k);
}

proof fn lemma_point_within(p: Point, k: int)
    requires
        reaches(p.x, k) && reaches(p.y, k),
        k <= power(40),
    ensures
        point_within(p, 40),
{
    lemma_within(p.x, 40);
    lemma_within(p.y, 40);
}

/// The time from one point to the next is the root of their distance: its square is that
/// distance, up to 2 parts in `2^52`.
pub proof fn lemma_interval_is_the_root_of_the_distance(way: Vector)
    requires
        vector_within(way, 41),
        !way.length().below(Float64(EPSILON)),
    ensures
        ({
            let i = knot_interval(way).value();
            let length = way.length().value() * pow2(1074);
            &&& i > 0
            &&& 0x10_0000_0000_0000 * (i * i) <= 0x10_0000_0000_0002 * length
            &&& 0x10_0000_0000_0000 * length <= 0x10_0000_0000_0002 * (i * i)
        }),
{
    lemma_epsilon();
    lemma_length_within(way, 41);
    let length = way.length();
    let root = length.root();
    lemma_root_within(length, 21);
    crate::float64::lemma_order_is_order_of_values(length, Float64(EPSILON));
    lemma_within(length, -20);
    lemma_root_beyond(length, -10);
    lemma_within(root, -10);
    lemma_within(root, -19);
    lemma_pow2_strictly_increases(1055, 1064);
    lemma_value_is_not_negative(length);
    lemma_value_is_not_negative(root);
    crate::float64::lemma_order_is_order_of_values(root, Float64(EPSILON));
    crate::float64::lemma_order_is_order_of_values(Float64(EPSILON), root);
    lemma_root_error(length);
}

} // verus!
