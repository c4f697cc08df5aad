//! Where the rims of round caps and discs run, how their angles and the steps along a curve are
//! divided, and how long a pixel is on the page. Values are in units of `2^-1074`, so that 1
//! is `pow2(1074)`.

use crate::curve::EPSILON;
use crate::curve_laws::{
    est, lemma_est_exact, lemma_est_product, lemma_est_sum, lemma_small_unit, lemma_unit,
    lemma_value_is_not_negative, reaches,
};
use crate::float32::Float32;
use crate::float64::bounds::{lemma_within, power, within};
use crate::float64::error::{
    distance, lemma_product_near, lemma_quotient_near, lemma_rounding_error, size,
};
use crate::float64::{lemma_rounding_exists, rounded, Float64};
use crate::geometry::Point;
use crate::page_border::{border_thickness, BORDER_PX};
use crate::ribbon::cap::{angle_at, cap_of, disc_vertices, Cap, UnitDirection};
use crate::ribbon::extent::vector_within;
use crate::ribbon::shape::{lemma_divided_points_along, lemma_negated, points_along};
use crate::ribbon::walk::{arc_at, arcs_along, pixel_length, steps};
use crate::vector::{Vector, UNIT};
use vstd::arithmetic::power2::*;
use vstd::prelude::*;

verus! {

/// A number is what it is, over any denominator.
proof fn lemma_est_over(x: Float64, b: int, d: int)
    requires
        reaches(x, b),
        0 < b <= power(300),
        0 < d,
    ensures
        est(x, x.value() * d, d, b, 0),
{
    let v = x.value();
    assert(-(b * d) <= v * d <= b * d) by (nonlinear_arith)
        requires
            -b <= v <= b,
            d > 0,
    ;
    assert(0 * (b * d) == 0);
}

/// The coordinate `z` is the way `n` from the coordinate `c`, up to `2^-44` of `k`; the way is over
/// the square of the unit.
#[verifier::opaque]
pub open spec fn lies_from(z: Float64, c: Float64, n: int, k: int) -> bool {
    let u = pow2(1074) as int;
    0x1000_0000_0000 * distance(z.value() * (u * u), c.value() * (u * u) + n) <= k * (u * u)
}

/// A coordinate of a vertex: `c` of the center, `p` and `q` of the two axes, weighed by `s` and
/// `t`, at the radius `r`.
proof fn lemma_vertex_coordinate(
    c: Float64,
    p: Float64,
    s: Float64,
    q: Float64,
    t: Float64,
    r: Float64,
    k: int,
)
    requires
        pow2(1074) <= k <= power(85),
        reaches(c, k) && reaches(r, k),
        reaches(p, 2 * pow2(1074) as int) && reaches(q, 2 * pow2(1074) as int),
        reaches(s, pow2(1074) as int) && reaches(t, pow2(1074) as int),
    ensures
        lies_from(
            c.sum(p.product(s).sum(q.product(t)).product(r)),
            c,
            (p.value() * s.value() + q.value() * t.value()) * r.value(),
            k,
        ),
{
    reveal(lies_from);
    lemma_unit();
    lemma_small_unit();
    let u = pow2(1074) as int;
    let uu = u * u;
    let (pv, sv, qv, tv, rv) = (p.value(), s.value(), q.value(), t.value(), r.value());
    lemma_est_exact(p, 2 * u);
    lemma_est_exact(q, 2 * u);
    lemma_est_exact(s, u);
    lemma_est_exact(t, u);
    lemma_est_exact(r, k);
    assert(1 * 1 * u == u && u * 1 * u == uu && uu > 0 && (4 * u) * k == (4 * k) * u)
        by (nonlinear_arith)
        requires
            uu == u * u,
            u > 0,
    ;
    lemma_est_product(p, pv, 1, 2 * u, 0, s, sv, 1, u, 0, 2 * u);
    lemma_est_product(q, qv, 1, 2 * u, 0, t, tv, 1, u, 0, 2 * u);
    let a = p.product(s);
    let b = q.product(t);
    lemma_est_sum(a, pv * sv, 2 * u, 5, b, qv * tv, 2 * u, 5, u);
    let m = a.sum(b);
    let n = pv * sv + qv * tv;
    lemma_est_product(m, n, u, 4 * u, 14, r, rv, 1, k, 0, 4 * k);
    lemma_est_over(c, k, uu);
    let g = m.product(r);
    lemma_est_sum(c, c.value() * uu, k, 0, g, n * rv, 4 * k, 33, uu);
    let ku = k * uu;
    assert(37 * ((k + 4 * k) * uu) == 185 * ku && ku >= 0) by (nonlinear_arith)
        requires
            ku == k * uu,
            k >= 0,
            uu >= 0,
    ;
}

/// The coordinate `z` is the way `n` from the coordinate `c`, up to `2^-44` of `k`; the way is over
/// the unit.
#[verifier::opaque]
pub open spec fn lies_beside(z: Float64, c: Float64, n: int, k: int) -> bool {
    let u = pow2(1074) as int;
    0x1000_0000_0000 * distance(z.value() * u, c.value() * u + n) <= k * u
}

/// The coordinate of a point that lies `p` times `r` from `c`, either way.
proof fn lemma_end_coordinate(c: Float64, p: Float64, r: Float64, k: int)
    requires
        pow2(1074) <= k <= power(85),
        reaches(c, k) && reaches(r, k),
        reaches(p, 2 * pow2(1074) as int),
    ensures
        lies_beside(c.sum(p.product(r)), c, p.value() * r.value(), k),
        lies_beside(c.difference(p.product(r)), c, -(p.value() * r.value()), k),
{
    reveal(lies_beside);
    lemma_unit();
    lemma_small_unit();
    let u = pow2(1074) as int;
    let (pv, rv) = (p.value(), r.value());
    lemma_est_exact(p, 2 * u);
    lemma_est_exact(r, k);
    assert((2 * u) * k == (2 * k) * u && 1 * 1 * u == u) by (nonlinear_arith);
    lemma_est_product(p, pv, 1, 2 * u, 0, r, rv, 1, k, 0, 2 * k);
    let g = p.product(r);
    lemma_est_over(c, k, u);
    lemma_est_sum(c, c.value() * u, k, 0, g, pv * rv, 2 * k, 5, u);
    let h = g.negated();
    lemma_negated(g);
    assert(h.value() * u == -(g.value() * u)) by (nonlinear_arith)
        requires
            h.value() == -g.value(),
    ;
    assert(est(h, -(pv * rv), u, 2 * k, 5));
    lemma_est_sum(c, c.value() * u, k, 0, h, -(pv * rv), 2 * k, 5, u);
    let ku = k * u;
    assert(9 * ((k + 2 * k) * u) == 27 * ku && ku >= 0) by (nonlinear_arith)
        requires
            ku == k * u,
            k >= 0,
            u >= 0,
    ;
}

/// A cap whose numbers are at most `k` in size, facing in a direction.
pub open spec fn cap_reaches(cap: Cap, k: int) -> bool {
    &&& pow2(1074) <= k <= power(85)
    &&& reaches(cap.center.x, k) && reaches(cap.center.y, k) && reaches(cap.radius, k)
    &&& reaches(cap.outward.x, 2 * pow2(1074) as int)
    &&& reaches(cap.outward.y, 2 * pow2(1074) as int)
}

/// A vertex of a cap lies at its radius from its center, at its angle from the first end of the
/// rim: the sine counts in the direction in which the cap bulges, and the cosine a quarter turn on
/// from it.
pub proof fn lemma_rim_runs_round_the_center(cap: Cap, d: UnitDirection, k: int)
    requires
        cap_reaches(cap, k),
        reaches(d.cos, pow2(1074) as int) && reaches(d.sin, pow2(1074) as int),
    ensures
        ({
            let (ox, oy) = (cap.outward.x.value(), cap.outward.y.value());
            let (cos, sin) = (d.cos.value(), d.sin.value());
            let r = cap.radius.value();
            &&& lies_from(cap.vertex(d).x, cap.center.x, (ox * sin - oy * cos) * r, k)
            &&& lies_from(cap.vertex(d).y, cap.center.y, (ox * cos + oy * sin) * r, k)
        }),
{
    let o = cap.outward;
    lemma_negated(o.y);
    let (ox, oy) = (o.x.value(), o.y.value());
    let (cos, sin) = (d.cos.value(), d.sin.value());
    let bv = o.y.negated().value();
    assert(bv * cos + ox * sin == ox * sin - oy * cos) by (nonlinear_arith)
        requires
            bv == -oy,
    ;
    lemma_vertex_coordinate(cap.center.x, o.y.negated(), d.cos, o.x, d.sin, cap.radius, k);
    lemma_vertex_coordinate(cap.center.y, o.x, d.cos, o.y, d.sin, cap.radius, k);
}

/// The rim of a cap begins a quarter turn on from where it bulges, at its radius from its center,
/// and ends on the other side.
pub proof fn lemma_rim_ends_on_both_sides(cap: Cap, inner: Seq<UnitDirection>, k: int)
    requires
        cap_reaches(cap, k),
    ensures
        ({
            let rim = cap.rim(inner);
            let (ox, oy) = (cap.outward.x.value(), cap.outward.y.value());
            let r = cap.radius.value();
            &&& rim.len() == inner.len() + 2
            &&& lies_beside(rim[0].x, cap.center.x, -(oy * r), k)
            &&& lies_beside(rim[0].y, cap.center.y, ox * r, k)
            &&& lies_beside(rim.last().x, cap.center.x, oy * r, k)
            &&& lies_beside(rim.last().y, cap.center.y, -(ox * r), k)
            &&& forall|i: int|
                0 <= i < inner.len() ==> #[trigger] rim[i + 1] == cap.vertex(inner[i])
        }),
{
    let o = cap.outward;
    lemma_negated(o.y);
    let oy = o.y.value();
    let bv = o.y.negated().value();
    let r = cap.radius.value();
    assert(bv * r == -(oy * r)) by (nonlinear_arith)
        requires
            bv == -oy,
    ;
    lemma_end_coordinate(cap.center.x, o.y.negated(), cap.radius, k);
    lemma_end_coordinate(cap.center.y, o.x, cap.radius, k);
}

/// The first vertex of a disc lies on its right, and every other one at its radius in its
/// direction.
pub proof fn lemma_disc_runs_round_its_center(
    center: Point,
    radius: Float64,
    inner: Seq<UnitDirection>,
    i: int,
    k: int,
)
    requires
        pow2(1074) <= k <= power(85),
        reaches(center.x, k) && reaches(center.y, k) && reaches(radius, k),
        0 <= i < inner.len(),
        reaches(inner[i].cos, pow2(1074) as int) && reaches(inner[i].sin, pow2(1074) as int),
    ensures
        ({
            let all = disc_vertices(center, radius, inner);
            let v = all[i + 1];
            let r = radius.value();
            &&& all.len() == inner.len() + 1
            &&& all[0].x == center.x.sum(radius)
            &&& all[0].y == center.y.sum(Float64(0))
            &&& lies_beside(v.x, center.x, r * inner[i].cos.value(), k)
            &&& lies_beside(v.y, center.y, r * inner[i].sin.value(), k)
        }),
{
    lemma_disc_coordinate(center.x, radius, inner[i].cos, k);
    lemma_disc_coordinate(center.y, radius, inner[i].sin, k);
}

proof fn lemma_disc_coordinate(c: Float64, r: Float64, d: Float64, k: int)
    requires
        pow2(1074) <= k <= power(85),
        reaches(c, k) && reaches(r, k),
        reaches(d, pow2(1074) as int),
    ensures
        lies_beside(c.sum(r.product(d)), c, r.value() * d.value(), k),
{
    reveal(lies_beside);
    lemma_unit();
    lemma_small_unit();
    let u = pow2(1074) as int;
    lemma_est_exact(r, k);
    lemma_est_exact(d, u);
    assert(1 * 1 * u == u) by (nonlinear_arith);
    lemma_est_product(r, r.value(), 1, k, 0, d, d.value(), 1, u, 0, k);
    lemma_est_over(c, k, u);
    let g = r.product(d);
    lemma_est_sum(c, c.value() * u, k, 0, g, r.value() * d.value(), k, 5, u);
    let ku = k * u;
    assert(9 * ((k + k) * u) == 18 * ku && ku >= 0) by (nonlinear_arith)
        requires
            ku == k * u,
            k >= 0,
            u >= 0,
    ;
}

/// A cap stands at the end that it is for, faces where it was asked to, and has the radius that it
/// was given. There is none without a radius above 0 or without a direction.
pub proof fn lemma_cap_faces_outward(
    center: Point,
    outward: Vector,
    radius: Float32,
    screen_scale: Float64,
)
    requires
        vector_within(outward, 200),
        Float64::widened(radius).finite(),
    ensures
        ({
            let cap = cap_of(center, outward, radius, screen_scale);
            &&& cap is Some <==> Float64::widened(radius).value() > 0 && !outward.length().below(
                Float64(EPSILON),
            )
            &&& cap is Some ==> {
                &&& cap->0.center == center
                &&& cap->0.radius == Float64::widened(radius)
                &&& points_along(cap->0.outward, outward)
            }
        }),
{
    let r = Float64::widened(radius);
    crate::float64::lemma_step(0, 0);
    crate::float64::lemma_order_is_order_of_values(Float64(0), r);
    crate::float64::lemma_order_is_order_of_values(r, Float64(0));
    if !outward.length().below(Float64(EPSILON)) {
        lemma_divided_points_along(outward);
    }
}

/// A whole number is near itself as a number.
proof fn lemma_whole(n: nat)
    requires
        0 < n <= 0x1_0000_0000_0000,
    ensures
        ({
            let x = Float64::of_whole(n);
            let v = (n * pow2(1074)) as int;
            &&& x.finite() && !x.negative()
            &&& 0x10_0000_0000_0000 * distance(x.value(), v) <= v
        }),
{
    lemma_unit();
    let u = pow2(1074) as int;
    let v = n * u;
    assert(u <= v <= 0x1_0000_0000_0000 * u) by (nonlinear_arith)
        requires
            v == n * u,
            0 < n <= 0x1_0000_0000_0000,
            u > 0,
    ;
    lemma2_to64_rest();
    lemma_pow2_adds(48, 1074);
    assert(power(48) == 0x1_0000_0000_0000 * u);
    assert(power(48) * 1 == power(48));
    crate::float64::bounds::lemma_rounded_within(v, 1, 48);
    lemma_rounding_exists(v, 1);
    let r = rounded(v, 1);
    assert(r >= 0x10_0000_0000_0000) by {
        crate::float64::lemma_exact_value_rounds_to_itself(0x3ff0_0000_0000_0000, 1);
        crate::float64::lemma_rounding_is_monotone(u, 1, 0x3ff0_0000_0000_0000, v, 1, r);
    }
    lemma_rounding_error(v, 1, r);
    assert(crate::float64::magnitude_value(r) * 1 == crate::float64::magnitude_value(r));
}

/// A pixel of the screen is as long on the page as it takes: so many times the scale is 1.
pub proof fn lemma_pixel_times_scale_is_one(scale: Float64)
    requires
        scale.finite(),
        scale.value() > 0,
        within(scale, 100),
        power(-100) <= scale.value(),
    ensures
        ({
            let u = pow2(1074) as int;
            let p = pixel_length(scale).value();
            let b = border_thickness(scale).value();
            &&& 0x8_0000_0000_0000 * distance(p * scale.value(), u * u) <= u * u
            &&& 0x2_0000_0000_0000 * distance(2 * (b * scale.value()), 3 * (u * u)) <= u * u
        }),
{
    lemma_unit();
    let u = pow2(1074) as int;
    crate::float64::lemma_step(0, 0);
    crate::float64::lemma_order_is_order_of_values(Float64(0), scale);
    crate::curve_laws::lemma_not_negative(scale);
    lemma_within(scale, -100);
    let one = Float64(UNIT);
    let border = Float64(BORDER_PX);
    assert(2 * border.value() == 3 * u) by {
        lemma2_to64_rest();
        lemma_pow2_adds(52, 1022);
        let m: int = 0x3ff8_0000_0000_0000;
        assert(m / 0x10_0000_0000_0000 == 1023 && m % 0x10_0000_0000_0000 == 0x8_0000_0000_0000);
        assert(0x10_0000_0000_0000 * pow2(1022) == pow2(1074));
    }
    assert(within(border, 1));
    crate::float64::bounds::lemma_quotient_within(one, scale, 0, -100);
    crate::float64::bounds::lemma_quotient_within(border, scale, 1, -100);
    lemma_quotient_near(one, scale);
    lemma_quotient_near(border, scale);
    let uu = u * u;
    let sv = scale.value();
    assert(0x10_0000_0000_0000 * sv <= uu) by {
        lemma_within(scale, 100);
        lemma2_to64_rest();
        lemma_pow2_adds(52, 1174);
        lemma_pow2_adds(1074, 1074);
        lemma_pow2_strictly_increases(1226, 2148);
    }
    assert(one.value() * u == uu);
    let pv = pixel_length(scale).value();
    assert(0x10_0000_0000_0000 * distance(pv * sv, uu) <= 2 * uu);
    let bv = border.value();
    assert(2 * (bv * u) == 3 * uu) by (nonlinear_arith)
        requires
            2 * bv == 3 * u,
            uu == u * u,
    ;
}

/// The number is near that many units, up to one part in `2^52`.
spec fn counts(x: int, n: int, u: int) -> bool {
    0x10_0000_0000_0000 * distance(x, n * u) <= n * u
}

proof fn lemma_angle_arithmetic(l: int, k: int, n: int, kf: int, nf: int, p: int, q: int, u: int)
    requires
        0x100_0000_0000_0000 <= u,
        0x100_0000_0000_0000 <= l,
        0 < k <= n,
        counts(kf, k, u),
        counts(nf, n, u),
        0x10_0000_0000_0000 * distance(p * u, l * kf) <= l * kf + 0x10_0000_0000_0000 * u,
        0x10_0000_0000_0000 * distance(q * nf, p * u) <= p * u + 0x10_0000_0000_0000 * nf,
        0 <= q,
    ensures
        0x1_0000_0000_0000 * distance(q * n, l * k) <= l * n,
{
    let ku = k * u;
    let nu = n * u;
    assert(0 < ku <= nu) by (nonlinear_arith)
        requires
            ku == k * u,
            nu == n * u,
            0 < k <= n,
            u > 0,
    ;
    let ln = l * n;
    let lk = l * k;
    let a = ln * u;
    let lku = lk * u;
    assert(l * ku == lku && l * nu == a && 0 < lku <= a) by (nonlinear_arith)
        requires
            ku == k * u,
            nu == n * u,
            lk == l * k,
            ln == l * n,
            lku == lk * u,
            a == ln * u,
            0 < k <= n,
            u > 0,
            l > 0,
    ;
    assert(0x10_0000_0000_0000 * (4 * nu) <= a) by (nonlinear_arith)
        requires
            a == l * nu,
            l >= 0x100_0000_0000_0000,
            nu > 0,
    ;
    assert(u <= nu) by (nonlinear_arith)
        requires
            nu == n * u,
            n >= 1,
            u > 0,
    ;
    let lkf = l * kf;
    let ek = kf - ku;
    let lek = l * ek;
    assert(lkf == lku + lek) by (nonlinear_arith)
        requires
            lkf == l * kf,
            lku == l * ku,
            ek == kf - ku,
            lek == l * ek,
    ;
    assert(-lku <= 0x10_0000_0000_0000 * lek <= lku) by (nonlinear_arith)
        requires
            lek == l * ek,
            lku == l * ku,
            -ku <= 0x10_0000_0000_0000 * ek <= ku,
            l > 0,
    ;
    let pu = p * u;
    let qnf = q * nf;
    assert(qnf <= 4 * a);
    let qn = q * n;
    let qnu = q * nu;
    let en = nf - nu;
    let qen = q * en;
    assert(qnf == qnu + qen && qnu == qn * u) by (nonlinear_arith)
        requires
            qnf == q * nf,
            qnu == q * nu,
            en == nf - nu,
            qen == q * en,
            qn == q * n,
            nu == n * u,
    ;
    assert(-qnu <= 0x10_0000_0000_0000 * qen <= qnu && qnu >= 0) by (nonlinear_arith)
        requires
            qen == q * en,
            qnu == q * nu,
            -nu <= 0x10_0000_0000_0000 * en <= nu,
            q >= 0,
            nu > 0,
    ;
    assert(qnu <= 5 * a);
    assert(0x1_0000_0000_0000 * distance(qnu, lku) <= a);
    let gap = qn - lk;
    let gu = gap * u;
    assert(gu == qnu - lku) by (nonlinear_arith)
        requires
            gu == gap * u,
            gap == qn - lk,
            qnu == qn * u,
            lku == lk * u,
    ;
    assert(-ln <= 0x1_0000_0000_0000 * gap <= ln) by (nonlinear_arith)
        requires
            gu == gap * u,
            a == ln * u,
            -a <= 0x1_0000_0000_0000 * gu <= a,
            u > 0,
    ;
}

/// Angle `k` of `n` is that part of the sweep, up to `2^-48` of it.
pub proof fn lemma_angles_divide_the_sweep(sweep: Float64, k: nat, n: nat)
    requires
        0 < k <= n <= 0x1_0000,
        sweep.finite(),
        power(-100) <= sweep.value() <= power(100),
    ensures
        0x1_0000_0000_0000 * distance(angle_at(sweep, k, n).value() * n, sweep.value() * k)
            <= sweep.value() * n,
{
    lemma_unit();
    let u = pow2(1074) as int;
    lemma_whole(k);
    lemma_whole(n);
    let kf = Float64::of_whole(k);
    let nf = Float64::of_whole(n);
    lemma_wholes_are_bounded(k);
    lemma_wholes_are_bounded(n);
    lemma_within(sweep, 100);
    crate::float64::bounds::lemma_product_within(sweep, kf, 100, 20);
    lemma_product_near(sweep, kf);
    let p = sweep.product(kf);
    lemma_pow2_pos(974);
    crate::curve_laws::lemma_not_negative(sweep);
    lemma_value_is_not_negative(nf);
    lemma_value_is_not_negative(p);
    crate::float64::bounds::lemma_quotient_within(p, nf, 120, -1);
    lemma_quotient_near(p, nf);
    let q = p.quotient(nf);
    lemma_value_is_not_negative(q);
    let l = sweep.value();
    assert(l >= 0x100_0000_0000_0000) by {
        lemma2_to64();
        lemma2_to64_rest();
        lemma_pow2_strictly_increases(56, 974);
    }
    assert(l * kf.value() >= 0 && p.value() * u >= 0) by (nonlinear_arith)
        requires
            l >= 0,
            kf.value() >= 0,
            p.value() >= 0,
            u >= 0,
    ;
    lemma_angle_arithmetic(
        l,
        k as int,
        n as int,
        kf.value(),
        nf.value(),
        p.value(),
        q.value(),
        u,
    );
}

/// A whole number that is not too large, as a number.
proof fn lemma_wholes_are_bounded(n: nat)
    requires
        0 < n <= 0x1_0000,
    ensures
        Float64::of_whole(n).finite(),
        !Float64::of_whole(n).negative(),
        Float64::of_whole(n).value() > 0,
        within(Float64::of_whole(n), 20),
        crate::float64::bounds::beyond(Float64::of_whole(n), -1),
        counts(Float64::of_whole(n).value(), n as int, pow2(1074) as int),
{
    lemma_unit();
    lemma_whole(n);
    let u = pow2(1074) as int;
    let v = n * u;
    assert(u <= v <= 0x1_0000 * u) by (nonlinear_arith)
        requires
            v == n * u,
            0 < n <= 0x1_0000,
            u > 0,
    ;
    let x = Float64::of_whole(n);
    lemma2_to64();
    lemma_pow2_adds(20, 1074);
    lemma_pow2_adds(1, 1073);
    lemma_within(x, 20);
    lemma_within(x, -1);
}

proof fn lemma_arc_arithmetic(l: int, k: int, n: int, kf: int, nf: int, f: int, a: int, u: int)
    requires
        0x100_0000_0000_0000 <= u,
        0x100_0000_0000_0000 <= l,
        0 < k <= n,
        counts(kf, k, u),
        counts(nf, n, u),
        0x10_0000_0000_0000 * distance(f * nf, kf * u) <= kf * u + 0x10_0000_0000_0000 * nf,
        0x10_0000_0000_0000 * distance(a * u, l * f) <= l * f + 0x10_0000_0000_0000 * u,
        0 <= f,
    ensures
        0x1_0000_0000_0000 * distance(a * n, l * k) <= l * n,
{
    let ku = k * u;
    let nu = n * u;
    let uu = u * u;
    assert(0 < ku <= nu && u <= nu) by (nonlinear_arith)
        requires
            ku == k * u,
            nu == n * u,
            0 < k <= n,
            u > 0,
    ;
    let nuu = nu * u;
    let kuu = ku * u;
    let kfu = kf * u;
    let ek = kf - ku;
    let eku = ek * u;
    assert(kfu == kuu + eku && -kuu <= 0x10_0000_0000_0000 * eku <= kuu && 0 < kuu <= nuu)
        by (nonlinear_arith)
        requires
            kfu == kf * u,
            kuu == ku * u,
            nuu == nu * u,
            ek == kf - ku,
            eku == ek * u,
            -ku <= 0x10_0000_0000_0000 * ek <= ku,
            0 < ku <= nu,
            u > 0,
    ;
    assert(0x10_0000_0000_0000 * (4 * nu) <= nuu) by (nonlinear_arith)
        requires
            nuu == nu * u,
            u >= 0x100_0000_0000_0000,
            nu > 0,
    ;
    let fnf = f * nf;
    let fnu = f * nu;
    let en = nf - nu;
    let fen = f * en;
    assert(fnf == fnu + fen) by (nonlinear_arith)
        requires
            fnf == f * nf,
            fnu == f * nu,
            en == nf - nu,
            fen == f * en,
    ;
    assert(-fnu <= 0x10_0000_0000_0000 * fen <= fnu && fnu >= 0) by (nonlinear_arith)
        requires
            fen == f * en,
            fnu == f * nu,
            -nu <= 0x10_0000_0000_0000 * en <= nu,
            f >= 0,
            nu > 0,
    ;
    assert(fnu <= 3 * nuu);
    // The fraction times the number of steps.
    let off = fnu - kuu;
    assert(0x10_0000_0000_0000 * size(off) <= 8 * nuu);
    let lf = l * f;
    let au = a * u;
    let oa = au - lf;
    let oan = oa * nu;
    let lfn = lf * nu;
    let lo = l * off;
    let an = a * n;
    let lk = l * k;
    let ln = l * n;
    assert(lfn == l * fnu) by (nonlinear_arith)
        requires
            lfn == lf * nu,
            lf == l * f,
            fnu == f * nu,
    ;
    let lkuu = l * kuu;
    assert(l * fnu == lkuu + lo) by (nonlinear_arith)
        requires
            off == fnu - kuu,
            lo == l * off,
            lkuu == l * kuu,
    ;
    assert(au * nu == lfn + oan) by (nonlinear_arith)
        requires
            oa == au - lf,
            oan == oa * nu,
            lfn == lf * nu,
    ;
    assert(au * nu == an * uu && lkuu == lk * uu) by {
        assert(au * nu == an * uu) by (nonlinear_arith)
            requires
                au == a * u,
                nu == n * u,
                an == a * n,
                uu == u * u,
        ;
        assert(lkuu == lk * uu) by (nonlinear_arith)
            requires
                lkuu == l * kuu,
                kuu == ku * u,
                ku == k * u,
                lk == l * k,
                uu == u * u,
        ;
    }
    let top = ln * uu;
    assert(l * nuu == top && top > 0) by (nonlinear_arith)
        requires
            nuu == nu * u,
            nu == n * u,
            ln == l * n,
            uu == u * u,
            top == ln * uu,
            l > 0,
            n > 0,
            u > 0,
    ;
    assert(-(8 * top) <= 0x10_0000_0000_0000 * lo <= 8 * top) by (nonlinear_arith)
        requires
            lo == l * off,
            top == l * nuu,
            -(8 * nuu) <= 0x10_0000_0000_0000 * off <= 8 * nuu,
            l > 0,
    ;
    assert(lfn <= 3 * top) by (nonlinear_arith)
        requires
            lfn == l * fnu,
            fnu <= 3 * nuu,
            top == l * nuu,
            l > 0,
    ;
    let slack = 0x10_0000_0000_0000 * u;
    assert(-(lfn + slack * nu) <= 0x10_0000_0000_0000 * oan <= lfn + slack * nu)
        by (nonlinear_arith)
        requires
            oan == oa * nu,
            lfn == lf * nu,
            -(lf + slack) <= 0x10_0000_0000_0000 * oa <= lf + slack,
            nu > 0,
    ;
    assert(slack * nu <= top) by (nonlinear_arith)
        requires
            slack == 0x10_0000_0000_0000 * u,
            top == l * nuu,
            nuu == nu * u,
            l >= 0x10_0000_0000_0000,
            u > 0,
            nu > 0,
    ;
    let gap = an - lk;
    let gu = gap * uu;
    assert(gu == an * uu - lk * uu) by (nonlinear_arith)
        requires
            gu == gap * uu,
            gap == an - lk,
    ;
    assert(-top <= 0x1_0000_0000_0000 * gu <= top);
    assert(uu > 0) by (nonlinear_arith)
        requires
            uu == u * u,
            u > 0,
    ;
    assert(-ln <= 0x1_0000_0000_0000 * gap <= ln) by (nonlinear_arith)
        requires
            gu == gap * uu,
            top == ln * uu,
            -top <= 0x1_0000_0000_0000 * gu <= top,
            uu > 0,
    ;
}

/// Step `k` of `n` lies that part of the way along a curve, up to `2^-48` of its length.
pub proof fn lemma_steps_divide_the_curve(length: Float64, k: nat, n: nat)
    requires
        0 < k <= n <= 0x1_0000,
        length.finite(),
        power(-100) <= length.value() <= power(100),
    ensures
        0x1_0000_0000_0000 * distance(arc_at(length, k, n).value() * n, length.value() * k)
            <= length.value() * n,
{
    lemma_unit();
    let u = pow2(1074) as int;
    let kf = Float64::of_whole(k);
    let nf = Float64::of_whole(n);
    lemma_wholes_are_bounded(k);
    lemma_wholes_are_bounded(n);
    lemma_within(length, 100);
    crate::float64::bounds::lemma_quotient_within(kf, nf, 20, -1);
    lemma_quotient_near(kf, nf);
    let f = kf.quotient(nf);
    lemma_value_is_not_negative(f);
    crate::float64::bounds::lemma_product_within(length, f, 100, 21);
    lemma_product_near(length, f);
    let l = length.value();
    assert(l >= 0x100_0000_0000_0000) by {
        lemma2_to64();
        lemma2_to64_rest();
        lemma_pow2_strictly_increases(56, 974);
    }
    assert(l * f.value() >= 0) by (nonlinear_arith)
        requires
            l >= 0,
            f.value() >= 0,
    ;
    lemma_arc_arithmetic(
        l,
        k as int,
        n as int,
        kf.value(),
        nf.value(),
        f.value(),
        length.product(f).value(),
        u,
    );
}

/// The first segment of a ribbon has a step at its very start and one at the end of each of its
/// parts; every other segment has only the latter.
pub proof fn lemma_segments_share_their_ends(length: Float64, world_step: Float64)
    ensures
        ({
            let n = steps(length, world_step);
            let first = arcs_along(length, world_step, false);
            let later = arcs_along(length, world_step, true);
            &&& n >= 1
            &&& first.len() == n + 1
            &&& later.len() == n
            &&& first.skip(1) == later
            &&& first[0] == arc_at(length, 0, n as nat)
            &&& later.last() == arc_at(length, n as nat, n as nat)
            &&& forall|i: int|
                0 <= i < n ==> #[trigger] later[i] == arc_at(length, (i + 1) as nat, n as nat)
        }),
{
    let first = arcs_along(length, world_step, false);
    let later = arcs_along(length, world_step, true);
    assert(first.skip(1) =~= later);
}

} // verus!
