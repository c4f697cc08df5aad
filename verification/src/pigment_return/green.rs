//! Blue and yellow make green. The bands of both colors are followed through the mixture as
//! intervals, in thousandths, and the color of the mixture is read off what they leave.

use super::{
    absorbed, closer, fraction, fractions, lemma_absorbed, lemma_band_value,
    lemma_blue_identity, lemma_compared, lemma_constants, lemma_corrected, lemma_green_identity,
    lemma_limited, lemma_not_negative, lemma_red_identity, lemma_reflectance_steps, lemma_units,
    lemma_way_is_exact, lemma_weights, lemma_x_sum, lemma_y_sum, lemma_z_sum, under_root,
    unlimited, way, Way,
};
use crate::brush::{LinearRgba, ONE};
use crate::float32::near::{lemma_product_near, lemma_sum_near, nearer, unit};
use crate::float32::{lemma_exact_value_rounds_to_itself, lemma_step, Float32};
use crate::float64::error::distance;
use crate::pigment::{
    absorption, averaged, band_of, corrected, integral, reflectance, PigmentView, BLUE_ROW,
    GREEN_ROW, REFLECTANCE_CEIL, REFLECTANCE_FLOOR, RED_ROW, X_BAR, Y_BAR, Z_BAR,
};
use vstd::arithmetic::power2::*;
use vstd::prelude::*;

verus! {

/// The bit pattern of 0.5.
pub const HALF: u32 = 0x3f00_0000;

/// A finite number from `lo` to `hi` thousandths.
pub open spec fn from_to(x: Float32, lo: int, hi: int) -> bool {
    x.finite() && lo * unit() <= 1000 * x.value() <= hi * unit()
}

/// The absorption of a reflectance of at least `n` thousandths is at most `top` thousandths.
proof fn lemma_absorbs_at_most(c: int, k: int, u: int, n: int, top: int)
    requires
        u > 0,
        0 < c <= u,
        k >= 0,
        0x8_0000 * distance(2 * c * k, (u - c) * (u - c)) <= (u - c) * (u - c),
        0 < n <= 1000,
        1000 * c >= n * u,
        0x8_0001 * ((1000 - n) * (1000 - n)) <= 0x8_0000 * (2 * n * top),
    ensures
        1000 * k <= top * u,
{
    let rest = u - c;
    let a2 = rest * rest;
    let y = 2 * c * k;
    let m = 1000 - n;
    let m2 = m * m;
    let uu = u * u;
    assert(m * u == 1000 * u - n * u) by (nonlinear_arith)
        requires
            m == 1000 - n,
    ;
    assert(1_000_000 * a2 <= m2 * uu) by (nonlinear_arith)
        requires
            a2 == rest * rest,
            m2 == m * m,
            uu == u * u,
            0 <= 1000 * rest <= m * u,
    ;
    assert(2 * (n * (u * k)) <= 1000 * y) by (nonlinear_arith)
        requires
            y == 2 * c * k,
            1000 * c >= n * u,
            k >= 0,
    ;
    assert(0x8_0000 * y <= 0x8_0001 * a2);
    let t = 2 * n * top;
    assert(0x8_0001 * (m2 * uu) <= 0x8_0000 * (t * uu)) by (nonlinear_arith)
        requires
            0x8_0001 * m2 <= 0x8_0000 * t,
            uu >= 0,
            uu == u * u,
    ;
    assert(2000 * (n * (u * k)) <= t * uu);
    assert(1000 * k <= top * u) by (nonlinear_arith)
        requires
            2000 * (n * (u * k)) <= t * uu,
            t == 2 * n * top,
            uu == u * u,
            n > 0,
            u > 0,
    ;
}

/// The absorption of a reflectance of at most `n` thousandths is at least `low` thousandths.
proof fn lemma_absorbs_at_least(c: int, k: int, u: int, n: int, low: int)
    requires
        u > 0,
        0 < c <= u,
        k >= 0,
        0x8_0000 * distance(2 * c * k, (u - c) * (u - c)) <= (u - c) * (u - c),
        0 < n <= 1000,
        1000 * c <= n * u,
        0x7_ffff * ((1000 - n) * (1000 - n)) >= 0x8_0000 * (2 * n * low),
    ensures
        1000 * k >= low * u,
{
    let rest = u - c;
    let a2 = rest * rest;
    let y = 2 * c * k;
    let m = 1000 - n;
    let m2 = m * m;
    let uu = u * u;
    assert(m * u == 1000 * u - n * u && m * u >= 0) by (nonlinear_arith)
        requires
            m == 1000 - n,
            n <= 1000,
            u > 0,
    ;
    assert(1_000_000 * a2 >= m2 * uu) by (nonlinear_arith)
        requires
            a2 == rest * rest,
            m2 == m * m,
            uu == u * u,
            0 <= m * u <= 1000 * rest,
    ;
    assert(2 * (n * (u * k)) >= 1000 * y) by (nonlinear_arith)
        requires
            y == 2 * c * k,
            1000 * c <= n * u,
            k >= 0,
    ;
    assert(0x8_0000 * y >= 0x7_ffff * a2);
    let t = 2 * n * low;
    assert(0x7_ffff * (m2 * uu) >= 0x8_0000 * (t * uu)) by (nonlinear_arith)
        requires
            0x7_ffff * m2 >= 0x8_0000 * t,
            uu >= 0,
            uu == u * u,
    ;
    assert(2000 * (n * (u * k)) >= t * uu);
    assert(1000 * k >= low * u) by (nonlinear_arith)
        requires
            2000 * (n * (u * k)) >= t * uu,
            t == 2 * n * low,
            uu == u * u,
            n > 0,
            u > 0,
    ;
}

/// The absorption of a band, from the interval of its reflectance.
proof fn lemma_band_absorbs(x: Float32, lo: int, hi: int, top: int, low: int)
    requires
        from_to(x, lo, hi),
        2 <= lo <= hi <= 999,
        0x8_0001 * ((1000 - lo) * (1000 - lo)) <= 0x8_0000 * (2 * lo * top),
        0x7_ffff * ((1000 - hi) * (1000 - hi)) >= 0x8_0000 * (2 * hi * low),
    ensures
        absorption(x).plain(),
        from_to(absorption(x), low, top),
{
    reveal(absorption);
    lemma_units();
    lemma_limited(x);
    let c = x.clamped(Float32(REFLECTANCE_FLOOR), Float32(REFLECTANCE_CEIL));
    let u = unit();
    let v = x.value();
    assert(2 * u <= 1000 * v <= 999 * u) by (nonlinear_arith)
        requires
            lo * u <= 1000 * v <= hi * u,
            2 <= lo,
            hi <= 999,
            u > 0,
    ;
    assert(c.value() == v);
    lemma_absorbed(c);
    let k = absorbed(c).value();
    lemma_absorbs_at_most(v, k, u, lo, top);
    lemma_absorbs_at_least(v, k, u, hi, low);
}

proof fn lemma_half()
    ensures
        Float32(HALF).plain(),
        2 * Float32(HALF).value() == unit(),
        Float32(ONE).difference(Float32(HALF)) == Float32(HALF),
        Float32(HALF).clamped(Float32(0), Float32(ONE)) == Float32(HALF),
{
    lemma_units();
    lemma_constants();
    lemma2_to64();
    super::lemma_pattern(HALF, 125, 0x80_0000, 0x1_0000_0000);
    let half = Float32(HALF).value();
    assert(unit() - half == half);
    assert(Float32(HALF).negated().value() == -half);
    lemma_exact_value_rounds_to_itself(0x3f00_0000, 1);
    assert(half * 1 == half);
    assert(half > 0);
}

/// Half of a number.
proof fn lemma_half_of(x: Float32)
    requires
        x.plain(),
        x.value() <= 1024 * unit(),
    ensures
        ({
            let h = Float32(HALF).product(x);
            &&& h.finite()
            &&& 0x80_0000 * distance(2 * h.value(), x.value()) <= x.value() + 0x100_0000
        }),
{
    lemma_half();
    lemma_compared(x, Float32(0));
    let u = unit();
    let v = x.value();
    lemma_product_near(Float32(HALF), x);
    let h = Float32(HALF).product(x).value();
    let half = Float32(HALF).value();
    lemma_units();
    assert(0x80_0000 * distance(2 * h, v) <= v + 0x100_0000) by (nonlinear_arith)
        requires
            0x80_0000 * distance(h * u, half * v) <= half * v + 0x80_0000 * u,
            2 * half == u,
            v >= 0,
            u > 0,
    ;
}

/// The mean of two absorptions.
proof fn lemma_mean(a: Float32, b: Float32, la: int, ha: int, lb: int, hb: int, m: int, n: int)
    requires
        a.plain() && b.plain(),
        from_to(a, la, ha) && from_to(b, lb, hb),
        0 <= la && 0 <= lb,
        ha <= 13000 && hb <= 13000,
        2 * m <= la + lb - 1,
        ha + hb + 1 <= 2 * n,
    ensures
        from_to(averaged(a, b, Float32(HALF)), m, n),
{
    reveal(averaged);
    lemma_half();
    lemma_units();
    let u = unit();
    let p = Float32(HALF).product(a);
    let q = Float32(HALF).product(b);
    assert(0 <= a.value() <= 13 * u) by (nonlinear_arith)
        requires
            la * u <= 1000 * a.value() <= ha * u,
            0 <= la,
            ha <= 13000,
            u > 0,
    ;
    assert(0 <= b.value() <= 13 * u) by (nonlinear_arith)
        requires
            lb * u <= 1000 * b.value() <= hb * u,
            0 <= lb,
            hb <= 13000,
            u > 0,
    ;
    lemma_half_of(a);
    lemma_half_of(b);
    lemma_sum_near(p, q);
    let s = p.sum(q).value();
    let t = a.value() + b.value();
    assert(0x10_0000 * distance(2 * s, t) <= 40 * u);
    assert((la + lb) * u == la * u + lb * u) by (nonlinear_arith);
    assert((ha + hb) * u == ha * u + hb * u) by (nonlinear_arith);
    assert(2000 * s >= (la + lb) * u - u && 2000 * s <= (ha + hb) * u + u);
    assert(m * u <= 1000 * s <= n * u) by (nonlinear_arith)
        requires
            2000 * s >= (la + lb) * u - u,
            2000 * s <= (ha + hb) * u + u,
            2 * m <= la + lb - 1,
            ha + hb + 1 <= 2 * n,
            u > 0,
    ;
}

/// The mean of full scattering is full scattering.
proof fn lemma_mean_of_ones()
    ensures
        averaged(Float32(ONE), Float32(ONE), Float32(HALF)) == Float32(ONE),
{
    reveal(averaged);
    lemma_half();
    lemma_constants();
    lemma_units();
    crate::float32::identities::lemma_product_commutes(Float32(HALF), Float32(ONE));
    crate::float32::identities::lemma_one_times(Float32(HALF));
    lemma_exact_value_rounds_to_itself(0x3f80_0000, 1);
    assert(unit() * 1 == unit());
}

/// The square of a root, against the exact one.
proof fn lemma_root_square(q: int, iu: int, r2: int)
    requires
        q >= 0,
        r2 >= 0,
        0x7f_ff00 * distance(iu, q) <= q,
        0x7f_ffff * distance(r2, iu) <= r2,
    ensures
        0x40_0000 * r2 <= 0x40_0005 * q,
        0x40_0000 * r2 >= 0x3f_fffb * q,
{
}

/// The square of `100000 (k + u) - w u`.
proof fn lemma_square(k: int, u: int, p: int, w: int)
    requires
        p + w == 100_000,
    ensures
        ({
            let g = 100_000 * k + p * u;
            g * g == 10_000_000_000 * (k * k + 2 * k * u) + (p * p) * (u * u) - 200_000 * (w * (k
                * u))
        }),
{
    let a = 100_000 * k;
    let b = p * u;
    let g = a + b;
    let ku = k * u;
    assert(g * g == a * a + 2 * (a * b) + b * b) by (nonlinear_arith)
        requires
            g == a + b,
    ;
    assert(a * a == 10_000_000_000 * (k * k)) by (nonlinear_arith)
        requires
            a == 100_000 * k,
    ;
    assert(a * b == 100_000 * (p * ku)) by (nonlinear_arith)
        requires
            a == 100_000 * k,
            b == p * u,
            ku == k * u,
    ;
    assert(b * b == (p * p) * (u * u)) by (nonlinear_arith)
        requires
            b == p * u,
    ;
    assert(p * ku == 100_000 * ku - w * ku) by (nonlinear_arith)
        requires
            p + w == 100_000,
    ;
    assert(2 * k * u == 2 * ku) by (nonlinear_arith)
        requires
            ku == k * u,
    ;
}

/// A reflectance is at least `l` thousandths where the absorption is at most `m` of them.
proof fn lemma_reflects_at_least(k: int, u: int, inner: int, root: int, m: int, l: int)
    requires
        u > 0,
        0 < k <= 13 * u,
        root > 0,
        0x7f_ff00 * distance(inner * u, k * k + 2 * k * u) <= k * k + 2 * k * u,
        0x7f_ffff * distance(root * root, inner * u) <= root * root,
        1000 * k <= m * u,
        0 < m <= 13000,
        0 < l < 900,
        (1000 - l) * (1000 - l) >= 2 * (m * l) + 1000,
    ensures
        100_000 * root <= 100_000 * (u + k) - (100 * l + 1) * u,
{
    let q = k * k + 2 * k * u;
    let uu = u * u;
    let p = 99_999 - 100 * l;
    let w = 100 * l + 1;
    let g = 100_000 * k + p * u;
    let ku = k * u;
    assert(0 <= q <= 195 * uu) by (nonlinear_arith)
        requires
            q == k * k + 2 * k * u,
            0 < k <= 13 * u,
            uu == u * u,
            u > 0,
    ;
    assert(root * root >= 0) by (nonlinear_arith);
    lemma_root_square(q, inner * u, root * root);
    lemma_square(k, u, p, w);
    assert(200_000 * (w * ku) <= 200 * ((w * m) * uu)) by (nonlinear_arith)
        requires
            1000 * k <= m * u,
            ku == k * u,
            uu == u * u,
            w > 0,
            u > 0,
    ;
    let s = 1000 - l;
    assert(p * p == 10_000 * (s * s) - 200 * s + 1) by (nonlinear_arith)
        requires
            p == 100 * s - 1,
    ;
    assert(w * m == 100 * (m * l) + m) by (nonlinear_arith)
        requires
            w == 100 * l + 1,
    ;
    let margin = p * p - 200 * (w * m);
    assert(margin >= 7_000_000);
    assert((p * p) * uu - 200 * ((w * m) * uu) == margin * uu) by (nonlinear_arith)
        requires
            margin == p * p - 200 * (w * m),
    ;
    assert(margin * uu >= 7_000_000 * uu) by (nonlinear_arith)
        requires
            margin >= 7_000_000,
            uu >= 0,
    ;
    let r2 = root * root;
    assert(10_000_000_000 * r2 <= g * g);
    assert(g >= 0) by (nonlinear_arith)
        requires
            g == 100_000 * k + p * u,
            k > 0,
            p > 0,
            u > 0,
    ;
    assert(100_000 * root <= g) by (nonlinear_arith)
        requires
            10_000_000_000 * r2 <= g * g,
            r2 == root * root,
            g >= 0,
            root > 0,
    ;
    assert(p * u == 100_000 * u - w * u) by (nonlinear_arith)
        requires
            p + w == 100_000,
    ;
}

/// A reflectance is at most `h` thousandths where the absorption is at least `m` of them.
proof fn lemma_reflects_at_most(k: int, u: int, inner: int, root: int, m: int, h: int)
    requires
        u > 0,
        0 < k <= 13 * u,
        root > 0,
        0x7f_ff00 * distance(inner * u, k * k + 2 * k * u) <= k * k + 2 * k * u,
        0x7f_ffff * distance(root * root, inner * u) <= root * root,
        1000 * k >= m * u,
        0 < m <= 13000,
        0 < h < 900,
        (1000 - h) * (1000 - h) + 1000 <= 2 * (m * h),
    ensures
        100_000 * root >= 100_000 * (u + k) - (100 * h - 1) * u,
{
    let q = k * k + 2 * k * u;
    let uu = u * u;
    let p = 100_001 - 100 * h;
    let w = 100 * h - 1;
    let g = 100_000 * k + p * u;
    let ku = k * u;
    assert(0 <= q <= 195 * uu) by (nonlinear_arith)
        requires
            q == k * k + 2 * k * u,
            0 < k <= 13 * u,
            uu == u * u,
            u > 0,
    ;
    assert(root * root >= 0) by (nonlinear_arith);
    lemma_root_square(q, inner * u, root * root);
    lemma_square(k, u, p, w);
    assert(200_000 * (w * ku) >= 200 * ((w * m) * uu)) by (nonlinear_arith)
        requires
            1000 * k >= m * u,
            ku == k * u,
            uu == u * u,
            w > 0,
            u > 0,
    ;
    let s = 1000 - h;
    assert(p * p == 10_000 * (s * s) + 200 * s + 1) by (nonlinear_arith)
        requires
            p == 100 * s + 1,
    ;
    assert(w * m == 100 * (m * h) - m) by (nonlinear_arith)
        requires
            w == 100 * h - 1,
    ;
    let margin = 200 * (w * m) - p * p;
    assert(margin >= 7_000_000);
    assert(200 * ((w * m) * uu) - (p * p) * uu == margin * uu) by (nonlinear_arith)
        requires
            margin == 200 * (w * m) - p * p,
    ;
    assert(margin * uu >= 7_000_000 * uu) by (nonlinear_arith)
        requires
            margin >= 7_000_000,
            uu >= 0,
    ;
    let r2 = root * root;
    assert(10_000_000_000 * r2 >= g * g);
    assert(g >= 0) by (nonlinear_arith)
        requires
            g == 100_000 * k + p * u,
            k > 0,
            p > 0,
            u > 0,
    ;
    assert(100_000 * root >= g) by (nonlinear_arith)
        requires
            10_000_000_000 * r2 >= g * g,
            r2 == root * root,
            g >= 0,
            root > 0,
    ;
    assert(p * u == 100_000 * u - w * u) by (nonlinear_arith)
        requires
            p + w == 100_000,
    ;
}

/// What is left of the whole after the root is taken off, with its roundings.
proof fn lemma_left(whole: int, root: int, left: int, u: int, k: int, lu: int, hu: int)
    requires
        u >= 0x100_0000_0000_0000,
        0 < k <= 13 * u,
        closer(whole, u + k),
        nearer(left, whole - root, 1),
        100_000 * root <= 100_000 * (u + k) - (100 * lu + u),
        100_000 * root >= 100_000 * (u + k) - (100 * hu - u),
        0 < lu,
        hu <= 900 * u,
    ensures
        lu <= 1000 * left <= hu,
{
}

/// What a pigment reflects that absorbs from `m` to `n` thousandths.
proof fn lemma_reflects(k: Float32, m: int, n: int, l: int, h: int)
    requires
        from_to(k, m, n),
        0 < m <= n <= 13000,
        0 < l < 900 && 0 < h < 900,
        (1000 - l) * (1000 - l) >= 2 * (n * l) + 1000,
        (1000 - h) * (1000 - h) + 1000 <= 2 * (m * h),
    ensures
        fraction(reflectance(k, Float32(ONE))),
        from_to(reflectance(k, Float32(ONE)), l, h),
{
    lemma_units();
    lemma_constants();
    let u = unit();
    let v = k.value();
    assert(u <= 1000 * v <= 13000 * u) by (nonlinear_arith)
        requires
            m * u <= 1000 * v <= n * u,
            0 < m,
            n <= 13000,
            u > 0,
    ;
    lemma_not_negative(k);
    lemma_reflectance_steps(k);
    let inner = under_root(k).value();
    let root = under_root(k).root().value();
    let left = unlimited(k);
    lemma_reflects_at_least(v, u, inner, root, n, l);
    lemma_reflects_at_most(v, u, inner, root, m, h);
    assert((100 * l + 1) * u == 100 * (l * u) + u) by (nonlinear_arith);
    assert((100 * h - 1) * u == 100 * (h * u) - u) by (nonlinear_arith);
    assert(0 < l * u && h * u <= 900 * u) by (nonlinear_arith)
        requires
            0 < l,
            h < 900,
            u > 0,
    ;
    lemma_left(Float32(ONE).sum(k).value(), root, left.value(), u, v, l * u, h * u);
    lemma_not_negative(left);
    lemma_compared(left, Float32(0));
    lemma_compared(Float32(ONE), left);
}

/// One band of a mixture, half and half, of two bands that reflect from `al` to `ah` and from
/// `bl` to `bh` thousandths: it reflects from `l` to `h`. In between are the intervals of the
/// two absorptions and of their mean.
proof fn lemma_mixed_band(
    x: Float32,
    y: Float32,
    al: int,
    ah: int,
    bl: int,
    bh: int,
    ka: int,
    ta: int,
    kb: int,
    tb: int,
    m: int,
    n: int,
    l: int,
    h: int,
)
    requires
        from_to(x, al, ah) && from_to(y, bl, bh),
        2 <= al <= ah <= 999,
        2 <= bl <= bh <= 999,
        0 <= ka && ta <= 13000,
        0 <= kb && tb <= 13000,
        0x8_0001 * ((1000 - al) * (1000 - al)) <= 0x8_0000 * (2 * al * ta),
        0x7_ffff * ((1000 - ah) * (1000 - ah)) >= 0x8_0000 * (2 * ah * ka),
        0x8_0001 * ((1000 - bl) * (1000 - bl)) <= 0x8_0000 * (2 * bl * tb),
        0x7_ffff * ((1000 - bh) * (1000 - bh)) >= 0x8_0000 * (2 * bh * kb),
        2 * m <= ka + kb - 1,
        ta + tb + 1 <= 2 * n,
        0 < m <= n <= 13000,
        0 < l < 900 && 0 < h < 900,
        (1000 - l) * (1000 - l) >= 2 * (n * l) + 1000,
        (1000 - h) * (1000 - h) + 1000 <= 2 * (m * h),
    ensures
        ({
            let k = averaged(absorption(x), absorption(y), Float32(HALF));
            let s = averaged(Float32(ONE), Float32(ONE), Float32(HALF));
            fraction(reflectance(k, s)) && from_to(reflectance(k, s), l, h)
        }),
{
    lemma_band_absorbs(x, al, ah, ta, ka);
    lemma_band_absorbs(y, bl, bh, tb, kb);
    lemma_mean(absorption(x), absorption(y), ka, ta, kb, tb, m, n);
    lemma_mean_of_ones();
    lemma_reflects(averaged(absorption(x), absorption(y), Float32(HALF)), m, n, l, h);
}

/// A blue: the channels within a hundredth of 0.05, 0.05 and 0.8.
pub open spec fn is_blue(c: LinearRgba) -> bool {
    from_to(c.r, 40, 60) && from_to(c.g, 40, 60) && from_to(c.b, 790, 810)
}

/// A yellow: the channels within a hundredth of 0.9, 0.85 and 0.05.
pub open spec fn is_yellow(c: LinearRgba) -> bool {
    from_to(c.r, 890, 910) && from_to(c.g, 840, 860) && from_to(c.b, 40, 60)
}

/// The interval of a band, from what the color spreads there.
proof fn lemma_band_from_to(v: int, spread: int, u: int, low: int, high: int)
    requires
        u > 0,
        0x10_0000 * distance(v * super::full(), spread) <= 7 * (super::full() * u),
        0x2_0000_0000 * (100 * low + u) <= 100_000 * spread,
        100_000 * spread <= 0x2_0000_0000 * (100 * high - u),
    ensures
        low <= 1000 * v <= high,
{
}

/// A channel from 0 to 1, from an interval within.
proof fn lemma_fraction_from_to(x: Float32, lo: int, hi: int)
    requires
        from_to(x, lo, hi),
        0 <= lo,
        hi <= 1000,
    ensures
        fraction(x),
{
    let u = unit();
    lemma_units();
    assert(0 <= x.value() <= u) by (nonlinear_arith)
        requires
            lo * u <= 1000 * x.value() <= hi * u,
            0 <= lo,
            hi <= 1000,
            u > 0,
    ;
}

/// What a blue spreads to each band.
proof fn lemma_blue_bands(c: LinearRgba)
    requires
        is_blue(c),
    ensures
        from_to(band_of(c.r, c.g, c.b, 0), 789, 811),
        from_to(band_of(c.r, c.g, c.b, 1), 752, 773),
        from_to(band_of(c.r, c.g, c.b, 2), 302, 323),
        from_to(band_of(c.r, c.g, c.b, 3), 39, 61),
        from_to(band_of(c.r, c.g, c.b, 4), 39, 61),
        from_to(band_of(c.r, c.g, c.b, 5), 39, 61),
        from_to(band_of(c.r, c.g, c.b, 6), 39, 61),
{
    lemma_weights();
    lemma_units();
    let u = unit();
    let r = c.r.value();
    let g = c.g.value();
    let b = c.b.value();
    lemma_fraction_from_to(c.r, 40, 60);
    lemma_fraction_from_to(c.g, 40, 60);
    lemma_fraction_from_to(c.b, 790, 810);
    lemma_band_value(c.r, c.g, c.b, 0, 0, 0, 0x2_0000_0000);
    lemma_band_from_to(
        band_of(c.r, c.g, c.b, 0).value(),
        r * 0 + g * 0 + b * 0x2_0000_0000,
        u,
        789 * u,
        811 * u,
    );
    lemma_band_value(c.r, c.g, c.b, 1, 0, 0x1999_99a0, 0x1_e666_6600);
    lemma_band_from_to(
        band_of(c.r, c.g, c.b, 1).value(),
        r * 0 + g * 0x1999_99a0 + b * 0x1_e666_6600,
        u,
        752 * u,
        773 * u,
    );
    lemma_band_value(c.r, c.g, c.b, 2, 0, 0x1_4ccc_cc00, 0xb333_3300);
    lemma_band_from_to(
        band_of(c.r, c.g, c.b, 2).value(),
        r * 0 + g * 0x1_4ccc_cc00 + b * 0xb333_3300,
        u,
        302 * u,
        323 * u,
    );
    lemma_band_value(c.r, c.g, c.b, 3, 0x1999_99a0, 0x1_e666_6600, 0);
    lemma_band_from_to(
        band_of(c.r, c.g, c.b, 3).value(),
        r * 0x1999_99a0 + g * 0x1_e666_6600 + b * 0,
        u,
        39 * u,
        61 * u,
    );
    lemma_band_value(c.r, c.g, c.b, 4, 0xb333_3300, 0x1_4ccc_cc00, 0);
    lemma_band_from_to(
        band_of(c.r, c.g, c.b, 4).value(),
        r * 0xb333_3300 + g * 0x1_4ccc_cc00 + b * 0,
        u,
        39 * u,
        61 * u,
    );
    lemma_band_value(c.r, c.g, c.b, 5, 0x1_e666_6600, 0x1999_99a0, 0);
    lemma_band_from_to(
        band_of(c.r, c.g, c.b, 5).value(),
        r * 0x1_e666_6600 + g * 0x1999_99a0 + b * 0,
        u,
        39 * u,
        61 * u,
    );
    lemma_band_value(c.r, c.g, c.b, 6, 0x2_0000_0000, 0, 0);
    lemma_band_from_to(
        band_of(c.r, c.g, c.b, 6).value(),
        r * 0x2_0000_0000 + g * 0 + b * 0,
        u,
        39 * u,
        61 * u,
    );
}

/// What a yellow spreads to each band.
proof fn lemma_yellow_bands(c: LinearRgba)
    requires
        is_yellow(c),
    ensures
        from_to(band_of(c.r, c.g, c.b, 0), 39, 61),
        from_to(band_of(c.r, c.g, c.b, 1), 79, 101),
        from_to(band_of(c.r, c.g, c.b, 2), 559, 581),
        from_to(band_of(c.r, c.g, c.b, 3), 842, 863),
        from_to(band_of(c.r, c.g, c.b, 4), 857, 878),
        from_to(band_of(c.r, c.g, c.b, 5), 887, 908),
        from_to(band_of(c.r, c.g, c.b, 6), 889, 911),
{
    lemma_weights();
    lemma_units();
    let u = unit();
    let r = c.r.value();
    let g = c.g.value();
    let b = c.b.value();
    lemma_fraction_from_to(c.r, 890, 910);
    lemma_fraction_from_to(c.g, 840, 860);
    lemma_fraction_from_to(c.b, 40, 60);
    lemma_band_value(c.r, c.g, c.b, 0, 0, 0, 0x2_0000_0000);
    lemma_band_from_to(
        band_of(c.r, c.g, c.b, 0).value(),
        r * 0 + g * 0 + b * 0x2_0000_0000,
        u,
        39 * u,
        61 * u,
    );
    lemma_band_value(c.r, c.g, c.b, 1, 0, 0x1999_99a0, 0x1_e666_6600);
    lemma_band_from_to(
        band_of(c.r, c.g, c.b, 1).value(),
        r * 0 + g * 0x1999_99a0 + b * 0x1_e666_6600,
        u,
        79 * u,
        101 * u,
    );
    lemma_band_value(c.r, c.g, c.b, 2, 0, 0x1_4ccc_cc00, 0xb333_3300);
    lemma_band_from_to(
        band_of(c.r, c.g, c.b, 2).value(),
        r * 0 + g * 0x1_4ccc_cc00 + b * 0xb333_3300,
        u,
        559 * u,
        581 * u,
    );
    lemma_band_value(c.r, c.g, c.b, 3, 0x1999_99a0, 0x1_e666_6600, 0);
    lemma_band_from_to(
        band_of(c.r, c.g, c.b, 3).value(),
        r * 0x1999_99a0 + g * 0x1_e666_6600 + b * 0,
        u,
        842 * u,
        863 * u,
    );
    lemma_band_value(c.r, c.g, c.b, 4, 0xb333_3300, 0x1_4ccc_cc00, 0);
    lemma_band_from_to(
        band_of(c.r, c.g, c.b, 4).value(),
        r * 0xb333_3300 + g * 0x1_4ccc_cc00 + b * 0,
        u,
        857 * u,
        878 * u,
    );
    lemma_band_value(c.r, c.g, c.b, 5, 0x1_e666_6600, 0x1999_99a0, 0);
    lemma_band_from_to(
        band_of(c.r, c.g, c.b, 5).value(),
        r * 0x1_e666_6600 + g * 0x1999_99a0 + b * 0,
        u,
        887 * u,
        908 * u,
    );
    lemma_band_value(c.r, c.g, c.b, 6, 0x2_0000_0000, 0, 0);
    lemma_band_from_to(
        band_of(c.r, c.g, c.b, 6).value(),
        r * 0x2_0000_0000 + g * 0 + b * 0,
        u,
        889 * u,
        911 * u,
    );
}

/// What the mixture of a blue and a yellow, half and half, reflects in each band.
proof fn lemma_mixed_spectrum(blue: LinearRgba, yellow: LinearRgba)
    requires
        is_blue(blue),
        is_yellow(yellow),
    ensures
        ({
            let s = PigmentView::of_color(blue).mixed(
                PigmentView::of_color(yellow),
                Float32(HALF),
            ).spectrum();
            &&& fractions(s)
            &&& from_to(s[0], 72, 110)
            &&& from_to(s[1], 137, 171)
            &&& from_to(s[2], 384, 409)
            &&& from_to(s[3], 72, 110)
            &&& from_to(s[4], 72, 110)
            &&& from_to(s[5], 72, 110)
            &&& from_to(s[6], 72, 110)
        }),
{
    let a = PigmentView::of_color(blue);
    let b = PigmentView::of_color(yellow);
    let s = a.mixed(b, Float32(HALF)).spectrum();
    lemma_half();
    lemma_blue_bands(blue);
    lemma_yellow_bands(yellow);
    assert(a.k[0] == absorption(band_of(blue.r, blue.g, blue.b, 0)));
    assert(b.k[0] == absorption(band_of(yellow.r, yellow.g, yellow.b, 0)));
    lemma_mixed_band(
        band_of(blue.r, blue.g, blue.b, 0),
        band_of(yellow.r, yellow.g, yellow.b, 0),
        789,
        811,
        39,
        61,
        22,
        29,
        7227,
        11841,
        3624,
        5936,
        72,
        110,
    );
    assert(a.k[1] == absorption(band_of(blue.r, blue.g, blue.b, 1)));
    assert(b.k[1] == absorption(band_of(yellow.r, yellow.g, yellow.b, 1)));
    lemma_mixed_band(
        band_of(blue.r, blue.g, blue.b, 1),
        band_of(yellow.r, yellow.g, yellow.b, 1),
        752,
        773,
        79,
        101,
        33,
        41,
        4000,
        5369,
        2016,
        2706,
        137,
        171,
    );
    assert(a.k[2] == absorption(band_of(blue.r, blue.g, blue.b, 2)));
    assert(b.k[2] == absorption(band_of(yellow.r, yellow.g, yellow.b, 2)));
    lemma_mixed_band(
        band_of(blue.r, blue.g, blue.b, 2),
        band_of(yellow.r, yellow.g, yellow.b, 2),
        302,
        323,
        559,
        581,
        709,
        807,
        151,
        174,
        429,
        491,
        384,
        409,
    );
    assert(a.k[3] == absorption(band_of(blue.r, blue.g, blue.b, 3)));
    assert(b.k[3] == absorption(band_of(yellow.r, yellow.g, yellow.b, 3)));
    lemma_mixed_band(
        band_of(blue.r, blue.g, blue.b, 3),
        band_of(yellow.r, yellow.g, yellow.b, 3),
        39,
        61,
        842,
        863,
        7227,
        11841,
        10,
        15,
        3618,
        5929,
        72,
        110,
    );
    assert(a.k[4] == absorption(band_of(blue.r, blue.g, blue.b, 4)));
    assert(b.k[4] == absorption(band_of(yellow.r, yellow.g, yellow.b, 4)));
    lemma_mixed_band(
        band_of(blue.r, blue.g, blue.b, 4),
        band_of(yellow.r, yellow.g, yellow.b, 4),
        39,
        61,
        857,
        878,
        7227,
        11841,
        8,
        12,
        3617,
        5927,
        72,
        110,
    );
    assert(a.k[5] == absorption(band_of(blue.r, blue.g, blue.b, 5)));
    assert(b.k[5] == absorption(band_of(yellow.r, yellow.g, yellow.b, 5)));
    lemma_mixed_band(
        band_of(blue.r, blue.g, blue.b, 5),
        band_of(yellow.r, yellow.g, yellow.b, 5),
        39,
        61,
        887,
        908,
        7227,
        11841,
        4,
        8,
        3615,
        5925,
        72,
        110,
    );
    assert(a.k[6] == absorption(band_of(blue.r, blue.g, blue.b, 6)));
    assert(b.k[6] == absorption(band_of(yellow.r, yellow.g, yellow.b, 6)));
    lemma_mixed_band(
        band_of(blue.r, blue.g, blue.b, 6),
        band_of(yellow.r, yellow.g, yellow.b, 6),
        39,
        61,
        889,
        911,
        7227,
        11841,
        4,
        7,
        3615,
        5925,
        72,
        110,
    );
}

/// The sums along the curves and the correction have small errors, where `u` is 1.
spec fn summed(w: Way, eb: int, u: int) -> bool {
    &&& -0x1c_0000_0000 * u <= 0x8_0000 * w.ex <= 0x1c_0000_0000 * u
    &&& -0x1c_0000_0000 * u <= 0x8_0000 * w.ey <= 0x1c_0000_0000 * u
    &&& -0x1c_0000_0000 * u <= 0x8_0000 * w.ez <= 0x1c_0000_0000 * u
    &&& -0x8_0000_0000 * u <= 0x8_0000 * eb <= 0x8_0000_0000 * u
}

/// The bands of the mixture.
spec fn bands_of_mixture(w: Way, u: int) -> bool {
    &&& 72 * u <= 1000 * w.s0 <= 110 * u
    &&& 137 * u <= 1000 * w.s1 <= 171 * u
    &&& 384 * u <= 1000 * w.s2 <= 409 * u
    &&& 72 * u <= 1000 * w.s3 <= 110 * u
    &&& 72 * u <= 1000 * w.s4 <= 110 * u
    &&& 72 * u <= 1000 * w.s5 <= 110 * u
    &&& 72 * u <= 1000 * w.s6 <= 110 * u
}

/// The mixture has no red.
proof fn lemma_no_red(w: Way, red: int, eb: int, u: int)
    requires
        u > 0,
        bands_of_mixture(w, u),
        summed(w, eb, u),
        0x4_0000_0000_0000_0000 * red == super::red_of_bands(w, eb),
    ensures
        red < 0,
{
}

/// The mixture has more than a fifth of green, and not all.
proof fn lemma_some_green(w: Way, green: int, eb: int, u: int)
    requires
        u > 0,
        bands_of_mixture(w, u),
        summed(w, eb, u),
        0x4_0000_0000_0000_0000 * green == super::green_of_bands(w, eb),
    ensures
        5 * green > u,
        green < u,
{
}

/// The mixture has less than a fifth of blue, and some.
proof fn lemma_less_blue(w: Way, blue: int, eb: int, u: int)
    requires
        u > 0,
        bands_of_mixture(w, u),
        summed(w, eb, u),
        0x4_0000_0000_0000_0000 * blue == super::blue_of_bands(w, eb),
    ensures
        5 * blue < u,
        blue > 0,
{
}

/// A number from 0 to 1 is not moved when it is kept there, and one below becomes 0.
proof fn lemma_kept(x: Float32)
    requires
        x.finite(),
        x.value() < unit(),
        x.value() != 0,
    ensures
        x.value() > 0 ==> x.clamped(Float32(0), Float32(ONE)) == x && x.plain(),
        x.value() < 0 ==> x.clamped(Float32(0), Float32(ONE)) == Float32(0),
{
    lemma_constants();
    lemma_step(0, 0);
    if x.value() > 0 {
        lemma_not_negative(x);
        lemma_compared(x, Float32(0));
        lemma_compared(Float32(ONE), x);
    } else {
        crate::float32::lemma_order_is_order_of_values(x, Float32(0));
    }
}

/// The channels of a mixture before they are limited, from its bands.
proof fn lemma_mixture_channels(c: LinearRgba, s: Seq<Float32>)
    requires
        fractions(s),
        bands_of_mixture(way(c, s), unit()),
    ensures
        ({
            let red = crate::pigment::channel_of(s, RED_ROW@);
            let green = crate::pigment::channel_of(s, GREEN_ROW@);
            let blue = crate::pigment::channel_of(s, BLUE_ROW@);
            &&& red.finite() && green.finite() && blue.finite()
            &&& red.value() < 0
            &&& 5 * green.value() > unit() && green.value() < unit()
            &&& 5 * blue.value() < unit() && blue.value() > 0
        }),
{
    lemma_units();
    lemma_way_is_exact(c, s);
    lemma_x_sum(s);
    lemma_y_sum(s);
    lemma_z_sum(s);
    lemma_weights();
    let w = way(c, s);
    let x = integral(s, X_BAR@, 7);
    let y = integral(s, Y_BAR@, 7);
    let z = integral(s, Z_BAR@, 7);
    lemma_corrected(RED_ROW@, x, y, z, 0x4_ea30_5800, -0x3_f19c_e000, 0x1_076c_8c00);
    let red = corrected(RED_ROW@, x, y, z).value();
    let er = 0x2_0000_0000 * red - (0x4_ea30_5800 * x.value() + -0x3_f19c_e000 * y.value()
        + 0x1_076c_8c00 * z.value());
    lemma_red_identity(w, red, er);
    lemma_no_red(w, red, er, unit());
    lemma_corrected(GREEN_ROW@, x, y, z, -0xc659_4b00, 0x3_e20c_4800, -0x1_1ba5_e400);
    let green = corrected(GREEN_ROW@, x, y, z).value();
    let eg = 0x2_0000_0000 * green - (-0xc659_4b00 * x.value() + 0x3_e20c_4800 * y.value()
        + -0x1_1ba5_e400 * z.value());
    lemma_green_identity(w, green, eg);
    lemma_some_green(w, green, eg, unit());
    lemma_corrected(BLUE_ROW@, x, y, z, 0x1b4a_2340, -0x1_15e9_e200, 0x2_fa9f_c000);
    let blue = corrected(BLUE_ROW@, x, y, z).value();
    let eb = 0x2_0000_0000 * blue - (0x1b4a_2340 * x.value() + -0x1_15e9_e200 * y.value()
        + 0x2_fa9f_c000 * z.value());
    lemma_blue_identity(w, blue, eb);
    lemma_less_blue(w, blue, eb, unit());
}

/// Blue and yellow make green: in the color that the two mix to, half and half, there is more
/// green than red and more green than blue. Their average in linear RGB would be a gray.
pub proof fn lemma_blue_and_yellow_make_green(blue: LinearRgba, yellow: LinearRgba)
    requires
        is_blue(blue),
        is_yellow(yellow),
    ensures
        ({
            let mixture = PigmentView::of_color(blue).mixed(
                PigmentView::of_color(yellow),
                Float32(HALF),
            ).color();
            &&& mixture.r.below(mixture.g)
            &&& mixture.b.below(mixture.g)
        }),
{
    let mixture = PigmentView::of_color(blue).mixed(PigmentView::of_color(yellow), Float32(HALF));
    let s = mixture.spectrum();
    lemma_units();
    lemma_mixed_spectrum(blue, yellow);
    lemma_mixture_channels(blue, s);
    let red = crate::pigment::channel_of(s, RED_ROW@);
    let green = crate::pigment::channel_of(s, GREEN_ROW@);
    let bluish = crate::pigment::channel_of(s, BLUE_ROW@);
    lemma_kept(red);
    lemma_kept(green);
    lemma_kept(bluish);
    lemma_step(0, 0);
    lemma_compared(Float32(0), green);
    lemma_compared(bluish, green);
}

} // verus!
