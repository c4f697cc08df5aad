//! The sRGB transfer curve as formulas on the numbers involved, and the mean of two pigments.
//! Values are in units of `2^-149`, so that 1 is `unit()`.

use crate::brush::ONE;
use crate::float32::near::{
    lemma_difference_near, lemma_product_near, lemma_quotient_near, lemma_sum_near,
    lemma_whole_near, near, unit,
};
use crate::float32::Float32;
use crate::float64::error::{distance, size};
use crate::pigment::averaged;
use crate::ribbon::extent::moderate_width;
use crate::srgb::{
    decode_base, decoded, encoded, part, BYTE_MAX, ENCODED_LIMIT, GAIN, LINEAR_LIMIT, OFFSET, SLOPE,
};
use vstd::arithmetic::power2::*;
use vstd::prelude::*;

verus! {

/// `2^117`.
spec fn grain() -> int {
    pow2(117) as int
}

proof fn lemma_pattern(m: u32, s: int, n: int, k: int)
    requires
        117 <= s <= 149,
        0x80_0000 <= n < 0x100_0000,
        m == s * 0x80_0000 + n,
        k == n * pow2((s - 117) as nat),
    ensures
        Float32(m).value() == k * grain(),
        Float32(m).finite(),
        !Float32(m).negative(),
{
    crate::float32::lemma_step(s, n);
    lemma_pow2_adds(117, (s - 117) as nat);
    assert(n * (grain() * pow2((s - 117) as nat)) == (n * pow2((s - 117) as nat)) * grain())
        by (nonlinear_arith);
}

proof fn lemma_constants()
    ensures
        grain() >= 0x100_0000_0000_0000,
        unit() == 0x1_0000_0000 * grain(),
        Float32(ONE).value() == unit(),
        Float32(SLOPE).value() == 55_490_977_792 * grain(),
        Float32(GAIN).value() == 4_531_190_272 * grain(),
        Float32(OFFSET).value() == 236_223_200 * grain(),
        Float32(ENCODED_LIMIT).value() == 173_731_424 * grain(),
        Float32(LINEAR_LIMIT).value() == 13_446_684 * grain(),
        Float32(BYTE_MAX).value() == 255 * unit(),
        !Float32(SLOPE).negative() && !Float32(GAIN).negative() && !Float32(BYTE_MAX).negative(),
{
    lemma2_to64();
    lemma2_to64_rest();
    lemma_pow2_strictly_increases(56, 117);
    lemma_pow2_adds(32, 117);
    crate::float32::lemma_value_of_one();
    lemma_pattern(SLOPE, 129, 13_547_602, 55_490_977_792);
    lemma_pattern(GAIN, 126, 8_849_981, 4_531_190_272);
    lemma_pattern(OFFSET, 121, 14_763_950, 236_223_200);
    lemma_pattern(ENCODED_LIMIT, 121, 10_858_214, 173_731_424);
    lemma_pattern(LINEAR_LIMIT, 117, 13_446_684, 13_446_684);
    lemma_pattern(BYTE_MAX, 133, 0xff_0000, 1_095_216_660_480);
}

proof fn lemma_compared(x: Float32, y: Float32)
    requires
        x.finite(),
        y.finite(),
    ensures
        x.below(y) <==> x.value() < y.value(),
        x.at_most(y) <==> x.value() <= y.value(),
{
    crate::float32::lemma_order_is_order_of_values(x, y);
}

/// What is near as a multiple is near.
proof fn lemma_unscaled(a: int, b: int, slack: int, u: int)
    requires
        u > 0,
        slack >= 0,
        0x80_0000 * distance(a * u, b * u) <= size(b * u) + 0x80_0000 * (slack * u),
    ensures
        0x80_0000 * distance(a, b) <= size(b) + 0x80_0000 * slack,
{
    let d = a - b;
    assert(a * u - b * u == d * u) by (nonlinear_arith)
        requires
            d == a - b,
    ;
    let s = size(b);
    assert(size(b * u) == s * u) by (nonlinear_arith)
        requires
            u > 0,
            s == size(b),
            size(b) == if b < 0 { -b } else { b },
            size(b * u) == if b * u < 0 { -(b * u) } else { b * u },
    ;
    let m = s + 0x80_0000 * slack;
    assert(m * u == s * u + 0x80_0000 * (slack * u)) by (nonlinear_arith)
        requires
            m == s + 0x80_0000 * slack,
    ;
    assert(-m <= 0x80_0000 * d <= m) by (nonlinear_arith)
        requires
            -(m * u) <= 0x80_0000 * (d * u) <= m * u,
            u > 0,
    ;
}

proof fn lemma_dark_arithmetic(c: int, q: int, s: int, g: int, u: int)
    requires
        g >= 0x100_0000_0000_0000,
        u == 0x1_0000_0000 * g,
        s == 55_490_977_792 * g,
        0 <= c <= u,
        0 <= q,
        near(q * s, c * u, s),
    ensures
        0x1_0000 * distance(1292 * q, 100 * c) <= c + 0x1_0000 * 2000,
{
    // Both sides are multiples of the grain.
    let qk = 55_490_977_792 * q;
    let ck = 0x1_0000_0000 * c;
    assert(q * s == qk * g && c * u == ck * g && s == 55_490_977_792 * g) by (nonlinear_arith)
        requires
            qk == 55_490_977_792 * q,
            ck == 0x1_0000_0000 * c,
            u == 0x1_0000_0000 * g,
            s == 55_490_977_792 * g,
    ;
    lemma_unscaled(qk, ck, 55_490_977_792, g);
}

/// A dark encoded channel, below 0.04, is made linear by a division by 12.92; a bright one, above
/// 0.0417, is the power that it is given.
pub proof fn lemma_dark_channels_are_divided(c: Float32, power: Float32)
    requires
        c.finite(),
        !c.negative(),
        0 <= c.value() <= unit(),
    ensures
        25 * c.value() <= unit() ==> 0x1_0000 * distance(
            1292 * decoded(c, power).value(),
            100 * c.value(),
        ) <= c.value() + 0x1_0000 * 2000,
        24 * c.value() >= unit() ==> decoded(c, power) == power,
{
    lemma_constants();
    lemma_compared(c, Float32(ENCODED_LIMIT));
    if 25 * c.value() <= unit() {
        let s = Float32(SLOPE);
        lemma_quotient_near(c, s);
        let q = c.quotient(s);
        crate::float32::lemma_step(0, 0);
        if q.magnitude() > 0 {
            crate::float32::lemma_magnitude_value_increases(0, q.magnitude());
        }
        lemma_dark_arithmetic(c.value(), q.value(), s.value(), grain(), unit());
    }
}

proof fn lemma_light_arithmetic(c: int, z: int, s: int, g: int, u: int)
    requires
        g >= 0x100_0000_0000_0000,
        u == 0x1_0000_0000 * g,
        s == 55_490_977_792 * g,
        0 <= c <= u,
        near(z * u, s * c, u),
    ensures
        0x1000 * distance(100 * z, 1292 * c) <= c + 0x1000 * 200,
{
    let zk = 0x1_0000_0000 * z;
    let ck = 55_490_977_792 * c;
    assert(z * u == zk * g && s * c == ck * g) by (nonlinear_arith)
        requires
            zk == 0x1_0000_0000 * z,
            ck == 55_490_977_792 * c,
            u == 0x1_0000_0000 * g,
            s == 55_490_977_792 * g,
    ;
    lemma_unscaled(zk, ck, 0x1_0000_0000, g);
}

proof fn lemma_bright_arithmetic(p: int, m: int, o: int, z: int, s: int, g: int, u: int)
    requires
        g >= 0x100_0000_0000_0000,
        u == 0x1_0000_0000 * g,
        s == 4_531_190_272 * g,
        o == 236_223_200 * g,
        0 <= p <= u,
        near(m * u, s * p, u),
        near(z, m - o, 1),
    ensures
        0x400 * distance(1000 * z, 1055 * p - 55 * u) <= u,
{
    let mk = 0x1_0000_0000 * m;
    let pk = 4_531_190_272 * p;
    assert(m * u == mk * g && s * p == pk * g) by (nonlinear_arith)
        requires
            mk == 0x1_0000_0000 * m,
            pk == 4_531_190_272 * p,
            u == 0x1_0000_0000 * g,
            s == 4_531_190_272 * g,
    ;
    lemma_unscaled(mk, pk, 0x1_0000_0000, g);
}

/// A dark linear channel, below 0.0031, is encoded by a multiplication by 12.92; a bright one,
/// above 0.00314, as 1.055 times its power less 0.055.
pub proof fn lemma_dark_channels_are_multiplied(c: Float32, power: Float32)
    requires
        c.finite(),
        0 <= c.value() <= unit(),
        power.finite(),
        0 <= power.value() <= unit(),
    ensures
        320 * c.value() <= unit() ==> 0x1000 * distance(
            100 * encoded(c, power).value(),
            1292 * c.value(),
        ) <= c.value() + 0x1000 * 200,
        319 * c.value() >= unit() ==> 0x400 * distance(
            1000 * encoded(c, power).value(),
            1055 * power.value() - 55 * unit(),
        ) <= unit(),
{
    lemma_constants();
    lemma_compared(c, Float32(LINEAR_LIMIT));
    let (g, u) = (grain(), unit());
    if 320 * c.value() <= u {
        let s = Float32(SLOPE);
        lemma_product_near(s, c);
        lemma_light_arithmetic(c.value(), s.product(c).value(), s.value(), g, u);
    } else if 319 * c.value() >= u {
        let s = Float32(GAIN);
        let o = Float32(OFFSET);
        lemma_product_near(s, power);
        let m = s.product(power);
        lemma_gain_size(m.value(), power.value(), s.value(), g, u);
        lemma_difference_near(m, o);
        lemma_bright_arithmetic(
            power.value(),
            m.value(),
            o.value(),
            m.difference(o).value(),
            s.value(),
            g,
            u,
        );
    }
}

proof fn lemma_gain_size(m: int, p: int, s: int, g: int, u: int)
    requires
        g >= 0x100_0000_0000_0000,
        u == 0x1_0000_0000 * g,
        s == 4_531_190_272 * g,
        0 <= p <= u,
        near(m * u, s * p, u),
    ensures
        size(m) <= 2 * u,
{
    let mk = 0x1_0000_0000 * m;
    let pk = 4_531_190_272 * p;
    assert(m * u == mk * g && s * p == pk * g) by (nonlinear_arith)
        requires
            mk == 0x1_0000_0000 * m,
            pk == 4_531_190_272 * p,
            u == 0x1_0000_0000 * g,
            s == 4_531_190_272 * g,
    ;
    lemma_unscaled(mk, pk, 0x1_0000_0000, g);
}

proof fn lemma_base_arithmetic(c: int, o: int, a: int, q: int, s: int, g: int, u: int)
    requires
        g >= 0x100_0000_0000_0000,
        u == 0x1_0000_0000 * g,
        s == 4_531_190_272 * g,
        o == 236_223_200 * g,
        0 <= c <= u,
        near(a, c + o, 1),
        near(q * s, a * u, s),
        0 <= q,
    ensures
        0x400 * distance(1055 * q, 1000 * c + 55 * u) <= u,
{
    let qk = 4_531_190_272 * q;
    let ak = 0x1_0000_0000 * a;
    assert(q * s == qk * g && a * u == ak * g) by (nonlinear_arith)
        requires
            qk == 4_531_190_272 * q,
            ak == 0x1_0000_0000 * a,
            u == 0x1_0000_0000 * g,
            s == 4_531_190_272 * g,
    ;
    lemma_unscaled(qk, ak, 4_531_190_272, g);
}

/// What is raised to a power to decode a channel is the channel and 0.055, over 1.055.
pub proof fn lemma_decode_base_is_shifted(c: Float32)
    requires
        c.finite(),
        !c.negative(),
        0 <= c.value() <= unit(),
    ensures
        0x400 * distance(1055 * decode_base(c).value(), 1000 * c.value() + 55 * unit()) <= unit(),
{
    lemma_constants();
    let o = Float32(OFFSET);
    let s = Float32(GAIN);
    lemma_sum_near(c, o);
    let a = c.sum(o);
    lemma_quotient_near(a, s);
    let q = a.quotient(s);
    crate::float32::lemma_step(0, 0);
    if q.magnitude() > 0 {
        crate::float32::lemma_magnitude_value_increases(0, q.magnitude());
    }
    lemma_base_arithmetic(c.value(), o.value(), a.value(), q.value(), s.value(), grain(), unit());
}

/// A byte stands for that part of 255.
pub proof fn lemma_byte_is_part_of_255(byte: u8)
    ensures
        0x2000 * distance(255 * part(byte).value(), byte * unit()) <= unit(),
{
    lemma_constants();
    let u = unit();
    let n = byte as int;
    lemma_whole_near(n);
    let x = Float32::of_whole(n);
    let most = Float32(BYTE_MAX);
    let nu = n * u;
    assert(0 <= nu <= 255 * u) by (nonlinear_arith)
        requires
            nu == n * u,
            0 <= n <= 255,
            u > 0,
    ;
    lemma_quotient_near(x, most);
    let q = x.quotient(most).value();
    let q5 = 255 * q;
    assert(q * (255 * u) == q5 * u && 255 * u == 255 * u) by (nonlinear_arith)
        requires
            q5 == 255 * q,
    ;
    lemma_unscaled(q5, x.value(), 255, u);
}

proof fn lemma_bounded_product(a: int, b: int, m: int, n: int)
    requires
        -m <= a <= m,
        -n <= b <= n,
    ensures
        -(m * n) <= a * b <= m * n,
{
    assert(-(m * n) <= a * b <= m * n) by (nonlinear_arith)
        requires
            -m <= a <= m,
            -n <= b <= n,
    ;
}

proof fn lemma_mean_arithmetic(
    a: int,
    b: int,
    t: int,
    d: int,
    x: int,
    y: int,
    z: int,
    k: int,
    u: int,
)
    requires
        u >= 0x100_0000_0000_0000,
        u <= k,
        size(a) <= k && size(b) <= k,
        0 <= t <= u,
        near(d, u - t, 1),
        near(x * u, d * a, u),
        near(y * u, t * b, u),
        near(z, x + y, 1),
    ensures
        0x8_0000 * distance(z * u, a * (u - t) + b * t) <= k * u,
{
    let ku = k * u;
    assert(0x80_0000 * u <= ku) by (nonlinear_arith)
        requires
            ku == k * u,
            k >= 0x80_0000,
            u > 0,
    ;
    lemma_bounded_product(d, a, 2 * u, k);
    lemma_bounded_product(t, b, u, k);
    let da = d * a;
    let tb = t * b;
    assert((2 * u) * k == 2 * ku && u * k == ku) by (nonlinear_arith)
        requires
            ku == k * u,
    ;
    let xu = x * u;
    let yu = y * u;
    let xy = x + y;
    assert(xy * u == xu + yu) by (nonlinear_arith)
        requires
            xy == x + y,
            xu == x * u,
            yu == y * u,
    ;
    assert(-(5 * ku) <= xu + yu <= 5 * ku);
    assert(-(5 * k) <= xy <= 5 * k) by (nonlinear_arith)
        requires
            xy * u == xu + yu,
            -(5 * ku) <= xu + yu <= 5 * ku,
            ku == k * u,
            u > 0,
    ;
    let ez = z - xy;
    let ezu = ez * u;
    lemma_bounded_product(0x80_0000 * ez, u, 5 * k + 0x80_0000, u);
    assert((0x80_0000 * ez) * u == 0x80_0000 * ezu && (5 * k + 0x80_0000) * u == 5 * ku + 0x80_0000
        * u) by (nonlinear_arith)
        requires
            ezu == ez * u,
            ku == k * u,
    ;
    let ed = d - (u - t);
    let eda = ed * a;
    lemma_bounded_product(0x80_0000 * ed, a, u + 0x80_0000, k);
    assert((0x80_0000 * ed) * a == 0x80_0000 * eda && (u + 0x80_0000) * k == ku + 0x80_0000 * k)
        by (nonlinear_arith)
        requires
            eda == ed * a,
            ku == k * u,
    ;
    assert(0x80_0000 * k <= ku) by (nonlinear_arith)
        requires
            ku == k * u,
            u >= 0x80_0000,
            k > 0,
    ;
    assert(da == a * (u - t) + eda && tb == b * t) by (nonlinear_arith)
        requires
            da == d * a,
            tb == t * b,
            ed == d - (u - t),
            eda == ed * a,
    ;
    assert(z * u == xu + yu + ezu) by (nonlinear_arith)
        requires
            ez == z - xy,
            ezu == ez * u,
            xy * u == xu + yu,
    ;
}

/// What two pigments absorb or scatter together is the mean of what they do alone, weighed by
/// their parts, up to `2^-19` of the larger.
pub proof fn lemma_mixed_bands_are_weighed(a: Float32, b: Float32, t: Float32, k: int)
    requires
        moderate_width(a) && moderate_width(b),
        t.finite(),
        0 <= t.value() <= unit(),
        unit() <= k,
        size(a.value()) <= k && size(b.value()) <= k,
    ensures
        0x8_0000 * distance(
            averaged(a, b, t).value() * unit(),
            a.value() * (unit() - t.value()) + b.value() * t.value(),
        ) <= k * unit(),
{
    reveal(averaged);
    lemma_constants();
    let u = unit();
    let one = Float32(ONE);
    lemma_difference_near(one, t);
    let d = one.difference(t);
    lemma_product_near(d, a);
    lemma_product_near(t, b);
    let x = d.product(a);
    let y = t.product(b);
    let uu = u * u;
    assert(0x100_0000_0000_0000 * u <= uu) by (nonlinear_arith)
        requires
            uu == u * u,
            u >= 0x100_0000_0000_0000,
    ;
    lemma_bounded_product(d.value(), a.value(), 2 * u, 256 * u);
    lemma_bounded_product(t.value(), b.value(), 2 * u, 256 * u);
    assert((2 * u) * (256 * u) == 512 * uu) by (nonlinear_arith)
        requires
            uu == u * u,
    ;
    let (xv, yv) = (x.value(), y.value());
    let (xu, yu) = (xv * u, yv * u);
    assert(-(1024 * u) <= xv <= 1024 * u && -(1024 * u) <= yv <= 1024 * u) by (nonlinear_arith)
        requires
            xu == xv * u,
            yu == yv * u,
            -(1024 * uu) <= xu <= 1024 * uu,
            -(1024 * uu) <= yu <= 1024 * uu,
            uu == u * u,
            u > 0,
    ;
    lemma_sum_near(x, y);
    lemma_mean_arithmetic(
        a.value(),
        b.value(),
        t.value(),
        d.value(),
        xv,
        yv,
        x.sum(y).value(),
        k,
        u,
    );
}

} // verus!
