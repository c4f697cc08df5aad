//! What comes back of a color that was turned into a pigment: nearly the color itself.

use crate::brush::{LinearRgba, ONE};
use crate::float32::near::{
    lemma_difference_near, lemma_product_near, lemma_quotient_near, lemma_root_near, lemma_sum_near,
    near, nearer, unit,
};
use crate::float32::{
    lemma_exact_value_rounds_to_itself, lemma_magnitude_value_increases, lemma_step, Float32,
};
use crate::float64::error::{distance, size};
use crate::pigment::{
    absorption, band_of, corrected, integral, reflectance, PigmentView, BLUE_ROW, B_BASIS,
    GREEN_ROW, G_BASIS, RED_ROW, REFLECTANCE_CEIL, REFLECTANCE_FLOOR, R_BASIS, TWO, X_BAR, Y_BAR,
    Z_BAR,
};
use vstd::arithmetic::power2::*;
use vstd::prelude::*;

pub mod green;

verus! {

/// `2^116`, of which all the constants are multiples.
spec fn grain() -> int {
    pow2(116) as int
}

proof fn lemma_units()
    ensures
        unit() == 0x2_0000_0000 * grain(),
        grain() == 0x10_0000_0000_0000_0000_0000_0000_0000,
{
    lemma2_to64();
    lemma2_to64_rest();
    lemma_pow2_adds(116, 33);
    lemma_pow2_adds(52, 64);
}

/// The value of a pattern from its significand `n` and scale `s`.
proof fn lemma_pattern(m: u32, s: int, n: int, k: int)
    requires
        116 <= s <= 149,
        0x80_0000 <= n < 0x100_0000,
        m == s * 0x80_0000 + n,
        k == n * pow2((s - 116) as nat),
    ensures
        Float32(m).value() == k * grain(),
        Float32(m).plain(),
{
    lemma_step(s, n);
    lemma_pow2_adds(116, (s - 116) as nat);
    assert(n * (grain() * pow2((s - 116) as nat)) == (n * pow2((s - 116) as nat)) * grain())
        by (nonlinear_arith);
}

/// Comparing patterns is comparing values.
proof fn lemma_compared(x: Float32, y: Float32)
    requires
        x.plain(),
        y.plain(),
    ensures
        x.below(y) <==> x.value() < y.value(),
        x.value() >= 0,
        y.value() >= 0,
{
    let a = x.magnitude();
    let b = y.magnitude();
    if a < b {
        lemma_magnitude_value_increases(a, b);
    } else if b < a {
        lemma_magnitude_value_increases(b, a);
    }
    lemma_step(0, 0);
    if a > 0 {
        lemma_magnitude_value_increases(0, a);
    }
    if b > 0 {
        lemma_magnitude_value_increases(0, b);
    }
}

/// `a` lies within one part in `2^22` of `b`.
spec fn close(a: int, b: int) -> bool {
    0x40_0000 * distance(a, b) <= b
}

proof fn lemma_near_is_close(a: int, b: int, slack: int)
    requires
        near(a, b, slack),
        b >= 0x80_0000 * slack,
        slack >= 0,
    ensures
        close(a, b),
{
}

/// `a` lies within one part in nearly `2^24` of `b`.
spec fn closer(a: int, b: int) -> bool {
    0xff_ff00 * distance(a, b) <= b
}

proof fn lemma_nearer_is_closer(a: int, b: int, slack: int)
    requires
        nearer(a, b, slack),
        b >= 0x200_0000_0000 * slack,
        slack >= 0,
    ensures
        closer(a, b),
{
}

/// Errors of the four operations that turn a reflectance into an absorption: `rest` is
/// `1 - c`, and in the end twice `c` times the absorption is close to its square.
proof fn lemma_absorbed_chain(c: int, rest: int, d: int, square: int, twice: int, k: int)
    requires
        c > 0,
        rest > 0,
        k >= 0,
        d >= 0,
        close(d, rest),
        close(square, d * d),
        close(twice, 2 * c),
        close(k * twice, square),
    ensures
        0x8_0000 * distance(2 * c * k, rest * rest) <= rest * rest,
{
    let a2 = rest * rest;
    let d2 = d * d;
    let y = 2 * c * k;
    let kt = k * twice;
    assert(0xfff_ff80_0001 * a2 <= 0x1000_0000_0000 * d2 <= 0x1000_0080_0001 * a2)
        by (nonlinear_arith)
        requires
            0x3f_ffff * rest <= 0x40_0000 * d <= 0x40_0001 * rest,
            rest > 0,
            d >= 0,
            a2 == rest * rest,
            d2 == d * d,
    ;
    assert(0x3f_ffff * y <= 0x40_0000 * kt) by (nonlinear_arith)
        requires
            0x3f_ffff * (2 * c) <= 0x40_0000 * twice,
            y == 2 * c * k,
            kt == k * twice,
            k >= 0,
    ;
    assert(0x40_0000 * kt <= 0x40_0001 * y) by (nonlinear_arith)
        requires
            0x40_0000 * twice <= 0x40_0001 * (2 * c),
            y == 2 * c * k,
            kt == k * twice,
            k >= 0,
    ;
    lemma_absorbed_bounds(a2, d2, square, kt, y);
}

proof fn lemma_absorbed_bounds(a2: int, d2: int, square: int, kt: int, y: int)
    requires
        a2 >= 0,
        0xfff_ff80_0001 * a2 <= 0x1000_0000_0000 * d2 <= 0x1000_0080_0001 * a2,
        0x3f_ffff * d2 <= 0x40_0000 * square <= 0x40_0001 * d2,
        0x3f_ffff * square <= 0x40_0000 * kt <= 0x40_0001 * square,
        0x3f_ffff * y <= 0x40_0000 * kt <= 0x40_0001 * y,
    ensures
        0x8_0000 * distance(y, a2) <= a2,
{
}

proof fn lemma_constants()
    ensures
        Float32(ONE).plain() && Float32(ONE).value() == unit(),
        Float32(TWO).plain() && Float32(TWO).value() == 2 * unit(),
        Float32(REFLECTANCE_FLOOR).plain() && Float32(REFLECTANCE_FLOOR).value() == 0x83_126f
            * grain(),
        Float32(REFLECTANCE_CEIL).plain() && Float32(REFLECTANCE_CEIL).value() == 0x1_ffff_de00
            * grain(),
{
    lemma2_to64();
    lemma_units();
    lemma_pattern(ONE, 126, 0x80_0000, 0x2_0000_0000);
    lemma_pattern(TWO, 127, 0x80_0000, 0x4_0000_0000);
    lemma_pattern(REFLECTANCE_FLOOR, 116, 0x83_126f, 0x83_126f);
    lemma_pattern(REFLECTANCE_CEIL, 125, 0xff_ffef, 0x1_ffff_de00);
}

/// A reflectance that absorption is computed for.
spec fn reflecting(c: Float32) -> bool {
    c.plain() && 0x83_126f * grain() <= c.value() <= 0x1_ffff_de00 * grain()
}

/// The absorption of a reflectance.
spec fn absorbed(c: Float32) -> Float32 {
    let d = Float32(ONE).difference(c);
    d.product(d).quotient(Float32(TWO).product(c))
}

/// Twice a reflectance times its absorption is close to the square of what it lacks to 1.
proof fn lemma_absorbed(c: Float32)
    requires
        reflecting(c),
    ensures
        ({
            let k = absorbed(c);
            let rest = unit() - c.value();
            &&& k.plain()
            &&& grain() <= 0x1_0000 * k.value()
            &&& k.value() <= 501 * unit()
            &&& 0x8_0000 * distance(2 * c.value() * k.value(), rest * rest) <= rest * rest
        }),
{
    lemma_units();
    lemma_constants();
    let u = unit();
    let g = grain();
    let v = c.value();
    let rest = u - v;
    let d = Float32(ONE).difference(c);
    lemma_difference_near(Float32(ONE), c);
    lemma_near_is_close(d.value(), rest, 1);
    let dv = d.value();
    assert(8000 * g <= dv <= 2 * u);
    lemma_product_near(d, d);
    let dd = d.product(d);
    let d2 = dv * dv;
    assert(0x80_0000 * u <= d2) by (nonlinear_arith)
        requires
            d2 == dv * dv,
            dv >= 8000 * g,
            u == 0x2_0000_0000 * g,
            g >= 0x1000_0000_0000_0000,
    ;
    let square = dd.value() * u;
    lemma_near_is_close(square, d2, u);
    let t = Float32(TWO).product(c);
    lemma_product_near(Float32(TWO), c);
    assert((2 * u) * v == (2 * v) * u) by (nonlinear_arith);
    lemma_scaled_nearer(t.value(), 2 * v, u);
    lemma_near_is_close(t.value(), 2 * v, 1);
    let tv = t.value();
    assert(0x100_0000 * g <= tv <= 3 * u);
    // The square of the rest is at most a little above 1, and not negative.
    let sv = dd.value();
    assert(0 < sv <= 2 * u) by (nonlinear_arith)
        requires
            square == sv * u,
            u > 0,
            0x40_0000 * square <= 0x40_0001 * d2,
            0x40_0000 * square >= 0x3f_ffff * d2,
            d2 == dv * dv,
            0 < dv,
            0x40_0000 * dv <= 0x40_0001 * u,
    ;
    lemma_not_negative(dd);
    lemma_not_negative(t);
    lemma_quotient_near(dd, t);
    let k = absorbed(c);
    let kv = k.value();
    assert(square >= 0x80_0000 * tv) by (nonlinear_arith)
        requires
            0x40_0000 * square >= 0x3f_ffff * d2,
            d2 == dv * dv,
            dv >= 8000 * g,
            tv <= 3 * u,
            u == 0x2_0000_0000 * g,
            g >= 0x1000_0000_0000_0000,
    ;
    lemma_near_is_close(kv * tv, square, tv);
    lemma_compared(Float32(0), k);
    lemma_absorbed_chain(v, rest, dv, square, tv, kv);
    let a2 = rest * rest;
    let y = 2 * v * kv;
    assert(kv <= 501 * u) by (nonlinear_arith)
        requires
            0x8_0000 * y <= 0x8_0001 * a2,
            a2 == rest * rest,
            0 < rest <= u,
            y == 2 * v * kv,
            v >= 0x83_126f * g,
            u == 0x2_0000_0000 * g,
            g > 0,
            kv >= 0,
    ;
    assert(0x1_0000 * kv >= g) by (nonlinear_arith)
        requires
            0x8_0000 * y >= 0x7_ffff * a2,
            a2 == rest * rest,
            rest >= 8000 * g,
            y == 2 * v * kv,
            0 < v <= u,
            u == 0x2_0000_0000 * g,
            g > 0,
            kv >= 0,
    ;
}

/// A number with a positive value is not negative.
proof fn lemma_not_negative(x: Float32)
    requires
        x.value() > 0,
    ensures
        !x.negative(),
{
    lemma_step(0, 0);
    if x.magnitude() > 0 {
        lemma_magnitude_value_increases(0, x.magnitude());
    }
}

/// What is nearer in squared units is nearer in units.
proof fn lemma_scaled_nearer(a: int, b: int, u: int)
    requires
        nearer(a * u, b * u, u),
        u > 0,
        b >= 0,
    ensures
        nearer(a, b, 1),
{
    let d = distance(a, b);
    assert(distance(a * u, b * u) == d * u) by (nonlinear_arith)
        requires
            d == distance(a, b),
            u > 0,
    ;
    assert(0xff_ffff * d <= b + 0x100_0000) by (nonlinear_arith)
        requires
            0xff_ffff * (d * u) <= b * u + 0x100_0000 * u,
            u > 0,
    ;
}

/// A number divided by 1 is itself.
proof fn lemma_over_one(x: Float32)
    requires
        x.plain(),
    ensures
        x.quotient(Float32(ONE)) == x,
{
    lemma_constants();
    lemma_units();
    lemma_step(0, 0);
    lemma_exact_value_rounds_to_itself(x.magnitude(), unit());
}

/// Errors of the operations under the root: with `q` for `k^2 + 2k` they come out close to it.
proof fn lemma_inner_chain(k: int, u: int, square: int, twice: int, inner: int)
    requires
        k > 0,
        u > 0,
        closer(square * u, k * k),
        closer(twice, 2 * k),
        closer(inner, square + twice),
    ensures
        0x7f_ff00 * distance(inner * u, k * k + 2 * k * u) <= k * k + 2 * k * u,
{
    let k2 = k * k;
    let ku = 2 * k * u;
    let su = square * u;
    let tu = twice * u;
    let iu = inner * u;
    assert(0xff_feff * ku <= 0xff_ff00 * tu <= 0xff_ff01 * ku) by (nonlinear_arith)
        requires
            0xff_feff * (2 * k) <= 0xff_ff00 * twice <= 0xff_ff01 * (2 * k),
            tu == twice * u,
            ku == 2 * k * u,
            u > 0,
    ;
    assert(0xff_feff * (su + tu) <= 0xff_ff00 * iu <= 0xff_ff01 * (su + tu)) by (nonlinear_arith)
        requires
            0xff_feff * (square + twice) <= 0xff_ff00 * inner <= 0xff_ff01 * (square + twice),
            su == square * u,
            tu == twice * u,
            iu == inner * u,
            u > 0,
    ;
    assert(k2 >= 0 && ku >= 0) by (nonlinear_arith)
        requires
            k > 0,
            u > 0,
            k2 == k * k,
            ku == 2 * k * u,
    ;
    lemma_inner_bounds(k2, ku, su, tu, iu);
}

proof fn lemma_inner_bounds(k2: int, ku: int, su: int, tu: int, iu: int)
    requires
        k2 >= 0,
        ku >= 0,
        0xff_feff * k2 <= 0xff_ff00 * su <= 0xff_ff01 * k2,
        0xff_feff * ku <= 0xff_ff00 * tu <= 0xff_ff01 * ku,
        0xff_feff * (su + tu) <= 0xff_ff00 * iu <= 0xff_ff01 * (su + tu),
    ensures
        0x7f_ff00 * distance(iu, k2 + ku) <= k2 + ku,
{
}

/// The root comes out close to `g`, which is `1 + k - c`: their squares differ by the errors
/// under the root, of the root and of the absorption.
proof fn lemma_root_chain(c: int, k: int, u: int, inner: int, root: int)
    requires
        0 < c < u,
        k > 0,
        root > 0,
        ({
            let rest = u - c;
            0x8_0000 * distance(2 * c * k, rest * rest) <= rest * rest
        }),
        0x7f_ff00 * distance(inner * u, k * k + 2 * k * u) <= k * k + 2 * k * u,
        0x7f_ffff * distance(root * root, inner * u) <= root * root,
    ensures
        0x7e_0000 * distance(root, u + k - c) <= (u + k - c) + 9 * (u - c),
{
    let rest = u - c;
    let g = rest + k;
    let q = k * k + 2 * k * u;
    let a2 = rest * rest;
    let y = 2 * c * k;
    let g2 = g * g;
    let s2 = root * root;
    let iu = inner * u;
    assert(g2 == q + a2 - y) by (nonlinear_arith)
        requires
            g == rest + k,
            g2 == g * g,
            q == k * k + 2 * k * u,
            a2 == rest * rest,
            y == 2 * c * k,
            rest == u - c,
    ;
    assert(q >= 0 && a2 >= 0 && s2 >= 0) by (nonlinear_arith)
        requires
            q == k * k + 2 * k * u,
            k > 0,
            u > 0,
            a2 == rest * rest,
            s2 == root * root,
    ;
    lemma_root_bounds(q, a2, y, iu, s2, g2);
    assert(a2 <= rest * g) by (nonlinear_arith)
        requires
            a2 == rest * rest,
            g == rest + k,
            rest > 0,
            k > 0,
    ;
    lemma_root_distance(root, g, rest);
}

/// Numbers whose squares differ by little differ by half as much of the number.
proof fn lemma_root_distance(root: int, g: int, rest: int)
    requires
        root > 0,
        0 < rest <= g,
        0x7f_0000 * distance(root * root, g * g) <= 2 * (g * g) + 17 * (rest * g),
    ensures
        0x7e_0000 * distance(root, g) <= g + 9 * rest,
{
    let e = distance(root, g);
    let s2 = root * root;
    let g2 = g * g;
    let d = distance(s2, g2);
    assert(d == e * (root + g)) by (nonlinear_arith)
        requires
            e == distance(root, g),
            s2 == root * root,
            g2 == g * g,
            d == distance(s2, g2),
            root > 0,
            g > 0,
    ;
    assert(e * g <= e * (root + g)) by (nonlinear_arith)
        requires
            e >= 0,
            root > 0,
    ;
    assert(0x7f_0000 * e <= 2 * g + 17 * rest) by (nonlinear_arith)
        requires
            0x7f_0000 * (e * g) <= 2 * (g * g) + 17 * (rest * g),
            g > 0,
    ;
    // So the root is at least `g` less a small part of it.
    assert(0x4_0000 * e <= g);
    assert(0x7_ffff * (e * g) <= 0x4_0000 * (e * (root + g))) by (nonlinear_arith)
        requires
            0x4_0000 * e <= g,
            root >= g - e,
            e >= 0,
            g > 0,
    ;
    assert(0x7f_0000 * (0x7_ffff * e) <= 0x4_0000 * (2 * g + 17 * rest)) by (nonlinear_arith)
        requires
            0x7f_0000 * (0x7_ffff * (e * g)) <= 0x4_0000 * (2 * (g * g) + 17 * (rest * g)),
            g > 0,
    ;
}

proof fn lemma_root_bounds(q: int, a2: int, y: int, iu: int, s2: int, g2: int)
    requires
        q >= 0,
        a2 >= 0,
        s2 >= 0,
        g2 == q + a2 - y,
        0x8_0000 * distance(y, a2) <= a2,
        0x7f_ff00 * distance(iu, q) <= q,
        0x7f_ffff * distance(s2, iu) <= s2,
    ensures
        0x7f_0000 * distance(s2, g2) <= 2 * g2 + 17 * a2,
{
}

/// An absorption that a reflectance can be computed from without trouble: neither tiny nor
/// above 501.
spec fn absorbing(k: Float32) -> bool {
    k.plain() && grain() <= 0x1_0000 * k.value() && k.value() <= 501 * unit()
}

/// What stands under the root in the formula for a reflectance.
spec fn under_root(k: Float32) -> Float32 {
    k.product(k).sum(Float32(TWO).product(k))
}

/// The reflectance before it is limited.
spec fn unlimited(k: Float32) -> Float32 {
    Float32(ONE).sum(k).difference(under_root(k).root())
}

/// The steps of the formula for a reflectance: each comes out near the exact value.
proof fn lemma_reflectance_steps(k: Float32)
    requires
        absorbing(k),
    ensures
        ({
            let u = unit();
            let kv = k.value();
            let q = kv * kv + 2 * kv * u;
            let inner = under_root(k).value();
            let root = under_root(k).root().value();
            let whole = Float32(ONE).sum(k).value();
            &&& reflectance(k, Float32(ONE)) == unlimited(k).clamped(Float32(0), Float32(ONE))
            &&& unlimited(k).finite()
            &&& root > 0
            &&& 0x7f_ff00 * distance(inner * u, q) <= q
            &&& 0x7f_ffff * distance(root * root, inner * u) <= root * root
            &&& closer(whole, u + kv)
            &&& nearer(unlimited(k).value(), whole - root, 1)
        }),
{
    reveal(reflectance);
    lemma_units();
    lemma_constants();
    let u = unit();
    let g = grain();
    let kv = k.value();
    lemma_over_one(k);
    lemma_compared(Float32(0), Float32(ONE));
    // Under the root.
    lemma_product_near(k, k);
    let square = k.product(k);
    let k2 = kv * kv;
    let su = square.value() * u;
    assert(k2 >= 0x200_0000_0000 * u) by (nonlinear_arith)
        requires
            k2 == kv * kv,
            0x1_0000 * kv >= g,
            u == 0x2_0000_0000 * g,
            g == 0x10_0000_0000_0000_0000_0000_0000_0000,
    ;
    lemma_nearer_is_closer(su, k2, u);
    lemma_product_near(Float32(TWO), k);
    let twice = Float32(TWO).product(k);
    assert((2 * u) * kv == (2 * kv) * u) by (nonlinear_arith);
    lemma_scaled_nearer(twice.value(), 2 * kv, u);
    lemma_nearer_is_closer(twice.value(), 2 * kv, 1);
    let sv = square.value();
    let tv = twice.value();
    assert(0 < sv <= 0x4_0000 * u) by (nonlinear_arith)
        requires
            su == sv * u,
            u > 0,
            0xff_ff00 * su <= 0xff_ff01 * k2,
            0xff_ff00 * su >= 0xff_feff * k2,
            k2 == kv * kv,
            0 < kv <= 501 * u,
    ;
    lemma_sum_near(square, twice);
    let inner = square.sum(twice);
    let iv = inner.value();
    lemma_nearer_is_closer(iv, sv + tv, 1);
    lemma_inner_chain(kv, u, sv, tv, iv);
    lemma_not_negative(inner);
    lemma_compared(inner, Float32(0));
    assert(inner.larger(Float32(0)) == inner);
    // The root.
    lemma_root_near(inner);
    let root = inner.root();
    let rv = root.value();
    lemma_root_is_moderate(kv, u, iv, rv);
    // What is left.
    lemma_sum_near(Float32(ONE), k);
    let whole = Float32(ONE).sum(k);
    lemma_nearer_is_closer(whole.value(), u + kv, 1);
    lemma_difference_near(whole, root);
}

proof fn lemma_root_is_moderate(k: int, u: int, inner: int, root: int)
    requires
        0 < k <= 501 * u,
        u > 0,
        root > 0,
        0x7f_ff00 * distance(inner * u, k * k + 2 * k * u) <= k * k + 2 * k * u,
        0x7f_ffff * distance(root * root, inner * u) <= root * root,
    ensures
        root <= 1004 * u,
{
    let q = k * k + 2 * k * u;
    let iu = inner * u;
    let r2 = root * root;
    let uu = u * u;
    assert(0 <= q <= 252_003 * uu) by (nonlinear_arith)
        requires
            q == k * k + 2 * k * u,
            0 < k <= 501 * u,
            uu == u * u,
            u > 0,
    ;
    assert(r2 <= 2 * q);
    assert(root <= 1004 * u) by (nonlinear_arith)
        requires
            r2 == root * root,
            r2 <= 504_006 * uu,
            uu == u * u,
            root > 0,
            u > 0,
    ;
}

/// What a pigment reflects that absorbs what a reflectance gives: nearly that reflectance.
proof fn lemma_reflected(c: Float32)
    requires
        reflecting(c),
    ensures
        ({
            let r = reflectance(absorbed(c), Float32(ONE));
            &&& r.finite()
            &&& 0 <= r.value() <= unit()
            &&& 10_000 * distance(r.value(), c.value()) <= unit()
        }),
{
    lemma_units();
    lemma_constants();
    lemma_absorbed(c);
    let k = absorbed(c);
    lemma_reflectance_steps(k);
    let v = c.value();
    lemma_root_chain(
        v,
        k.value(),
        unit(),
        under_root(k).value(),
        under_root(k).root().value(),
    );
    lemma_clamped(unlimited(k), v);
}

/// Keeping a number within 0 and 1 brings it no further away from one that lies there.
proof fn lemma_clamped(x: Float32, v: int)
    requires
        x.finite(),
        0 <= v <= unit(),
    ensures
        ({
            let y = x.clamped(Float32(0), Float32(ONE));
            &&& y.finite()
            &&& 0 <= y.value() <= unit()
            &&& distance(y.value(), v) <= distance(x.value(), v)
        }),
{
    lemma_units();
    lemma_constants();
    lemma_step(0, 0);
    if x.magnitude() > 0 {
        lemma_magnitude_value_increases(0, x.magnitude());
    }
    if !x.negative() {
        lemma_compared(x, Float32(0));
        lemma_compared(Float32(ONE), x);
    }
}

/// The number of grains of 1.
spec fn full() -> int {
    0x2_0000_0000
}

/// The value of a weight from its grains: 0, or the pattern of a number of either sign.
spec fn weighs(m: u32, k: int) -> bool {
    Float32(m).finite() && Float32(m).value() == k * grain()
}

/// A number times a weight of `k` grains.
proof fn lemma_weighted(x: Float32, m: u32, k: int)
    requires
        x.finite(),
        size(x.value()) <= 2 * unit(),
        weighs(m, k),
        size(k) <= 3 * full(),
    ensures
        x.product(Float32(m)).finite(),
        x.product(Float32(m)) == Float32(m).product(x),
        0x10_0000 * distance(x.product(Float32(m)).value() * full(), x.value() * k) <= full()
            * unit(),
        size(x.value() * k) <= 6 * (full() * unit()),
{
    lemma_units();
    let u = unit();
    let g = grain();
    let h = full();
    let v = x.value();
    let w = k * g;
    assert(size(w) <= 1024 * u) by (nonlinear_arith)
        requires
            w == k * g,
            size(k) <= 3 * h,
            h == 0x2_0000_0000,
            u == h * g,
            g > 0,
    ;
    lemma_product_near(x, Float32(m));
    crate::float32::identities::lemma_product_commutes(x, Float32(m));
    let p = x.product(Float32(m)).value();
    let exact = v * k;
    assert(v * w == exact * g) by (nonlinear_arith)
        requires
            w == k * g,
            exact == v * k,
    ;
    let ph = p * h;
    assert(p * u == ph * g) by (nonlinear_arith)
        requires
            u == h * g,
            ph == p * h,
    ;
    let d = distance(ph, exact);
    assert(distance(ph * g, exact * g) == d * g) by (nonlinear_arith)
        requires
            d == distance(ph, exact),
            g > 0,
    ;
    let e = size(exact);
    assert(size(exact * g) == e * g) by (nonlinear_arith)
        requires
            e == size(exact),
            g > 0,
    ;
    assert(0x80_0000 * d <= e + 0x80_0000 * h) by (nonlinear_arith)
        requires
            0x80_0000 * (d * g) <= e * g + 0x80_0000 * u,
            u == h * g,
            g > 0,
    ;
    let hu = h * u;
    assert(e <= 6 * hu) by (nonlinear_arith)
        requires
            e == size(v * k),
            size(v) <= 2 * u,
            size(k) <= 3 * h,
            hu == h * u,
    ;
    assert(hu >= 0x1000_0000 * h) by (nonlinear_arith)
        requires
            hu == h * u,
            u >= 0x1000_0000,
            h > 0,
    ;
}

/// A sum of numbers around 1.
proof fn lemma_added(x: Float32, y: Float32)
    requires
        x.finite(),
        y.finite(),
        size(x.value()) + size(y.value()) <= 15 * unit(),
    ensures
        x.sum(y).finite(),
        0x8_0000 * distance(x.sum(y).value(), x.value() + y.value()) <= unit(),
{
    lemma_units();
    lemma_sum_near(x, y);
}

/// A distance, in finer units.
proof fn lemma_finer(a: int, b: int, h: int)
    requires
        h > 0,
    ensures
        distance(a * h, b * h) == distance(a, b) * h,
{
    assert(distance(a * h, b * h) == distance(a, b) * h) by (nonlinear_arith)
        requires
            h > 0,
    ;
}

/// A channel between 0 and 1.
pub open spec fn fraction(x: Float32) -> bool {
    x.finite() && 0 <= x.value() <= unit()
}

proof fn lemma_fraction_stays(x: Float32)
    requires
        fraction(x),
    ensures
        x.larger(Float32(0)) == x,
{
    lemma_step(0, 0);
    if x.magnitude() > 0 {
        lemma_magnitude_value_increases(0, x.magnitude());
    }
}

/// The reflectance of a color in a band, spread there by three weights and limited.
proof fn lemma_limited(b: Float32)
    requires
        b.finite(),
    ensures
        ({
            let c = b.clamped(Float32(REFLECTANCE_FLOOR), Float32(REFLECTANCE_CEIL));
            let low = 0x83_126f * grain();
            let high = 0x1_ffff_de00 * grain();
            &&& reflecting(c)
            &&& c.value() == (if b.value() < low {
                low
            } else if b.value() > high {
                high
            } else {
                b.value()
            })
        }),
{
    lemma_units();
    lemma_constants();
    lemma_step(0, 0);
    if b.magnitude() > 0 {
        lemma_magnitude_value_increases(0, b.magnitude());
    }
    if !b.negative() {
        lemma_compared(b, Float32(REFLECTANCE_FLOOR));
        lemma_compared(Float32(REFLECTANCE_CEIL), b);
    }
}

/// A reflectance comes back from its absorption: within one part in 10000 of the
/// reflectance that absorption is computed for.
pub proof fn lemma_reflectance_returns(r: Float32)
    requires
        r.finite(),
    ensures
        ({
            let c = r.clamped(Float32(REFLECTANCE_FLOOR), Float32(REFLECTANCE_CEIL));
            let back = reflectance(absorption(r), Float32(ONE));
            fraction(back) && 10_000 * distance(back.value(), c.value()) <= unit()
        }),
{
    reveal(absorption);
    lemma_limited(r);
    lemma_reflected(r.clamped(Float32(REFLECTANCE_FLOOR), Float32(REFLECTANCE_CEIL)));
}

/// The absorption of a reflectance is the square of what the reflectance lacks to 1 over twice the
/// reflectance, up to `2^-19` of it.
pub proof fn lemma_absorption_is_of_what_is_lacking(r: Float32)
    requires
        r.finite(),
    ensures
        ({
            let c = r.clamped(Float32(REFLECTANCE_FLOOR), Float32(REFLECTANCE_CEIL)).value();
            let lacking = unit() - c;
            &&& 0 < c < unit()
            &&& 0x8_0000 * distance(2 * c * absorption(r).value(), lacking * lacking) <= lacking
                * lacking
        }),
{
    reveal(absorption);
    lemma_limited(r);
    lemma_units();
    lemma_absorbed(r.clamped(Float32(REFLECTANCE_FLOOR), Float32(REFLECTANCE_CEIL)));
}

/// What a pigment reflects is decided by the ratio of what it absorbs to what it scatters; one that
/// does not scatter reflects nothing.
pub proof fn lemma_ratio_decides_the_reflectance(k: Float32, s: Float32)
    ensures
        s.at_most(Float32(0)) ==> reflectance(k, s) == Float32(0),
        !s.at_most(Float32(0)) && k.quotient(s).plain() ==> reflectance(k, s) == reflectance(
            k.quotient(s),
            Float32(ONE),
        ),
{
    reveal(reflectance);
    if !s.at_most(Float32(0)) && k.quotient(s).plain() {
        lemma_over_one(k.quotient(s));
        lemma_constants();
        lemma_units();
        lemma_step(0, 0);
    }
}

/// The band of a color is near what the color spreads there.
proof fn lemma_band_value(r: Float32, g: Float32, b: Float32, i: int, kr: int, kg: int, kb: int)
    requires
        fraction(r),
        fraction(g),
        fraction(b),
        0 <= i < 7,
        weighs(R_BASIS[i], kr),
        weighs(G_BASIS[i], kg),
        weighs(B_BASIS[i], kb),
        0 <= kr,
        0 <= kg,
        0 <= kb,
        kr + kg + kb <= full(),
    ensures
        ({
            let band = band_of(r, g, b, i);
            let spread = r.value() * kr + g.value() * kg + b.value() * kb;
            &&& band.finite()
            &&& 0 <= spread <= full() * unit()
            &&& 0x10_0000 * distance(band.value() * full(), spread) <= 7 * (full() * unit())
        }),
{
    reveal(band_of);
    lemma_units();
    lemma_constants();
    let u = unit();
    let h = full();
    let hu = h * u;
    lemma_fraction_stays(r);
    lemma_fraction_stays(g);
    lemma_fraction_stays(b);
    lemma_weighted(r, R_BASIS[i], kr);
    lemma_weighted(g, G_BASIS[i], kg);
    lemma_weighted(b, B_BASIS[i], kb);
    let p = r.product(Float32(R_BASIS[i]));
    let q = g.product(Float32(G_BASIS[i]));
    let o = b.product(Float32(B_BASIS[i]));
    let er = r.value() * kr;
    let eg = g.value() * kg;
    let eb = b.value() * kb;
    lemma_share(r.value(), kr, u);
    lemma_share(g.value(), kg, u);
    lemma_share(b.value(), kb, u);
    let sum = kr + kg + kb;
    assert(kr * u + kg * u + kb * u == sum * u) by (nonlinear_arith)
        requires
            sum == kr + kg + kb,
    ;
    assert(sum * u <= hu) by (nonlinear_arith)
        requires
            sum <= h,
            hu == h * u,
            u > 0,
    ;
    lemma_product_size(p.value(), er, h, u);
    lemma_product_size(q.value(), eg, h, u);
    lemma_product_size(o.value(), eb, h, u);
    lemma_added(p, q);
    let s = p.sum(q);
    lemma_added(s, o);
    let band = s.sum(o);
    lemma_finer(s.value(), p.value() + q.value(), h);
    lemma_finer(band.value(), s.value() + o.value(), h);
    assert((p.value() + q.value()) * h == p.value() * h + q.value() * h) by (nonlinear_arith);
    assert((s.value() + o.value()) * h == s.value() * h + o.value() * h) by (nonlinear_arith);
    assert(0x8_0000 * distance(s.value() * h, p.value() * h + q.value() * h) <= hu);
    assert(0x8_0000 * distance(band.value() * h, s.value() * h + o.value() * h) <= hu);
    let spread = er + eg + eb;
    let bh = band.value() * h;
    assert(0x10_0000 * distance(bh, spread) <= 7 * hu);
}

/// What a pigment reflects in a band is near what the color spreads there, and nearer where
/// the band is not below the least reflectance.
proof fn lemma_band(r: Float32, g: Float32, b: Float32, i: int, kr: int, kg: int, kb: int)
    requires
        fraction(r),
        fraction(g),
        fraction(b),
        0 <= i < 7,
        weighs(R_BASIS[i], kr),
        weighs(G_BASIS[i], kg),
        weighs(B_BASIS[i], kb),
        0 <= kr,
        0 <= kg,
        0 <= kb,
        kr + kg + kb <= full(),
    ensures
        ({
            let back = reflectance(absorption(band_of(r, g, b, i)), Float32(ONE));
            let spread = r.value() * kr + g.value() * kg + b.value() * kb;
            &&& fraction(back)
            &&& 900 * distance(back.value() * full(), spread) <= full() * unit()
            &&& Float32(REFLECTANCE_FLOOR).at_most(band_of(r, g, b, i)) ==> 9000 * distance(
                back.value() * full(),
                spread,
            ) <= full() * unit()
        }),
{
    reveal(absorption);
    lemma_units();
    lemma_constants();
    lemma_band_value(r, g, b, i, kr, kg, kb);
    let u = unit();
    let h = full();
    let hu = h * u;
    let band = band_of(r, g, b, i);
    let spread = r.value() * kr + g.value() * kg + b.value() * kb;
    lemma_limited(band);
    let c = band.clamped(Float32(REFLECTANCE_FLOOR), Float32(REFLECTANCE_CEIL));
    lemma_reflected(c);
    let back = reflectance(absorbed(c), Float32(ONE));
    lemma_finer(back.value(), c.value(), h);
    let ch = c.value() * h;
    let gh = grain() * h;
    assert(hu == h * gh) by (nonlinear_arith)
        requires
            hu == h * u,
            u == h * grain(),
            gh == grain() * h,
    ;
    lemma_limit_spread(band.value(), c.value(), grain(), h, spread);
    assert(990 * distance(ch, spread) <= hu);
    assert(10_000 * distance(back.value() * h, ch) <= hu);
    if Float32(REFLECTANCE_FLOOR).at_most(band) {
        lemma_compared(band, Float32(REFLECTANCE_FLOOR));
        lemma_spread_is_reflected(band.value(), c.value(), grain(), h, spread);
    }
}

/// A part of `u` times a weight.
proof fn lemma_share(v: int, k: int, u: int)
    requires
        0 <= v <= u,
        0 <= k,
    ensures
        0 <= v * k <= k * u,
{
    assert(0 <= v * k <= k * u) by (nonlinear_arith)
        requires
            0 <= v <= u,
            0 <= k,
    ;
}

/// A product near a value of at most 1 is at most 2.
proof fn lemma_product_size(p: int, exact: int, h: int, u: int)
    requires
        h == full(),
        u > 0,
        0 <= exact <= h * u,
        0x10_0000 * distance(p * h, exact) <= h * u,
    ensures
        size(p) <= 2 * u,
{
    let hu = h * u;
    let ph = p * h;
    assert(-hu <= ph <= 2 * hu);
    assert(-u <= p <= 2 * u) by (nonlinear_arith)
        requires
            -hu <= ph <= 2 * hu,
            ph == p * h,
            hu == h * u,
            h > 0,
    ;
}

/// Limiting moves a reflectance by little more than the least one.
proof fn lemma_limit_spread(b: int, c: int, g: int, h: int, spread: int)
    requires
        h == full(),
        g > 0,
        c == (if b < 0x83_126f * g {
            0x83_126f * g
        } else if b > 0x1_ffff_de00 * g {
            0x1_ffff_de00 * g
        } else {
            b
        }),
        0 <= spread <= h * (h * g),
        0x10_0000 * distance(b * h, spread) <= 7 * (h * (h * g)),
    ensures
        990 * distance(c * h, spread) <= h * (h * g),
{
    let gh = g * h;
    let bh = b * h;
    let ch = c * h;
    let hu = h * (h * g);
    assert(hu == h * gh) by (nonlinear_arith)
        requires
            hu == h * (h * g),
            gh == g * h,
    ;
    if b < 0x83_126f * g {
        assert(bh < 0x83_126f * gh) by (nonlinear_arith)
            requires
                b < 0x83_126f * g,
                bh == b * h,
                gh == g * h,
                h > 0,
        ;
        assert(ch == 0x83_126f * gh) by (nonlinear_arith)
            requires
                c == 0x83_126f * g,
                ch == c * h,
                gh == g * h,
        ;
    } else if b > 0x1_ffff_de00 * g {
        assert(bh > 0x1_ffff_de00 * gh) by (nonlinear_arith)
            requires
                b > 0x1_ffff_de00 * g,
                bh == b * h,
                gh == g * h,
                h > 0,
        ;
        assert(ch == 0x1_ffff_de00 * gh) by (nonlinear_arith)
            requires
                c == 0x1_ffff_de00 * g,
                ch == c * h,
                gh == g * h,
        ;
    }
}

/// Limiting hardly moves a band that is not below the least reflectance.
proof fn lemma_spread_is_reflected(b: int, c: int, g: int, h: int, spread: int)
    requires
        h == full(),
        g > 0,
        c == (if b > 0x1_ffff_de00 * g {
            0x1_ffff_de00 * g
        } else {
            b
        }),
        b >= 0x83_126f * g,
        spread <= h * (h * g),
        0x10_0000 * distance(b * h, spread) <= 7 * (h * (h * g)),
    ensures
        0x10_0000 * distance(c * h, spread) <= 9 * (h * (h * g)),
{
    let gh = g * h;
    let bh = b * h;
    let ch = c * h;
    let u = h * g;
    let hu = h * u;
    assert(hu == h * gh) by (nonlinear_arith)
        requires
            hu == h * (h * g),
            gh == g * h,
    ;
    if b > 0x1_ffff_de00 * g {
        assert(bh > 0x1_ffff_de00 * gh) by (nonlinear_arith)
            requires
                b > 0x1_ffff_de00 * g,
                bh == b * h,
                gh == g * h,
                h > 0,
        ;
        assert(ch == 0x1_ffff_de00 * gh) by (nonlinear_arith)
            requires
                c == 0x1_ffff_de00 * g,
                ch == c * h,
                gh == g * h,
        ;
    }
}

/// One more band of a weighted sum; `e` counts the errors so far.
proof fn lemma_integral_step(prev: Float32, x: Float32, m: u32, k: int, exact: int, e: int)
    requires
        prev.finite(),
        fraction(x),
        weighs(m, k),
        0 <= k <= full(),
        0 <= exact,
        exact + x.value() * k <= 2 * (full() * unit()),
        0 <= e <= 20,
        0x8_0000 * distance(prev.value() * full(), exact) <= e * (full() * unit()),
    ensures
        ({
            let next = prev.sum(x.product(Float32(m)));
            &&& next.finite()
            &&& 0x8_0000 * distance(next.value() * full(), exact + x.value() * k) <= (e + 2) * (
            full() * unit())
        }),
{
    lemma_units();
    let u = unit();
    let h = full();
    let hu = h * u;
    lemma_weighted(x, m, k);
    let p = x.product(Float32(m));
    lemma_share(x.value(), k, u);
    let add = x.value() * k;
    lemma_value_size(p.value(), add, h, u);
    assert(e * hu <= 20 * hu) by (nonlinear_arith)
        requires
            e <= 20,
            hu == h * u,
            h > 0,
            u > 0,
    ;
    assert((e + 2) * hu == e * hu + 2 * hu) by (nonlinear_arith);
    lemma_value_size(prev.value(), exact, h, u);
    lemma_added(prev, p);
    let next = prev.sum(p);
    lemma_finer(next.value(), prev.value() + p.value(), h);
    assert((prev.value() + p.value()) * h == prev.value() * h + p.value() * h)
        by (nonlinear_arith);
    assert(0x8_0000 * (distance(next.value(), prev.value() + p.value()) * h) <= hu)
        by (nonlinear_arith)
        requires
            0x8_0000 * distance(next.value(), prev.value() + p.value()) <= u,
            hu == h * u,
            h > 0,
    ;
}

/// What is near a value of at most 3 is at most 4.
proof fn lemma_value_size(p: int, exact: int, h: int, u: int)
    requires
        h == full(),
        u > 0,
        size(exact) <= 3 * (h * u),
        0x8_0000 * distance(p * h, exact) <= 20 * (h * u),
    ensures
        size(p) <= 4 * u,
{
    let hu = h * u;
    let ph = p * h;
    assert(hu > 0) by (nonlinear_arith)
        requires
            hu == h * u,
            h > 0,
            u > 0,
    ;
    assert(-4 * hu <= ph <= 4 * hu);
    assert(-4 * u <= p <= 4 * u) by (nonlinear_arith)
        requires
            -4 * hu <= ph <= 4 * hu,
            ph == p * h,
            hu == h * u,
            h > 0,
    ;
}

/// Seven fractions.
spec fn fractions(s: Seq<Float32>) -> bool {
    s.len() == 7 && forall|i: int| 0 <= i < 7 ==> fraction(#[trigger] s[i])
}

/// The grains of the seven weights of a curve.
spec fn weights(curve: Seq<u32>, k: Seq<int>) -> bool {
    &&& curve.len() == 7
    &&& k.len() == 7
    &&& forall|i: int| 0 <= i < 7 ==> weighs(#[trigger] curve[i], k[i]) && 0 <= k[i] <= full()
    &&& k[0] + k[1] + k[2] + k[3] + k[4] + k[5] + k[6] <= full() + full()
}

/// The exact sum of the first `n` bands.
spec fn exact_integral(s: Seq<Float32>, k: Seq<int>, n: nat) -> int
    decreases n,
{
    if n == 0 {
        0
    } else {
        exact_integral(s, k, (n - 1) as nat) + s[n - 1].value() * k[n - 1]
    }
}

spec fn total(k: Seq<int>, n: nat) -> int
    decreases n,
{
    if n == 0 {
        0
    } else {
        total(k, (n - 1) as nat) + k[n - 1]
    }
}

proof fn lemma_exact_integral(s: Seq<Float32>, curve: Seq<u32>, k: Seq<int>, n: nat)
    requires
        fractions(s),
        weights(curve, k),
        n <= 7,
    ensures
        0 <= total(k, n),
        0 <= exact_integral(s, k, n) <= total(k, n) * unit(),
    decreases n,
{
    if n > 0 {
        lemma_exact_integral(s, curve, k, (n - 1) as nat);
        assert(fraction(s[n - 1]));
        assert(weighs(curve[n - 1], k[n - 1]));
        lemma_share(s[n - 1].value(), k[n - 1], unit());
        assert(total(k, n) * unit() == total(k, (n - 1) as nat) * unit() + k[n - 1] * unit())
            by (nonlinear_arith)
            requires
                total(k, n) == total(k, (n - 1) as nat) + k[n - 1],
        ;
    } else {
        assert(0 * unit() == 0);
    }
}

proof fn lemma_total_grows(k: Seq<int>, n: nat)
    requires
        k.len() == 7,
        forall|i: int| 0 <= i < 7 ==> 0 <= #[trigger] k[i],
        n <= 7,
    ensures
        total(k, n) <= total(k, 7),
    decreases 7 - n,
{
    if n < 7 {
        lemma_total_grows(k, n + 1);
        assert(total(k, n + 1) == total(k, n) + k[n as int]);
    }
}

/// A weighted sum of fractions comes out near the exact one.
proof fn lemma_integral(s: Seq<Float32>, curve: Seq<u32>, k: Seq<int>, n: nat)
    requires
        fractions(s),
        weights(curve, k),
        n <= 7,
    ensures
        integral(s, curve, n).finite(),
        0x8_0000 * distance(integral(s, curve, n).value() * full(), exact_integral(s, k, n)) <= (2
            * n) * (full() * unit()),
    decreases n,
{
    lemma_units();
    let hu = full() * unit();
    if n > 0 {
        let m = (n - 1) as nat;
        lemma_integral(s, curve, k, m);
        lemma_exact_integral(s, curve, k, m);
        lemma_exact_integral(s, curve, k, n);
        assert(fraction(s[n - 1]));
        assert(weighs(curve[n - 1], k[n - 1]));
        assert forall|i: int| 0 <= i < 7 implies 0 <= #[trigger] k[i] by {
            assert(weighs(curve[i], k[i]));
        }
        lemma_total_grows(k, n);
        reveal_with_fuel(total, 8);
        assert(total(k, 7) <= 2 * full());
        assert(total(k, n) * unit() <= 2 * hu) by (nonlinear_arith)
            requires
                total(k, n) <= 2 * full(),
                hu == full() * unit(),
                unit() > 0,
        ;
        lemma_integral_step(
            integral(s, curve, m),
            s[n - 1],
            curve[n - 1],
            k[n - 1],
            exact_integral(s, k, m),
            2 * m as int,
        );
    } else {
        lemma_step(0, 0);
        assert(0 * full() == 0);
        assert((2 * n) * hu == 0) by (nonlinear_arith)
            requires
                n == 0,
        ;
    }
}

/// A row of the correction comes out near the exact one.
proof fn lemma_corrected(
    row: Seq<u32>,
    x: Float32,
    y: Float32,
    z: Float32,
    k0: int,
    k1: int,
    k2: int,
)
    requires
        row.len() == 3,
        weighs(row[0], k0),
        weighs(row[1], k1),
        weighs(row[2], k2),
        2 * size(k0) <= 5 * full(),
        2 * size(k1) <= 5 * full(),
        2 * size(k2) <= 5 * full(),
        x.finite(),
        y.finite(),
        z.finite(),
        10 * size(x.value()) <= 11 * unit(),
        10 * size(y.value()) <= 11 * unit(),
        10 * size(z.value()) <= 11 * unit(),
    ensures
        corrected(row, x, y, z).finite(),
        0x8_0000 * distance(
            corrected(row, x, y, z).value() * full(),
            x.value() * k0 + y.value() * k1 + z.value() * k2,
        ) <= 4 * (full() * unit()),
{
    reveal(corrected);
    lemma_units();
    let u = unit();
    let h = full();
    let hu = h * u;
    lemma_weighted(x, row[0], k0);
    lemma_weighted(y, row[1], k1);
    lemma_weighted(z, row[2], k2);
    lemma_part_size(x.value(), k0, h, u);
    lemma_part_size(y.value(), k1, h, u);
    lemma_part_size(z.value(), k2, h, u);
    let p = Float32(row[0]).product(x);
    let q = Float32(row[1]).product(y);
    let o = Float32(row[2]).product(z);
    lemma_value_size(p.value(), x.value() * k0, h, u);
    lemma_value_size(q.value(), y.value() * k1, h, u);
    lemma_value_size(o.value(), z.value() * k2, h, u);
    lemma_added(p, q);
    let s = p.sum(q);
    lemma_added(s, o);
    let t = s.sum(o);
    lemma_finer(s.value(), p.value() + q.value(), h);
    lemma_finer(t.value(), s.value() + o.value(), h);
    assert((p.value() + q.value()) * h == p.value() * h + q.value() * h) by (nonlinear_arith);
    assert((s.value() + o.value()) * h == s.value() * h + o.value() * h) by (nonlinear_arith);
    assert(0x8_0000 * (distance(s.value(), p.value() + q.value()) * h) <= hu) by (nonlinear_arith)
        requires
            0x8_0000 * distance(s.value(), p.value() + q.value()) <= u,
            hu == h * u,
            h > 0,
    ;
    assert(0x8_0000 * (distance(t.value(), s.value() + o.value()) * h) <= hu) by (nonlinear_arith)
        requires
            0x8_0000 * distance(t.value(), s.value() + o.value()) <= u,
            hu == h * u,
            h > 0,
    ;
}

proof fn lemma_part_size(v: int, k: int, h: int, u: int)
    requires
        10 * size(v) <= 11 * u,
        2 * size(k) <= 5 * h,
        h > 0,
        u > 0,
    ensures
        size(v * k) <= 3 * (h * u),
{
    let a = size(v);
    let b = size(k);
    assert(size(v * k) == a * b) by (nonlinear_arith)
        requires
            a == size(v),
            b == size(k),
    ;
    assert((10 * a) * (2 * b) <= (11 * u) * (5 * h)) by (nonlinear_arith)
        requires
            0 <= 10 * a <= 11 * u,
            0 <= 2 * b <= 5 * h,
    ;
    assert((10 * a) * (2 * b) == 20 * (a * b)) by (nonlinear_arith);
    assert((11 * u) * (5 * h) == 55 * (h * u)) by (nonlinear_arith);
    assert(h * u > 0) by (nonlinear_arith)
        requires
            h > 0,
            u > 0,
    ;
}

/// A weight of either sign, from its significand and scale.
proof fn lemma_weight(m: u32, s: int, n: int, k: int)
    requires
        116 <= s <= 149,
        0x80_0000 <= n < 0x100_0000,
        m == s * 0x80_0000 + n,
        k == n * pow2((s - 116) as nat),
    ensures
        weighs(m, k),
        weighs((m + 0x8000_0000) as u32, -k),
{
    lemma_pattern(m, s, n, k);
    let minus = Float32((m + 0x8000_0000) as u32);
    assert(minus.magnitude() == m);
    assert((-k) * grain() == -(k * grain())) by (nonlinear_arith);
}

proof fn lemma_weights()
    ensures
        weighs(0, 0),
        weighs(0x3d4c_cccd, 0x1999_99a0),
        weighs(0x3d5a_511a, 0x1b4a_2340),
        weighs(0x3dcc_cccd, 0x3333_3340),
        weighs(0x3e4c_cccd, 0x6666_6680),
        weighs(0x3e99_999a, 0x9999_9a00),
        weighs(0x3eb3_3333, 0xb333_3300),
        weighs(0x3ec6_594b, 0xc659_4b00),
        weighs(0x3ecc_cccd, 0xcccc_cd00),
        weighs(0x3f03_b646, 0x1_076c_8c00),
        weighs(0x3f0a_f4f1, 0x1_15e9_e200),
        weighs(0x3f0d_d2f2, 0x1_1ba5_e400),
        weighs(0x3f26_6666, 0x1_4ccc_cc00),
        weighs(0x3f73_3333, 0x1_e666_6600),
        weighs(0x3f80_0000, 0x2_0000_0000),
        weighs(0x3fbe_a7f0, 0x2_fa9f_c000),
        weighs(0x3ff8_8312, 0x3_e20c_4800),
        weighs(0x3ffc_6738, 0x3_f19c_e000),
        weighs(0x401d_460b, 0x4_ea30_5800),
        weighs(0xbffc_6738, -0x3_f19c_e000),
        weighs(0xbec6_594b, -0xc659_4b00),
        weighs(0xbf0d_d2f2, -0x1_1ba5_e400),
        weighs(0xbf0a_f4f1, -0x1_15e9_e200),
{
    lemma2_to64();
    lemma_step(0, 0);
    assert(0 * grain() == 0);
    lemma_weight(0x3d4c_cccd, 121, 0xcc_cccd, 0x1999_99a0);
    lemma_weight(0x3d5a_511a, 121, 0xda_511a, 0x1b4a_2340);
    lemma_weight(0x3dcc_cccd, 122, 0xcc_cccd, 0x3333_3340);
    lemma_weight(0x3e4c_cccd, 123, 0xcc_cccd, 0x6666_6680);
    lemma_weight(0x3e99_999a, 124, 0x99_999a, 0x9999_9a00);
    lemma_weight(0x3eb3_3333, 124, 0xb3_3333, 0xb333_3300);
    lemma_weight(0x3ec6_594b, 124, 0xc6_594b, 0xc659_4b00);
    lemma_weight(0x3ecc_cccd, 124, 0xcc_cccd, 0xcccc_cd00);
    lemma_weight(0x3f03_b646, 125, 0x83_b646, 0x1_076c_8c00);
    lemma_weight(0x3f0a_f4f1, 125, 0x8a_f4f1, 0x1_15e9_e200);
    lemma_weight(0x3f0d_d2f2, 125, 0x8d_d2f2, 0x1_1ba5_e400);
    lemma_weight(0x3f26_6666, 125, 0xa6_6666, 0x1_4ccc_cc00);
    lemma_weight(0x3f73_3333, 125, 0xf3_3333, 0x1_e666_6600);
    lemma_weight(0x3f80_0000, 126, 0x80_0000, 0x2_0000_0000);
    lemma_weight(0x3fbe_a7f0, 126, 0xbe_a7f0, 0x2_fa9f_c000);
    lemma_weight(0x3ff8_8312, 126, 0xf8_8312, 0x3_e20c_4800);
    lemma_weight(0x3ffc_6738, 126, 0xfc_6738, 0x3_f19c_e000);
    lemma_weight(0x401d_460b, 127, 0x9d_460b, 0x4_ea30_5800);
}

/// A color on its way through a pigment: its channels, the bands `s` with their errors `e`,
/// and the sums of the bands along the three curves with theirs.
struct Way {
    r: int,
    g: int,
    b: int,
    s0: int,
    s1: int,
    s2: int,
    s3: int,
    s4: int,
    s5: int,
    s6: int,
    e0: int,
    e1: int,
    e2: int,
    e3: int,
    e4: int,
    e5: int,
    e6: int,
    x: int,
    y: int,
    z: int,
    ex: int,
    ey: int,
    ez: int,
}

impl Way {
    /// The errors are what the bands and the sums differ by from the exact ones.
    spec fn exact(self) -> bool {
        &&& 0x2_0000_0000 * self.s0 == 0x2_0000_0000 * self.b + self.e0
        &&& 0x2_0000_0000 * self.s1 == 0x1999_99a0 * self.g + 0x1_e666_6600 * self.b + self.e1
        &&& 0x2_0000_0000 * self.s2 == 0x1_4ccc_cc00 * self.g + 0xb333_3300 * self.b + self.e2
        &&& 0x2_0000_0000 * self.s3 == 0x1999_99a0 * self.r + 0x1_e666_6600 * self.g + self.e3
        &&& 0x2_0000_0000 * self.s4 == 0xb333_3300 * self.r + 0x1_4ccc_cc00 * self.g + self.e4
        &&& 0x2_0000_0000 * self.s5 == 0x1_e666_6600 * self.r + 0x1999_99a0 * self.g + self.e5
        &&& 0x2_0000_0000 * self.s6 == 0x2_0000_0000 * self.r + self.e6
        &&& 0x2_0000_0000 * self.x == 0x1999_99a0 * self.s2 + 0x6666_6680 * self.s3
            + 0xcccc_cd00 * self.s4 + 0x9999_9a00 * self.s5 + 0x1999_99a0 * self.s6 + self.ex
        &&& 0x2_0000_0000 * self.y == 0x3333_3340 * self.s1 + 0xb333_3300 * self.s2
            + 0xcccc_cd00 * self.s3 + 0x3333_3340 * self.s4 + 0x1999_99a0 * self.s5 + self.ey
        &&& 0x2_0000_0000 * self.z == 0x9999_9a00 * self.s0 + 0xcccc_cd00 * self.s1
            + 0x6666_6680 * self.s2 + 0x1999_99a0 * self.s3 + 0x1999_99a0 * self.s4 + self.ez
    }

    /// The errors are small, where `u` is 1.
    spec fn small(self, u: int) -> bool {
        &&& 0 <= self.r <= u
        &&& 0 <= self.g <= u
        &&& 0 <= self.b <= u
        &&& -0x2_0000_0000 * u <= 900 * self.e0 <= 0x2_0000_0000 * u
        &&& -0x2_0000_0000 * u <= 900 * self.e1 <= 0x2_0000_0000 * u
        &&& -0x2_0000_0000 * u <= 900 * self.e2 <= 0x2_0000_0000 * u
        &&& -0x2_0000_0000 * u <= 900 * self.e3 <= 0x2_0000_0000 * u
        &&& -0x2_0000_0000 * u <= 900 * self.e4 <= 0x2_0000_0000 * u
        &&& -0x2_0000_0000 * u <= 900 * self.e5 <= 0x2_0000_0000 * u
        &&& -0x2_0000_0000 * u <= 900 * self.e6 <= 0x2_0000_0000 * u
        &&& -0x1c_0000_0000 * u <= 0x8_0000 * self.ex <= 0x1c_0000_0000 * u
        &&& -0x1c_0000_0000 * u <= 0x8_0000 * self.ey <= 0x1c_0000_0000 * u
        &&& -0x1c_0000_0000 * u <= 0x8_0000 * self.ez <= 0x1c_0000_0000 * u
    }

    /// The errors of a color with no band below the least reflectance.
    spec fn fine(self, u: int) -> bool {
        &&& 0 <= self.r <= u
        &&& 0 <= self.g <= u
        &&& 0 <= self.b <= u
        &&& -0x2_0000_0000 * u <= 9000 * self.e0 <= 0x2_0000_0000 * u
        &&& -0x2_0000_0000 * u <= 9000 * self.e1 <= 0x2_0000_0000 * u
        &&& -0x2_0000_0000 * u <= 9000 * self.e2 <= 0x2_0000_0000 * u
        &&& -0x2_0000_0000 * u <= 9000 * self.e3 <= 0x2_0000_0000 * u
        &&& -0x2_0000_0000 * u <= 9000 * self.e4 <= 0x2_0000_0000 * u
        &&& -0x2_0000_0000 * u <= 9000 * self.e5 <= 0x2_0000_0000 * u
        &&& -0x2_0000_0000 * u <= 9000 * self.e6 <= 0x2_0000_0000 * u
        &&& -0x1c_0000_0000 * u <= 0x8_0000 * self.ex <= 0x1c_0000_0000 * u
        &&& -0x1c_0000_0000 * u <= 0x8_0000 * self.ey <= 0x1c_0000_0000 * u
        &&& -0x1c_0000_0000 * u <= 0x8_0000 * self.ez <= 0x1c_0000_0000 * u
    }
}

/// What red comes back as, from the channels and all the errors; `eb` is that of the correction.
spec fn red_back(w: Way, eb: int) -> int {
    0x8_0004_e1d6_1e1d_d57f_d9b0_0000 * w.r + -0x3a2a_8169_67c1_b800_0000 * w.g
        + -0x4_91b1_49a5_1b39_c100_0000 * w.b
        + 0x9e0d_ee02_f838_0000 * w.e0 + 0x8d1_1002_3444_0000 * w.e1
        + -0x1_db8a_5afc_47c3_0000 * w.e2 + -0x1_1612_8245_84a0_8000 * w.e3
        + 0x3_3ef8_8ecf_be23_8000 * w.e4 + 0x2_8df3_b9de_0904_0000 * w.e5
        + 0x7dd1_a285_dacf_0000 * w.e6
        + 0x9_d460_b000_0000_0000 * w.ex + -0x7_e339_c000_0000_0000 * w.ey
        + 0x2_0ed9_1800_0000_0000 * w.ez + 0x4_0000_0000_0000_0000 * eb
}

/// What red comes back as, from the bands.
spec fn red_of_bands(w: Way, eb: int) -> int {
    0x9e0d_ee02_f838_0000 * w.s0
        + 0x8d1_1002_3444_0000 * w.s1 + -0x1_db8a_5afc_47c3_0000 * w.s2
        + -0x1_1612_8245_84a0_8000 * w.s3 + 0x3_3ef8_8ecf_be23_8000 * w.s4
        + 0x2_8df3_b9de_0904_0000 * w.s5 + 0x7dd1_a285_dacf_0000 * w.s6
        + 0x4_ea30_5800 * w.ex + -0x3_f19c_e000 * w.ey + 0x1_076c_8c00 * w.ez
        + 0x2_0000_0000 * eb
}

proof fn lemma_red_identity(w: Way, back: int, eb: int)
    requires
        w.exact(),
        0x2_0000_0000 * back == 0x4_ea30_5800 * w.x + -0x3_f19c_e000 * w.y + 0x1_076c_8c00 * w.z
            + eb,
    ensures
        0x4_0000_0000_0000_0000 * back == red_of_bands(w, eb),
        0x8_0000_0000_0000_0000_0000_0000 * back == red_back(w, eb),
{
    assert(0x4_0000_0000_0000_0000 * back == red_of_bands(w, eb));
}

/// Red comes back within one part in 330: so much are all the errors together.
proof fn lemma_red_bounds(w: Way, back: int, eb: int, u: int)
    requires
        w.small(u),
        -0x8_0000_0000 * u <= 0x8_0000 * eb <= 0x8_0000_0000 * u,
        0x8_0000_0000_0000_0000_0000_0000 * back == red_back(w, eb),
    ensures
        330 * distance(back, w.r) <= u,
{
}

/// Red comes back within one part in 3300 where the errors are fine.
proof fn lemma_red_fine_bounds(w: Way, back: int, eb: int, u: int)
    requires
        w.fine(u),
        -0x8_0000_0000 * u <= 0x8_0000 * eb <= 0x8_0000_0000 * u,
        0x8_0000_0000_0000_0000_0000_0000 * back == red_back(w, eb),
    ensures
        2000 * distance(back, w.r) <= u,
{
}

/// What green comes back as, from the channels and all the errors; `eb` is that of the correction.
spec fn green_back(w: Way, eb: int) -> int {
    0x12_36f0_cc92_1462_5640_0000 * w.r + 0x8_0023_e1b9_6325_c4e6_eca0_0000 * w.g
        + -0x1_b9b2_e85b_8a48_51a0_0000 * w.b
        + -0xaa30_560b_0f28_0000 * w.e0 + -0x1c1b_db3a_3a2a_0000 * w.e1
        + 0x2_328a_1b97_ddec_2000 * w.e2 + 0x2_af88_b8ab_e22e_0000 * w.e3
        + 0xbc4_0869_5768_8000 * w.e4 + -0x139a_bf9c_e369_0000 * w.e5
        + -0x13d5_bab8_28a1_e000 * w.e6
        + -0x1_8cb2_9600_0000_0000 * w.ex + 0x7_c418_9000_0000_0000 * w.ey
        + -0x2_374b_c800_0000_0000 * w.ez + 0x4_0000_0000_0000_0000 * eb
}

/// What green comes back as, from the bands.
spec fn green_of_bands(w: Way, eb: int) -> int {
    -0xaa30_560b_0f28_0000 * w.s0
        + -0x1c1b_db3a_3a2a_0000 * w.s1 + 0x2_328a_1b97_ddec_2000 * w.s2
        + 0x2_af88_b8ab_e22e_0000 * w.s3 + 0xbc4_0869_5768_8000 * w.s4
        + -0x139a_bf9c_e369_0000 * w.s5 + -0x13d5_bab8_28a1_e000 * w.s6
        + -0xc659_4b00 * w.ex + 0x3_e20c_4800 * w.ey + -0x1_1ba5_e400 * w.ez
        + 0x2_0000_0000 * eb
}

proof fn lemma_green_identity(w: Way, back: int, eb: int)
    requires
        w.exact(),
        0x2_0000_0000 * back == -0xc659_4b00 * w.x + 0x3_e20c_4800 * w.y + -0x1_1ba5_e400 * w.z
            + eb,
    ensures
        0x4_0000_0000_0000_0000 * back == green_of_bands(w, eb),
        0x8_0000_0000_0000_0000_0000_0000 * back == green_back(w, eb),
{
    assert(0x4_0000_0000_0000_0000 * back == green_of_bands(w, eb));
}

/// Green comes back within one part in 330: so much are all the errors together.
proof fn lemma_green_bounds(w: Way, back: int, eb: int, u: int)
    requires
        w.small(u),
        -0x8_0000_0000 * u <= 0x8_0000 * eb <= 0x8_0000_0000 * u,
        0x8_0000_0000_0000_0000_0000_0000 * back == green_back(w, eb),
    ensures
        330 * distance(back, w.g) <= u,
{
}

/// Green comes back within one part in 3300 where the errors are fine.
proof fn lemma_green_fine_bounds(w: Way, back: int, eb: int, u: int)
    requires
        w.fine(u),
        -0x8_0000_0000 * u <= 0x8_0000 * eb <= 0x8_0000_0000 * u,
        0x8_0000_0000_0000_0000_0000_0000 * back == green_back(w, eb),
    ensures
        2000 * distance(back, w.g) <= u,
{
}

/// What blue comes back as, from the channels and all the errors; `eb` is that of the correction.
spec fn blue_back(w: Way, eb: int) -> int {
    0x1_d5d3_baf5_3090_01d4_0000 * w.r + -0x1_2d10_2867_92e2_4be8_0000 * w.g
        + 0x7_ffff_5f63_16dc_1f29_b258_0000 * w.b
        + 0x1_c993_0dfd_d980_0000 * w.e0 + 0x2_2a84_39bd_d441_8000 * w.e1
        + 0x713d_32a4_8701_4800 * w.e2 + -0x8727_13a1_c9c4_e000 * w.e3
        + 0x2a82_e8a4_3a53_c000 * w.e4 + -0xb6a_e7d5_a1ca_c000 * w.e5 + 0x2ba_9d20_aea7_4800 * w.e6
        + 0x3694_4680_0000_0000 * w.ex + -0x2_2bd3_c400_0000_0000 * w.ey
        + 0x5_f53f_8000_0000_0000 * w.ez + 0x4_0000_0000_0000_0000 * eb
}

/// What blue comes back as, from the bands.
spec fn blue_of_bands(w: Way, eb: int) -> int {
    0x1_c993_0dfd_d980_0000 * w.s0
        + 0x2_2a84_39bd_d441_8000 * w.s1 + 0x713d_32a4_8701_4800 * w.s2
        + -0x8727_13a1_c9c4_e000 * w.s3 + 0x2a82_e8a4_3a53_c000 * w.s4
        + -0xb6a_e7d5_a1ca_c000 * w.s5 + 0x2ba_9d20_aea7_4800 * w.s6
        + 0x1b4a_2340 * w.ex + -0x1_15e9_e200 * w.ey + 0x2_fa9f_c000 * w.ez
        + 0x2_0000_0000 * eb
}

proof fn lemma_blue_identity(w: Way, back: int, eb: int)
    requires
        w.exact(),
        0x2_0000_0000 * back == 0x1b4a_2340 * w.x + -0x1_15e9_e200 * w.y + 0x2_fa9f_c000 * w.z + eb,
    ensures
        0x4_0000_0000_0000_0000 * back == blue_of_bands(w, eb),
        0x8_0000_0000_0000_0000_0000_0000 * back == blue_back(w, eb),
{
    assert(0x4_0000_0000_0000_0000 * back == blue_of_bands(w, eb));
}

/// Blue comes back within one part in 330: so much are all the errors together.
proof fn lemma_blue_bounds(w: Way, back: int, eb: int, u: int)
    requires
        w.small(u),
        -0x8_0000_0000 * u <= 0x8_0000 * eb <= 0x8_0000_0000 * u,
        0x8_0000_0000_0000_0000_0000_0000 * back == blue_back(w, eb),
    ensures
        330 * distance(back, w.b) <= u,
{
}

/// Blue comes back within one part in 3300 where the errors are fine.
proof fn lemma_blue_fine_bounds(w: Way, back: int, eb: int, u: int)
    requires
        w.fine(u),
        -0x8_0000_0000 * u <= 0x8_0000 * eb <= 0x8_0000_0000 * u,
        0x8_0000_0000_0000_0000_0000_0000 * back == blue_back(w, eb),
    ensures
        2000 * distance(back, w.b) <= u,
{
}

/// The sum of the seven bands along a curve comes out near the exact one, and not far above 1.
proof fn lemma_sum_of_bands(s: Seq<Float32>, curve: Seq<u32>, k: Seq<int>)
    requires
        fractions(s),
        weights(curve, k),
        k[0] + k[1] + k[2] + k[3] + k[4] + k[5] + k[6] <= full() + 0x1_0000,
    ensures
        ({
            let x = integral(s, curve, 7);
            let exact = s[0].value() * k[0] + s[1].value() * k[1] + s[2].value() * k[2]
                + s[3].value() * k[3] + s[4].value() * k[4] + s[5].value() * k[5] + s[6].value()
                * k[6];
            &&& x.finite()
            &&& 10 * size(x.value()) <= 11 * unit()
            &&& 0x8_0000 * distance(x.value() * full(), exact) <= 14 * (full() * unit())
        }),
{
    lemma_units();
    lemma_integral(s, curve, k, 7);
    lemma_exact_integral(s, curve, k, 7);
    reveal_with_fuel(exact_integral, 8);
    reveal_with_fuel(total, 8);
    let x = integral(s, curve, 7).value();
    let h = full();
    let u = unit();
    let hu = h * u;
    let exact = exact_integral(s, k, 7);
    let t = total(k, 7);
    assert(t * u <= hu + 0x1_0000 * u) by (nonlinear_arith)
        requires
            t <= h + 0x1_0000,
            hu == h * u,
            u > 0,
    ;
    assert(0x1_0000 * u * 0x1000 <= hu) by (nonlinear_arith)
        requires
            hu == h * u,
            h == 0x2_0000_0000,
            u > 0,
    ;
    let xh = x * h;
    assert(-hu <= 11 * xh && 10 * xh <= 11 * hu);
    assert(10 * size(x) <= 11 * u) by (nonlinear_arith)
        requires
            -hu <= 11 * xh,
            10 * xh <= 11 * hu,
            xh == x * h,
            hu == h * u,
            h > 0,
    ;
}

/// The color `c` on its way, with the spectrum `s` of its pigment.
spec fn way(c: LinearRgba, s: Seq<Float32>) -> Way {
    let r = c.r.value();
    let g = c.g.value();
    let b = c.b.value();
    let s0 = s[0].value();
    let s1 = s[1].value();
    let s2 = s[2].value();
    let s3 = s[3].value();
    let s4 = s[4].value();
    let s5 = s[5].value();
    let s6 = s[6].value();
    let x = integral(s, X_BAR@, 7).value();
    let y = integral(s, Y_BAR@, 7).value();
    let z = integral(s, Z_BAR@, 7).value();
    Way {
        r,
        g,
        b,
        s0,
        s1,
        s2,
        s3,
        s4,
        s5,
        s6,
        e0: 0x2_0000_0000 * s0 - (0x2_0000_0000 * b),
        e1: 0x2_0000_0000 * s1 - (0x1999_99a0 * g + 0x1_e666_6600 * b),
        e2: 0x2_0000_0000 * s2 - (0x1_4ccc_cc00 * g + 0xb333_3300 * b),
        e3: 0x2_0000_0000 * s3 - (0x1999_99a0 * r + 0x1_e666_6600 * g),
        e4: 0x2_0000_0000 * s4 - (0xb333_3300 * r + 0x1_4ccc_cc00 * g),
        e5: 0x2_0000_0000 * s5 - (0x1_e666_6600 * r + 0x1999_99a0 * g),
        e6: 0x2_0000_0000 * s6 - (0x2_0000_0000 * r),
        x,
        y,
        z,
        ex: 0x2_0000_0000 * x - (0x1999_99a0 * s2 + 0x6666_6680 * s3 + 0xcccc_cd00 * s4
            + 0x9999_9a00 * s5 + 0x1999_99a0 * s6),
        ey: 0x2_0000_0000 * y - (0x3333_3340 * s1 + 0xb333_3300 * s2 + 0xcccc_cd00 * s3
            + 0x3333_3340 * s4 + 0x1999_99a0 * s5),
        ez: 0x2_0000_0000 * z - (0x9999_9a00 * s0 + 0xcccc_cd00 * s1 + 0x6666_6680 * s2
            + 0x1999_99a0 * s3 + 0x1999_99a0 * s4),
    }
}

proof fn lemma_way_is_exact(c: LinearRgba, s: Seq<Float32>)
    ensures
        way(c, s).exact(),
{
}

/// The band `s` of a pigment is close to what its color spreads to it.
spec fn band_returns(s: Float32, exact: int) -> bool {
    fraction(s) && 900 * distance(0x2_0000_0000 * s.value(), exact) <= 0x2_0000_0000 * unit()
}

/// The band `s` of a pigment is closer to what its color spreads to it.
spec fn band_returns_finely(s: Float32, exact: int) -> bool {
    9000 * distance(0x2_0000_0000 * s.value(), exact) <= 0x2_0000_0000 * unit()
}

/// None of the seven bands of a color is below the least reflectance.
pub open spec fn above_floor(c: LinearRgba) -> bool {
    forall|i: int|
        0 <= i < 7 ==> Float32(REFLECTANCE_FLOOR).at_most(#[trigger] band_of(c.r, c.g, c.b, i))
}

/// What comes back in every band.
proof fn lemma_spectrum_returns(c: LinearRgba)
    requires
        fraction(c.r),
        fraction(c.g),
        fraction(c.b),
    ensures
        ({
            let s = PigmentView::of_color(c).spectrum();
            let r = c.r.value();
            let g = c.g.value();
            let b = c.b.value();
            &&& s.len() == 7
            &&& band_returns(s[0], 0x2_0000_0000 * b)
            &&& band_returns(s[1], 0x1999_99a0 * g + 0x1_e666_6600 * b)
            &&& band_returns(s[2], 0x1_4ccc_cc00 * g + 0xb333_3300 * b)
            &&& band_returns(s[3], 0x1999_99a0 * r + 0x1_e666_6600 * g)
            &&& band_returns(s[4], 0xb333_3300 * r + 0x1_4ccc_cc00 * g)
            &&& band_returns(s[5], 0x1_e666_6600 * r + 0x1999_99a0 * g)
            &&& band_returns(s[6], 0x2_0000_0000 * r)
        }),
{
    lemma_weights();
    let s = PigmentView::of_color(c).spectrum();
    assert(s[0] == reflectance(absorption(band_of(c.r, c.g, c.b, 0)), Float32(ONE)));
    lemma_band(c.r, c.g, c.b, 0, 0, 0, 0x2_0000_0000);
    assert(s[1] == reflectance(absorption(band_of(c.r, c.g, c.b, 1)), Float32(ONE)));
    lemma_band(c.r, c.g, c.b, 1, 0, 0x1999_99a0, 0x1_e666_6600);
    assert(s[2] == reflectance(absorption(band_of(c.r, c.g, c.b, 2)), Float32(ONE)));
    lemma_band(c.r, c.g, c.b, 2, 0, 0x1_4ccc_cc00, 0xb333_3300);
    assert(s[3] == reflectance(absorption(band_of(c.r, c.g, c.b, 3)), Float32(ONE)));
    lemma_band(c.r, c.g, c.b, 3, 0x1999_99a0, 0x1_e666_6600, 0);
    assert(s[4] == reflectance(absorption(band_of(c.r, c.g, c.b, 4)), Float32(ONE)));
    lemma_band(c.r, c.g, c.b, 4, 0xb333_3300, 0x1_4ccc_cc00, 0);
    assert(s[5] == reflectance(absorption(band_of(c.r, c.g, c.b, 5)), Float32(ONE)));
    lemma_band(c.r, c.g, c.b, 5, 0x1_e666_6600, 0x1999_99a0, 0);
    assert(s[6] == reflectance(absorption(band_of(c.r, c.g, c.b, 6)), Float32(ONE)));
    lemma_band(c.r, c.g, c.b, 6, 0x2_0000_0000, 0, 0);
}

/// What comes back in every band, finely.
proof fn lemma_spectrum_returns_finely(c: LinearRgba)
    requires
        fraction(c.r),
        fraction(c.g),
        fraction(c.b),
        above_floor(c),
    ensures
        ({
            let s = PigmentView::of_color(c).spectrum();
            let r = c.r.value();
            let g = c.g.value();
            let b = c.b.value();
            &&& s.len() == 7
            &&& band_returns_finely(s[0], 0x2_0000_0000 * b)
            &&& band_returns_finely(s[1], 0x1999_99a0 * g + 0x1_e666_6600 * b)
            &&& band_returns_finely(s[2], 0x1_4ccc_cc00 * g + 0xb333_3300 * b)
            &&& band_returns_finely(s[3], 0x1999_99a0 * r + 0x1_e666_6600 * g)
            &&& band_returns_finely(s[4], 0xb333_3300 * r + 0x1_4ccc_cc00 * g)
            &&& band_returns_finely(s[5], 0x1_e666_6600 * r + 0x1999_99a0 * g)
            &&& band_returns_finely(s[6], 0x2_0000_0000 * r)
        }),
{
    lemma_weights();
    let s = PigmentView::of_color(c).spectrum();
    assert(s[0] == reflectance(absorption(band_of(c.r, c.g, c.b, 0)), Float32(ONE)));
    lemma_band(c.r, c.g, c.b, 0, 0, 0, 0x2_0000_0000);
    assert(s[1] == reflectance(absorption(band_of(c.r, c.g, c.b, 1)), Float32(ONE)));
    lemma_band(c.r, c.g, c.b, 1, 0, 0x1999_99a0, 0x1_e666_6600);
    assert(s[2] == reflectance(absorption(band_of(c.r, c.g, c.b, 2)), Float32(ONE)));
    lemma_band(c.r, c.g, c.b, 2, 0, 0x1_4ccc_cc00, 0xb333_3300);
    assert(s[3] == reflectance(absorption(band_of(c.r, c.g, c.b, 3)), Float32(ONE)));
    lemma_band(c.r, c.g, c.b, 3, 0x1999_99a0, 0x1_e666_6600, 0);
    assert(s[4] == reflectance(absorption(band_of(c.r, c.g, c.b, 4)), Float32(ONE)));
    lemma_band(c.r, c.g, c.b, 4, 0xb333_3300, 0x1_4ccc_cc00, 0);
    assert(s[5] == reflectance(absorption(band_of(c.r, c.g, c.b, 5)), Float32(ONE)));
    lemma_band(c.r, c.g, c.b, 5, 0x1_e666_6600, 0x1999_99a0, 0);
    assert(s[6] == reflectance(absorption(band_of(c.r, c.g, c.b, 6)), Float32(ONE)));
    lemma_band(c.r, c.g, c.b, 6, 0x2_0000_0000, 0, 0);
}

/// `x` is close to a sum of weighted bands.
spec fn sum_returns(x: Float32, exact: int) -> bool {
    &&& x.finite()
    &&& 10 * size(x.value()) <= 11 * unit()
    &&& 0x8_0000 * distance(0x2_0000_0000 * x.value(), exact) <= 0x1c_0000_0000 * unit()
}

proof fn lemma_times(v: int, k: int, weight: int)
    by (nonlinear_arith)
    requires
        k == weight,
    ensures
        v * k == weight * v,
{
}

proof fn lemma_x_sum(s: Seq<Float32>)
    requires
        fractions(s),
    ensures
        sum_returns(
            integral(s, X_BAR@, 7),
            0x1999_99a0 * s[2].value() + 0x6666_6680 * s[3].value()
                + 0xcccc_cd00 * s[4].value() + 0x9999_9a00 * s[5].value()
                + 0x1999_99a0 * s[6].value(),
        ),
{
    lemma_weights();
    let k = seq![
        0int, 0int, 0x1999_99a0int, 0x6666_6680int, 0xcccc_cd00int, 0x9999_9a00int, 0x1999_99a0int,
    ];
    lemma_sum_of_bands(s, X_BAR@, k);
    lemma_times(s[0].value(), k[0], 0);
    lemma_times(s[1].value(), k[1], 0);
    lemma_times(s[2].value(), k[2], 0x1999_99a0);
    lemma_times(s[3].value(), k[3], 0x6666_6680);
    lemma_times(s[4].value(), k[4], 0xcccc_cd00);
    lemma_times(s[5].value(), k[5], 0x9999_9a00);
    lemma_times(s[6].value(), k[6], 0x1999_99a0);
}

proof fn lemma_y_sum(s: Seq<Float32>)
    requires
        fractions(s),
    ensures
        sum_returns(
            integral(s, Y_BAR@, 7),
            0x3333_3340 * s[1].value() + 0xb333_3300 * s[2].value()
                + 0xcccc_cd00 * s[3].value() + 0x3333_3340 * s[4].value()
                + 0x1999_99a0 * s[5].value(),
        ),
{
    lemma_weights();
    let k = seq![
        0int, 0x3333_3340int, 0xb333_3300int, 0xcccc_cd00int, 0x3333_3340int, 0x1999_99a0int, 0int,
    ];
    lemma_sum_of_bands(s, Y_BAR@, k);
    lemma_times(s[0].value(), k[0], 0);
    lemma_times(s[1].value(), k[1], 0x3333_3340);
    lemma_times(s[2].value(), k[2], 0xb333_3300);
    lemma_times(s[3].value(), k[3], 0xcccc_cd00);
    lemma_times(s[4].value(), k[4], 0x3333_3340);
    lemma_times(s[5].value(), k[5], 0x1999_99a0);
    lemma_times(s[6].value(), k[6], 0);
}

proof fn lemma_z_sum(s: Seq<Float32>)
    requires
        fractions(s),
    ensures
        sum_returns(
            integral(s, Z_BAR@, 7),
            0x9999_9a00 * s[0].value() + 0xcccc_cd00 * s[1].value()
                + 0x6666_6680 * s[2].value() + 0x1999_99a0 * s[3].value()
                + 0x1999_99a0 * s[4].value(),
        ),
{
    lemma_weights();
    let k = seq![
        0x9999_9a00int, 0xcccc_cd00int, 0x6666_6680int, 0x1999_99a0int, 0x1999_99a0int, 0int, 0int,
    ];
    lemma_sum_of_bands(s, Z_BAR@, k);
    lemma_times(s[0].value(), k[0], 0x9999_9a00);
    lemma_times(s[1].value(), k[1], 0xcccc_cd00);
    lemma_times(s[2].value(), k[2], 0x6666_6680);
    lemma_times(s[3].value(), k[3], 0x1999_99a0);
    lemma_times(s[4].value(), k[4], 0x1999_99a0);
    lemma_times(s[5].value(), k[5], 0);
    lemma_times(s[6].value(), k[6], 0);
}

/// The errors on the way of a color are small.
#[verifier::rlimit(40)]
proof fn lemma_way_is_small(c: LinearRgba)
    requires
        fraction(c.r),
        fraction(c.g),
        fraction(c.b),
    ensures
        fractions(PigmentView::of_color(c).spectrum()),
        way(c, PigmentView::of_color(c).spectrum()).small(unit()),
{
    let s = PigmentView::of_color(c).spectrum();
    lemma_spectrum_returns(c);
    assert(fractions(s));
    lemma_x_sum(s);
    lemma_y_sum(s);
    lemma_z_sum(s);
}

/// The errors on the way of a color are fine where no band is below the least reflectance.
#[verifier::rlimit(40)]
proof fn lemma_way_is_fine(c: LinearRgba)
    requires
        fraction(c.r),
        fraction(c.g),
        fraction(c.b),
        above_floor(c),
    ensures
        way(c, PigmentView::of_color(c).spectrum()).fine(unit()),
{
    let s = PigmentView::of_color(c).spectrum();
    lemma_spectrum_returns_finely(c);
    lemma_way_is_small(c);
}

proof fn lemma_red_returns(c: LinearRgba)
    requires
        fraction(c.r),
        fraction(c.g),
        fraction(c.b),
    ensures
        ({
            let back = PigmentView::of_color(c).color().r;
            &&& fraction(back)
            &&& 330 * distance(back.value(), c.r.value()) <= unit()
            &&& above_floor(c) ==> 2000 * distance(back.value(), c.r.value()) <= unit()
        }),
{
    let s = PigmentView::of_color(c).spectrum();
    lemma_way_is_small(c);
    lemma_way_is_exact(c, s);
    lemma_x_sum(s);
    lemma_y_sum(s);
    lemma_z_sum(s);
    lemma_weights();
    let x = integral(s, X_BAR@, 7);
    let y = integral(s, Y_BAR@, 7);
    let z = integral(s, Z_BAR@, 7);
    lemma_corrected(RED_ROW@, x, y, z, 0x4_ea30_5800, -0x3_f19c_e000, 0x1_076c_8c00);
    let red = corrected(RED_ROW@, x, y, z);
    let error = 0x2_0000_0000 * red.value() - (0x4_ea30_5800 * x.value()
        + -0x3_f19c_e000 * y.value()
        + 0x1_076c_8c00 * z.value());
    lemma_red_identity(way(c, s), red.value(), error);
    lemma_red_bounds(way(c, s), red.value(), error, unit());
    if above_floor(c) {
        lemma_way_is_fine(c);
        lemma_red_fine_bounds(way(c, s), red.value(), error, unit());
    }
    lemma_clamped(red, c.r.value());
}

proof fn lemma_green_returns(c: LinearRgba)
    requires
        fraction(c.r),
        fraction(c.g),
        fraction(c.b),
    ensures
        ({
            let back = PigmentView::of_color(c).color().g;
            &&& fraction(back)
            &&& 330 * distance(back.value(), c.g.value()) <= unit()
            &&& above_floor(c) ==> 2000 * distance(back.value(), c.g.value()) <= unit()
        }),
{
    let s = PigmentView::of_color(c).spectrum();
    lemma_way_is_small(c);
    lemma_way_is_exact(c, s);
    lemma_x_sum(s);
    lemma_y_sum(s);
    lemma_z_sum(s);
    lemma_weights();
    let x = integral(s, X_BAR@, 7);
    let y = integral(s, Y_BAR@, 7);
    let z = integral(s, Z_BAR@, 7);
    lemma_corrected(GREEN_ROW@, x, y, z, -0xc659_4b00, 0x3_e20c_4800, -0x1_1ba5_e400);
    let green = corrected(GREEN_ROW@, x, y, z);
    let error = 0x2_0000_0000 * green.value() - (-0xc659_4b00 * x.value()
        + 0x3_e20c_4800 * y.value()
        + -0x1_1ba5_e400 * z.value());
    lemma_green_identity(way(c, s), green.value(), error);
    lemma_green_bounds(way(c, s), green.value(), error, unit());
    if above_floor(c) {
        lemma_way_is_fine(c);
        lemma_green_fine_bounds(way(c, s), green.value(), error, unit());
    }
    lemma_clamped(green, c.g.value());
}

proof fn lemma_blue_returns(c: LinearRgba)
    requires
        fraction(c.r),
        fraction(c.g),
        fraction(c.b),
    ensures
        ({
            let back = PigmentView::of_color(c).color().b;
            &&& fraction(back)
            &&& 330 * distance(back.value(), c.b.value()) <= unit()
            &&& above_floor(c) ==> 2000 * distance(back.value(), c.b.value()) <= unit()
        }),
{
    let s = PigmentView::of_color(c).spectrum();
    lemma_way_is_small(c);
    lemma_way_is_exact(c, s);
    lemma_x_sum(s);
    lemma_y_sum(s);
    lemma_z_sum(s);
    lemma_weights();
    let x = integral(s, X_BAR@, 7);
    let y = integral(s, Y_BAR@, 7);
    let z = integral(s, Z_BAR@, 7);
    lemma_corrected(BLUE_ROW@, x, y, z, 0x1b4a_2340, -0x1_15e9_e200, 0x2_fa9f_c000);
    let blue = corrected(BLUE_ROW@, x, y, z);
    let error = 0x2_0000_0000 * blue.value() - (0x1b4a_2340 * x.value() + -0x1_15e9_e200 * y.value()
        + 0x2_fa9f_c000 * z.value());
    lemma_blue_identity(way(c, s), blue.value(), error);
    lemma_blue_bounds(way(c, s), blue.value(), error, unit());
    if above_floor(c) {
        lemma_way_is_fine(c);
        lemma_blue_fine_bounds(way(c, s), blue.value(), error, unit());
    }
    lemma_clamped(blue, c.b.value());
}

/// A color whose channels lie between 0 and 1 comes back from its pigment: every channel
/// within one part in 330 of what it was.
pub proof fn lemma_color_returns(c: LinearRgba)
    requires
        fraction(c.r),
        fraction(c.g),
        fraction(c.b),
    ensures
        ({
            let back = PigmentView::of_color(c).color();
            &&& fraction(back.r) && 330 * distance(back.r.value(), c.r.value()) <= unit()
            &&& fraction(back.g) && 330 * distance(back.g.value(), c.g.value()) <= unit()
            &&& fraction(back.b) && 330 * distance(back.b.value(), c.b.value()) <= unit()
        }),
{
    lemma_red_returns(c);
    lemma_green_returns(c);
    lemma_blue_returns(c);
}

/// A color comes back within `5 * 10^-4` where none of its seven bands is below the least
/// reflectance.
pub proof fn lemma_color_above_floor_returns(c: LinearRgba)
    requires
        fraction(c.r),
        fraction(c.g),
        fraction(c.b),
        above_floor(c),
    ensures
        ({
            let back = PigmentView::of_color(c).color();
            &&& 2000 * distance(back.r.value(), c.r.value()) <= unit()
            &&& 2000 * distance(back.g.value(), c.g.value()) <= unit()
            &&& 2000 * distance(back.b.value(), c.b.value()) <= unit()
        }),
{
    lemma_red_returns(c);
    lemma_green_returns(c);
    lemma_blue_returns(c);
}

} // verus!
