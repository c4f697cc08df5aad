//! What holds of colors on their way through display bytes and back.

use crate::brush::ONE;
use crate::float32::error::{lemma_byte_is_exact, lemma_rounding_error, precision};
use crate::float32::{
    lemma_exact_value_rounds_to_itself, lemma_magnitude_value_increases, lemma_rounding_exists,
    lemma_rounding_is_monotone, lemma_step, magnitude_value, rounded, Float32,
};
use crate::float64::error::distance;
use crate::srgb::{
    byte_of, decode_base, decoded, encoded, part, BYTE_MAX, ENCODED_LIMIT, GAIN, HALF,
    LINEAR_LIMIT, OFFSET, SLOPE,
};
use vstd::arithmetic::power2::*;
use vstd::prelude::*;

verus! {

/// `2^117`, of which all the constants of the curve are multiples.
spec fn grain() -> int {
    pow2(117) as int
}

/// `2^149`, the value of 1.
spec fn unit() -> int {
    pow2(149) as int
}

proof fn lemma_units()
    ensures
        unit() == 0x1_0000_0000 * grain(),
        grain() >= 0x100_0000_0000_0000,
{
    lemma2_to64();
    lemma2_to64_rest();
    lemma_pow2_adds(117, 32);
    lemma_pow2_strictly_increases(56, 117);
}

/// The value of a pattern from its significand `n` and scale `s`.
proof fn lemma_pattern(m: u32, s: int, n: int, k: int)
    requires
        117 <= s <= 149,
        0x80_0000 <= n < 0x100_0000,
        m == s * 0x80_0000 + n,
        k == n * pow2((s - 117) as nat),
    ensures
        Float32(m).value() == k * grain(),
        Float32(m).plain(),
        magnitude_value(m as int) == k * grain(),
{
    lemma_step(s, n);
    lemma_pow2_adds(117, (s - 117) as nat);
    assert(n * (grain() * pow2((s - 117) as nat)) == (n * pow2((s - 117) as nat)) * grain())
        by (nonlinear_arith);
}

proof fn lemma_constants()
    ensures
        Float32(ONE).plain() && Float32(ONE).value() == 0x1_0000_0000 * grain(),
        Float32(HALF).plain() && Float32(HALF).value() == 0x8000_0000 * grain(),
        Float32(BYTE_MAX).plain() && Float32(BYTE_MAX).value() == 0xff_0000_0000 * grain(),
        Float32(OFFSET).plain() && Float32(OFFSET).value() == 0xe14_7ae0 * grain(),
        Float32(GAIN).plain() && Float32(GAIN).value() == 0x1_0e14_7a00 * grain(),
        Float32(SLOPE).plain() && Float32(SLOPE).value() == 0xc_eb85_2000 * grain(),
        Float32(ENCODED_LIMIT).plain() && Float32(ENCODED_LIMIT).value() == 0xa5a_ee60 * grain(),
        Float32(LINEAR_LIMIT).plain() && Float32(LINEAR_LIMIT).value() == 0xcd_2e1c * grain(),
        magnitude_value(0x4400_0000) == 512 * unit(),
{
    lemma2_to64();
    lemma_units();
    lemma_pattern(ONE, 126, 0x80_0000, 0x1_0000_0000);
    lemma_pattern(HALF, 125, 0x80_0000, 0x8000_0000);
    lemma_pattern(BYTE_MAX, 133, 0xff_0000, 0xff_0000_0000);
    lemma_pattern(OFFSET, 121, 0xe1_47ae, 0xe14_7ae0);
    lemma_pattern(GAIN, 126, 0x87_0a3d, 0x1_0e14_7a00);
    lemma_pattern(SLOPE, 129, 0xce_b852, 0xc_eb85_2000);
    lemma_pattern(ENCODED_LIMIT, 121, 0xa5_aee6, 0xa5a_ee60);
    lemma_pattern(LINEAR_LIMIT, 117, 0xcd_2e1c, 0xcd_2e1c);
    lemma_pattern(0x4400_0000, 135, 0x80_0000, 0x200_0000_0000);
}

/// Comparing patterns is comparing values.
proof fn lemma_compared(x: Float32, y: Float32)
    requires
        x.plain(),
        y.plain(),
    ensures
        x.at_most(y) <==> x.value() <= y.value(),
        x.below(y) <==> x.value() < y.value(),
        x.value() >= 0,
{
    let a = x.magnitude();
    let b = y.magnitude();
    if a < b {
        lemma_magnitude_value_increases(a, b);
    } else if b < a {
        lemma_magnitude_value_increases(b, a);
    }
    lemma_step(0, 0);
    if a > 0 {
        lemma_magnitude_value_increases(0, a);
    }
}

/// A value in the middle of the range is changed by at most one part in `2^23`.
proof fn lemma_settles(num: int, den: int)
    requires
        den > 0,
        0x80_0000 * den <= num <= 512 * unit() * den,
    ensures
        0x80_0000 <= rounded(num, den) <= 0x4400_0000,
        precision() * distance(magnitude_value(rounded(num, den)) * den, num) <= num,
{
    let r = rounded(num, den);
    lemma_rounding_exists(num, den);
    lemma_constants();
    lemma_step(0, 0x80_0000);
    lemma2_to64();
    let low = magnitude_value(0x80_0000);
    let high = magnitude_value(0x4400_0000);
    lemma_exact_value_rounds_to_itself(0x80_0000, den);
    lemma_exact_value_rounds_to_itself(0x4400_0000, den);
    assert((low * den) * den <= num * den) by (nonlinear_arith)
        requires
            low * den <= num,
            den > 0,
    ;
    assert(num * den <= (high * den) * den) by (nonlinear_arith)
        requires
            num <= high * den,
            den > 0,
    ;
    lemma_rounding_is_monotone(low * den, den, 0x80_0000, num, den, r);
    lemma_rounding_is_monotone(num, den, r, high * den, den, 0x4400_0000);
    lemma_rounding_error(num, den, r);
}

/// Multiplying by a constant of `k` grains.
proof fn lemma_times(x: Float32, c: Float32, k: int)
    requires
        x.plain(),
        c.plain(),
        c.value() == k * grain(),
        0x100_0000 <= 2 * k <= 0x1ff_0000_0000,
        grain() <= x.value() <= 2 * unit(),
    ensures
        x.product(c).plain(),
        x.product(c) == c.product(x),
        precision() * distance(x.product(c).value() * 0x1_0000_0000, x.value() * k) <= x.value()
            * k,
{
    lemma_units();
    let v = x.value();
    let w = grain();
    let u = unit();
    let num = v * (k * w);
    assert(num == (v * k) * w) by (nonlinear_arith)
        requires
            num == v * (k * w),
    ;
    assert(v * k >= 0x80_0000 * 0x1_0000_0000) by (nonlinear_arith)
        requires
            v >= 0x100_0000_0000_0000,
            2 * k >= 0x100_0000,
    ;
    assert(v * k <= 0x1ff_0000_0000 * u) by (nonlinear_arith)
        requires
            0 <= v <= 2 * u,
            0 <= 2 * k <= 0x1ff_0000_0000,
    ;
    assert(0x80_0000 * u <= num) by (nonlinear_arith)
        requires
            num == (v * k) * w,
            v * k >= 0x80_0000 * 0x1_0000_0000,
            u == 0x1_0000_0000 * w,
            w > 0,
    ;
    assert(num <= 512 * u * u) by (nonlinear_arith)
        requires
            num == (v * k) * w,
            v * k <= 0x1ff_0000_0000 * u,
            u == 0x1_0000_0000 * w,
            w > 0,
    ;
    lemma_settles(num, u);
    let r = rounded(num, u);
    let z = magnitude_value(r);
    assert(x.product(c) == Float32::with_sign(false, r));
    assert(x.product(c).value() == z);
    assert((k * w) * v == num) by (nonlinear_arith)
        requires
            num == v * (k * w),
    ;
    assert(c.product(x) == Float32::with_sign(false, r));
    let d = distance(z * 0x1_0000_0000, v * k);
    assert(distance(z * u, num) == d * w) by (nonlinear_arith)
        requires
            u == 0x1_0000_0000 * w,
            num == (v * k) * w,
            w > 0,
            d == distance(z * 0x1_0000_0000, v * k),
    ;
    assert(precision() * d <= v * k) by (nonlinear_arith)
        requires
            precision() * (d * w) <= (v * k) * w,
            w > 0,
    ;
}

/// Dividing by a constant of `k` grains.
proof fn lemma_over(x: Float32, c: Float32, k: int)
    requires
        x.plain(),
        c.plain(),
        c.value() == k * grain(),
        0x1000_0000 <= k <= 0xff_0000_0000,
        grain() <= x.value() <= 0x1fe_0000_0000 * grain(),
        x.value() <= 2 * k * grain(),
    ensures
        x.quotient(c).plain(),
        precision() * distance(x.quotient(c).value() * k, x.value() * 0x1_0000_0000) <= x.value()
            * 0x1_0000_0000,
{
    lemma_units();
    let v = x.value();
    let w = grain();
    let u = unit();
    let den = k * w;
    let num = v * u;
    assert(den > 0) by (nonlinear_arith)
        requires
            den == k * w,
            k > 0,
            w > 0,
    ;
    assert(0x80_0000 * den <= num) by (nonlinear_arith)
        requires
            num == v * u,
            u == 0x1_0000_0000 * w,
            den == k * w,
            w >= 0x100_0000_0000_0000,
            v >= w,
            0 < k <= 0xff_0000_0000,
    ;
    assert(num <= 512 * u * den) by (nonlinear_arith)
        requires
            num == v * u,
            den == k * w,
            0 <= v <= 2 * k * w,
            u > 0,
            k > 0,
            w > 0,
    ;
    lemma_settles(num, den);
    let r = rounded(num, den);
    let z = magnitude_value(r);
    assert(x.quotient(c) == Float32::with_sign(false, r));
    assert(x.quotient(c).value() == z);
    let d = distance(z * k, v * 0x1_0000_0000);
    assert(distance(z * den, num) == d * w) by (nonlinear_arith)
        requires
            u == 0x1_0000_0000 * w,
            num == v * u,
            den == k * w,
            w > 0,
            d == distance(z * k, v * 0x1_0000_0000),
    ;
    assert(num == (v * 0x1_0000_0000) * w) by (nonlinear_arith)
        requires
            num == v * u,
            u == 0x1_0000_0000 * w,
    ;
    assert(precision() * d <= v * 0x1_0000_0000) by (nonlinear_arith)
        requires
            precision() * (d * w) <= (v * 0x1_0000_0000) * w,
            w > 0,
    ;
}

/// Adding two numbers that are not negative.
proof fn lemma_plus(x: Float32, y: Float32)
    requires
        x.plain(),
        y.plain(),
        grain() <= x.value() <= 256 * unit(),
        0 <= y.value() <= unit(),
    ensures
        x.sum(y).plain(),
        precision() * distance(x.sum(y).value(), x.value() + y.value()) <= x.value() + y.value(),
{
    lemma_units();
    let v = x.value() + y.value();
    lemma_settles(v, 1);
    assert(x.sum(y) == Float32::with_sign(false, rounded(v, 1)));
    assert(magnitude_value(rounded(v, 1)) * 1 == magnitude_value(rounded(v, 1)));
}

/// Taking away less than there is.
proof fn lemma_minus(x: Float32, y: Float32)
    requires
        x.plain(),
        y.plain(),
        grain() <= y.value(),
        x.value() <= 256 * unit(),
        y.value() + grain() <= x.value(),
    ensures
        x.difference(y).plain(),
        precision() * distance(x.difference(y).value(), x.value() - y.value()) <= x.value()
            - y.value(),
{
    lemma_units();
    let v = x.value() - y.value();
    lemma_settles(v, 1);
    assert(y.negated().value() == -y.value());
    assert(x.difference(y) == Float32::with_sign(false, rounded(v, 1)));
    assert(magnitude_value(rounded(v, 1)) * 1 == magnitude_value(rounded(v, 1)));
}

/// A byte from 1 up as a part of 255.
proof fn lemma_part(byte: u8)
    requires
        byte >= 1,
    ensures
        part(byte).plain(),
        precision() * distance(255 * part(byte).value(), byte * unit()) <= byte * unit(),
        grain() <= part(byte).value() <= unit() + unit() / 0x1000,
{
    lemma_units();
    lemma_constants();
    let a = byte as int * unit();
    let x = Float32::of_whole(byte as int);
    assert(a >= unit()) by (nonlinear_arith)
        requires
            a == byte * unit(),
            byte >= 1,
            unit() >= 0,
    ;
    assert(a <= 255 * unit()) by (nonlinear_arith)
        requires
            a == byte * unit(),
            byte <= 255,
            unit() >= 0,
    ;
    lemma_byte_is_exact(byte);
    lemma_over(x, Float32(BYTE_MAX), 0xff_0000_0000);
}

/// A part of 255 that lies close to a byte is turned into that byte.
proof fn lemma_quantized(x: Float32, byte: u8)
    requires
        x.plain(),
        byte >= 1,
        grain() <= x.value(),
        64 * distance(255 * x.value(), byte * unit()) <= unit(),
    ensures
        byte_of(x) == byte,
{
    lemma_units();
    lemma_constants();
    lemma_compared(Float32(0), x);
    lemma_compared(x, Float32(0));
    lemma_compared(Float32(ONE), x);
    let u = unit();
    let a = byte as int * u;
    assert(u <= a <= 255 * u) by (nonlinear_arith)
        requires
            a == byte * u,
            1 <= byte <= 255,
            u >= 0,
    ;
    let y = x.clamped(Float32(0), Float32(ONE));
    assert(y.plain() && grain() <= y.value() <= u);
    assert(64 * distance(255 * y.value(), a) <= u);
    lemma_times(y, Float32(BYTE_MAX), 0xff_0000_0000);
    let m = y.product(Float32(BYTE_MAX));
    assert(precision() * distance(m.value(), 255 * y.value()) <= 255 * y.value());
    lemma_plus(m, Float32(HALF));
    let z = m.sum(Float32(HALF));
    assert(a < z.value() < a + u);
    vstd::arithmetic::div_mod::lemma_fundamental_div_mod_converse(
        z.value(),
        u,
        byte as int,
        z.value() - a,
    );
}

/// Black stays black and what is transparent stays transparent.
proof fn lemma_zero_survives()
    ensures
        part(0) == Float32(0),
        byte_of(Float32(0)) == 0,
{
    lemma_units();
    lemma_constants();
    lemma2_to64();
    lemma_step(0, 0);
    lemma_byte_is_exact(0);
    let zero = Float32(0);
    assert(0 * unit() == 0);
    assert(Float32::of_whole(0) == zero) by {
        lemma_exact_value_rounds_to_itself(0, 1);
    }
    let b = Float32(BYTE_MAX);
    lemma_exact_value_rounds_to_itself(0, b.value());
    lemma_exact_value_rounds_to_itself(0, unit());
    assert(0 * b.value() == 0);
    assert(part(0) == zero);
    assert(zero.product(b) == zero);
    let h = Float32(HALF);
    lemma_exact_value_rounds_to_itself(h.magnitude(), 1);
    assert(zero.sum(h) == h);
    lemma_compared(zero, Float32(ONE));
    vstd::arithmetic::div_mod::lemma_fundamental_div_mod_converse(
        h.value(),
        unit(),
        0,
        h.value(),
    );
}

/// Alpha is a straight part of 255, so every alpha survives the way into a color and back.
pub proof fn lemma_alpha_survives(byte: u8)
    ensures
        byte_of(part(byte)) == byte,
{
    lemma_units();
    if byte == 0 {
        lemma_zero_survives();
    } else {
        lemma_part(byte);
        let a = byte as int * unit();
        assert(a <= 255 * unit()) by (nonlinear_arith)
            requires
                a == byte * unit(),
                byte <= 255,
                unit() >= 0,
        ;
        lemma_quantized(part(byte), byte);
    }
}

/// Near black, where the curve is straight, every byte of a channel survives the way into a
/// color and back, whatever powers are handed in.
pub proof fn lemma_dark_channels_survive(byte: u8, decode_power: Float32, encode_power: Float32)
    requires
        byte <= 10,
    ensures
        byte_of(encoded(decoded(part(byte), decode_power), encode_power)) == byte,
{
    lemma_units();
    lemma_constants();
    let w = grain();
    if byte == 0 {
        lemma_zero_survives();
        lemma_step(0, 0);
        lemma_compared(Float32(0), Float32(ENCODED_LIMIT));
        lemma_compared(Float32(0), Float32(LINEAR_LIMIT));
        let c = Float32(SLOPE);
        lemma_exact_value_rounds_to_itself(0, c.value());
        lemma_exact_value_rounds_to_itself(0, unit());
        assert(0 * c.value() == 0 && c.value() * 0 == 0 && 0 * unit() == 0);
        assert(Float32(0).quotient(c) == Float32(0));
        assert(c.product(Float32(0)) == Float32(0));
    } else {
        lemma_part(byte);
        let x = part(byte);
        let a = byte as int * unit();
        assert(unit() <= a <= 10 * unit()) by (nonlinear_arith)
            requires
                a == byte * unit(),
                1 <= byte <= 10,
                unit() >= 0,
        ;
        lemma_compared(x, Float32(ENCODED_LIMIT));
        lemma_over(x, Float32(SLOPE), 0xc_eb85_2000);
        let c = x.quotient(Float32(SLOPE));
        lemma_compared(c, Float32(LINEAR_LIMIT));
        lemma_times(c, Float32(SLOPE), 0xc_eb85_2000);
        lemma_quantized(Float32(SLOPE).product(c), byte);
    }
}

/// Divided by the gain, changed a little and multiplied by it again.
proof fn lemma_gain_undone(s: int, base: int, power: int, g: int)
    requires
        s >= 0,
        precision() * distance(base * 0x1_0e14_7a00, s * 0x1_0000_0000) <= s * 0x1_0000_0000,
        0x1_0000 * distance(power, base) <= base,
        precision() * distance(g * 0x1_0000_0000, power * 0x1_0e14_7a00) <= power * 0x1_0e14_7a00,
    ensures
        0x4000 * distance(g, s) <= s,
{
}

/// Elsewhere every byte of a channel survives too, given that the two powers undo each other
/// up to one part in `2^16`, and that the color is not so dark that the straight part of the
/// curve takes it.
pub proof fn lemma_channels_survive(byte: u8, decode_power: Float32, encode_power: Float32)
    requires
        byte > 10,
        Float32(LINEAR_LIMIT).below(decode_power),
        encode_power.finite(),
        !encode_power.negative(),
        0x1_0000 * distance(encode_power.value(), decode_base(part(byte)).value()) <= decode_base(
            part(byte),
        ).value(),
    ensures
        byte_of(encoded(decoded(part(byte), decode_power), encode_power)) == byte,
{
    lemma_units();
    lemma_constants();
    lemma_part(byte);
    let u = unit();
    let w = grain();
    let x = part(byte);
    let a = byte as int * u;
    assert(11 * u <= a <= 255 * u) by (nonlinear_arith)
        requires
            a == byte * u,
            11 <= byte <= 255,
            u >= 0,
    ;
    lemma_compared(x, Float32(ENCODED_LIMIT));
    assert(decoded(x, decode_power) == decode_power);
    lemma_plus(x, Float32(OFFSET));
    let s = x.sum(Float32(OFFSET));
    lemma_over(s, Float32(GAIN), 0x1_0e14_7a00);
    let base = s.quotient(Float32(GAIN));
    lemma_times(encode_power, Float32(GAIN), 0x1_0e14_7a00);
    let g = Float32(GAIN).product(encode_power);
    lemma_gain_undone(s.value(), base.value(), encode_power.value(), g.value());
    lemma_minus(g, Float32(OFFSET));
    lemma_quantized(g.difference(Float32(OFFSET)), byte);
}

} // verus!
