//! What holds of the steps along a ribbon.

use crate::float64::convert::{lemma_count_is_monotone, lemma_count_is_tight};
use crate::float64::{
    lemma_exact_value_rounds_to_itself, lemma_magnitude_value_increases, lemma_rounding_exists,
    lemma_rounding_is_monotone, magnitude_value, rounded, Float64,
};
use crate::ribbon::walk::{pixel_length, steps};
use crate::vector::UNIT;
use vstd::arithmetic::power2::*;
use vstd::prelude::*;

verus! {

/// The steps along a curve are at most a pixel long, and there are no more of them than that
/// takes: the length, counted in pixels, lies from one less than their number to their number.
pub proof fn lemma_steps_are_a_pixel_long(length: Float64, world_step: Float64)
    requires
        length.quotient(world_step).finite(),
        !length.quotient(world_step).negative(),
        steps(length, world_step) < usize::MAX,
    ensures
        ({
            let pixels = length.quotient(world_step).value();
            let n = steps(length, world_step);
            &&& pixels <= n * pow2(1074)
            &&& n > 1 ==> (n - 1) * pow2(1074) < pixels
        }),
{
    let q = length.quotient(world_step);
    lemma_count_is_tight(q);
    let one = pow2(1074) as int;
    let c = q.count();
    assert((c - 1) * one == c * one - one) by (nonlinear_arith);
    if c < 1 {
        lemma_pow2_pos(1074);
        assert(c * one <= 0) by (nonlinear_arith)
            requires
                c < 1,
                c >= 0,
                one > 0,
        ;
    }
}

/// Zooming in never takes fewer steps along a curve of the same length.
pub proof fn lemma_zoom_takes_no_fewer_steps(length: Float64, scale: Float64, larger: Float64)
    requires
        length.finite(),
        !length.negative(),
        larger.finite(),
        Float64(0).below(scale),
        scale.at_most(larger),
    ensures
        steps(length, pixel_length(scale)) <= steps(length, pixel_length(larger)),
{
    let a = pixel_length(scale);
    let b = pixel_length(larger);
    lemma_pixels_shrink(scale, larger);
    lemma_more_of_smaller(length, a, b);
    lemma_count_is_monotone(length.quotient(a), length.quotient(b));
}

/// The pixel of a larger scale is no longer, and it has a length.
proof fn lemma_pixels_shrink(scale: Float64, larger: Float64)
    requires
        larger.finite(),
        Float64(0).below(scale),
        scale.at_most(larger),
    ensures
        pixel_length(larger).finite() || pixel_length(larger).infinite(),
        !pixel_length(larger).negative(),
        !pixel_length(scale).negative(),
        pixel_length(larger).at_most(pixel_length(scale)),
        Float64(0).below(pixel_length(larger)),
{
    let one = Float64(UNIT);
    let u = pow2(1074) as int;
    lemma_pow2_pos(1074);
    let s = scale.magnitude();
    let t = larger.magnitude();
    crate::float64::lemma_step(0, 0);
    lemma_magnitude_value_increases(0, s);
    lemma_magnitude_value_increases(0, one.magnitude());
    if s < t {
        lemma_magnitude_value_increases(s, t);
    }
    let v = magnitude_value(s);
    let w = magnitude_value(t);
    let num = magnitude_value(one.magnitude()) * u;
    assert(num > 0) by (nonlinear_arith)
        requires
            num == magnitude_value(one.magnitude()) * u,
            magnitude_value(one.magnitude()) > 0,
            u > 0,
    ;
    lemma_rounding_exists(num, v);
    lemma_rounding_exists(num, w);
    assert(num * v <= num * w) by (nonlinear_arith)
        requires
            v <= w,
            num > 0,
    ;
    lemma_rounding_is_monotone(num, w, rounded(num, w), num, v, rounded(num, v));
    assert(rounded(num, w) > 0) by {
        lemma_inverse_is_not_nothing(larger);
    }
}

/// `1 / x` does not vanish for any finite `x`.
proof fn lemma_inverse_is_not_nothing(x: Float64)
    requires
        x.finite(),
        Float64(0).below(x),
    ensures
        rounded(magnitude_value(Float64(UNIT).magnitude()) * pow2(1074), magnitude_value(x.magnitude())) > 0,
{
    let u = pow2(1074) as int;
    let v = magnitude_value(x.magnitude());
    lemma_pow2_pos(1074);
    crate::float64::lemma_step(0, 0);
    lemma_magnitude_value_increases(0, x.magnitude());
    // The largest magnitude is below 2^2098 units and 1 is 2^1074 of them, so the quotient is
    // above a unit.
    crate::float64::lemma_step(2045, 0x1f_ffff_ffff_ffff);
    crate::float64::lemma_step(1022, 0x10_0000_0000_0000);
    if x.magnitude() < 0x7fef_ffff_ffff_ffff {
        lemma_magnitude_value_increases(x.magnitude(), 0x7fef_ffff_ffff_ffff);
    }
    lemma_pow2_adds(1022, 52);
    lemma_pow2_adds(2045, 53);
    lemma_pow2_adds(1074, 1024);
    lemma_pow2_strictly_increases(1024, 1074);
    lemma2_to64();
    lemma2_to64_rest();
    let one = magnitude_value(Float64(UNIT).magnitude());
    let num = one * u;
    assert(one == u) by (nonlinear_arith)
        requires
            one == 0x10_0000_0000_0000 * pow2(1022),
            u == pow2(1022) * pow2(52),
            pow2(52) == 0x10_0000_0000_0000,
    ;
    let top = pow2(2045) as int;
    assert(v < 0x20_0000_0000_0000 * top) by (nonlinear_arith)
        requires
            v <= 0x1f_ffff_ffff_ffff * top,
            top > 0,
    ;
    assert(0x20_0000_0000_0000 * top == u * pow2(1024)) by (nonlinear_arith)
        requires
            pow2(2098) == top * 0x20_0000_0000_0000,
            pow2(2098) == u * pow2(1024),
    ;
    assert(u * pow2(1024) < num) by (nonlinear_arith)
        requires
            num == u * u,
            pow2(1024) < u,
            u > 0,
    ;
    // So the quotient is at least 1 unit, which rounds to itself.
    lemma_rounding_exists(num, v);
    crate::float64::lemma_step(0, 1);
    lemma_exact_value_rounds_to_itself(1, 1);
    assert(1 * v <= num * 1);
    lemma_rounding_is_monotone(1, 1, 1, num, v, rounded(num, v));
}

/// A length holds no fewer of what is no longer.
proof fn lemma_more_of_smaller(length: Float64, a: Float64, b: Float64)
    requires
        length.finite(),
        !length.negative(),
        !a.negative(),
        !b.negative(),
        b.at_most(a),
        Float64(0).below(b),
    ensures
        length.quotient(a).at_most(length.quotient(b)),
{
    let u = pow2(1074) as int;
    lemma_pow2_pos(1074);
    crate::float64::lemma_step(0, 0);
    lemma_magnitude_value_increases(0, b.magnitude());
    if b.magnitude() < a.magnitude() {
        lemma_magnitude_value_increases(b.magnitude(), a.magnitude());
    }
    if length.magnitude() > 0 {
        lemma_magnitude_value_increases(0, length.magnitude());
    }
    let num = magnitude_value(length.magnitude()) * u;
    let v = magnitude_value(a.magnitude());
    let w = magnitude_value(b.magnitude());
    assert(num >= 0) by (nonlinear_arith)
        requires
            num == magnitude_value(length.magnitude()) * u,
            magnitude_value(length.magnitude()) >= 0,
            u > 0,
    ;
    lemma_rounding_exists(num, w);
    if !a.infinite() {
        lemma_rounding_exists(num, v);
        assert(num * w <= num * v) by (nonlinear_arith)
            requires
                w <= v,
                num >= 0,
        ;
        lemma_rounding_is_monotone(num, v, rounded(num, v), num, w, rounded(num, w));
    }
}

} // verus!
