//! Facts about arithmetic with 0 and 1 and about numbers that are not negative.

use crate::float32::{magnitude_value, rounded, Float32};
use vstd::arithmetic::mul::*;
use vstd::arithmetic::power2::*;
use vstd::prelude::*;

verus! {

impl Float32 {
    /// A finite number.
    pub open spec fn finite(self) -> bool {
        !self.nan() && !self.infinite()
    }

    /// A finite number whose sign bit is not set.
    pub open spec fn plain(self) -> bool {
        self.finite() && !self.negative()
    }

    /// A number, possibly infinite, that is not below zero.
    pub open spec fn not_below_zero(self) -> bool {
        !self.nan() && (self.negative() ==> self.zero())
    }
}

/// Multiplying by 1 changes nothing.
pub proof fn lemma_one_times(x: Float32)
    requires
        x.finite(),
    ensures
        Float32(0x3f80_0000).product(x) == x,
{
    let u = pow2(149) as int;
    lemma_pow2_pos(149);
    super::lemma_value_of_one();
    super::lemma_exact_value_rounds_to_itself(x.magnitude(), u);
    lemma_mul_is_commutative(u, magnitude_value(x.magnitude()));
}

/// The order of two factors does not matter.
pub proof fn lemma_product_commutes(x: Float32, y: Float32)
    ensures
        x.product(y) == y.product(x),
{
    lemma_mul_is_commutative(magnitude_value(x.magnitude()), magnitude_value(y.magnitude()));
}

/// Multiplying by 0 gives 0 with the sign of the other factor.
pub proof fn lemma_zero_times(x: Float32)
    requires
        x.finite(),
    ensures
        Float32(0).product(x) == Float32::with_sign(x.negative(), 0),
        x.product(Float32(0)) == Float32::with_sign(x.negative(), 0),
{
    let u = pow2(149) as int;
    lemma_pow2_pos(149);
    super::lemma_step(0, 0);
    super::lemma_exact_value_rounds_to_itself(0, u);
    let v = magnitude_value(x.magnitude());
    assert(0 * v == 0 && v * 0 == 0 && 0 * u == 0);
}

/// Adding a zero, in either order, changes a number that is not zero itself nor negative in
/// no way.
pub proof fn lemma_plus_zero(x: Float32, zero: Float32)
    requires
        x.plain() || (x.finite() && !x.zero()),
        zero.zero(),
    ensures
        x.sum(zero) == x,
        !zero.negative() || !x.zero() ==> zero.sum(x) == x,
{
    super::lemma_step(0, 0);
    let m = x.magnitude();
    let v = magnitude_value(m);
    super::lemma_exact_value_rounds_to_itself(m, 1);
    assert(v * 1 == v);
    if m > 0 {
        super::lemma_magnitude_value_increases(0, m);
    }
}

/// `1 - 0` is 1 and `1 - 1` is 0.
pub proof fn lemma_one_minus()
    ensures
        Float32(0x3f80_0000).difference(Float32(0)) == Float32(0x3f80_0000),
        Float32(0x3f80_0000).difference(Float32(0x3f80_0000)) == Float32(0),
{
    lemma_plus_zero(Float32(0x3f80_0000), Float32(0x8000_0000));
}

/// A magnitude that `rounded` gives is one.
pub proof fn lemma_rounded_range(num: int, den: int)
    requires
        0 <= num,
        den > 0,
    ensures
        0 <= rounded(num, den) <= 0x7f80_0000,
{
    super::lemma_rounding_exists(num, den);
}

proof fn lemma_value_not_negative(m: int)
    requires
        0 <= m,
    ensures
        magnitude_value(m) >= 0,
        m > 0 ==> magnitude_value(m) > 0,
{
    super::lemma_step(0, 0);
    if m > 0 {
        super::lemma_magnitude_value_increases(0, m);
    }
}

/// The product of numbers that are not below zero is such a number, unless it is that of an
/// infinity and a zero.
pub proof fn lemma_product_not_below_zero(x: Float32, y: Float32)
    requires
        x.not_below_zero(),
        y.not_below_zero(),
        x.finite() || y.finite(),
        x.infinite() ==> !y.zero(),
        y.infinite() ==> !x.zero(),
    ensures
        x.product(y).not_below_zero(),
{
    let u = pow2(149) as int;
    lemma_pow2_pos(149);
    let a = magnitude_value(x.magnitude());
    let b = magnitude_value(y.magnitude());
    lemma_value_not_negative(x.magnitude());
    lemma_value_not_negative(y.magnitude());
    assert(a * b >= 0) by (nonlinear_arith)
        requires
            a >= 0,
            b >= 0,
    ;
    lemma_rounded_range(a * b, u);
    if x.zero() || y.zero() {
        super::lemma_step(0, 0);
        assert(a * b == 0) by (nonlinear_arith)
            requires
                a == 0 || b == 0,
        ;
        super::lemma_exact_value_rounds_to_itself(0, u);
        assert(0 * u == 0);
    }
}

/// The sum of numbers that are not below zero is such a number.
pub proof fn lemma_sum_not_below_zero(x: Float32, y: Float32)
    requires
        x.not_below_zero(),
        y.not_below_zero(),
    ensures
        x.sum(y).not_below_zero(),
{
    lemma_value_not_negative(x.magnitude());
    lemma_value_not_negative(y.magnitude());
    super::lemma_step(0, 0);
    let v = x.value() + y.value();
    if v > 0 {
        lemma_rounded_range(v, 1);
    }
}

/// `1 - x`, for `x` in 0 to 1, is in 0 to 1.
pub proof fn lemma_one_minus_fraction(x: Float32)
    requires
        x.plain(),
        x.at_most(Float32(0x3f80_0000)),
    ensures
        Float32(0x3f80_0000).difference(x).plain(),
        Float32(0x3f80_0000).difference(x).at_most(Float32(0x3f80_0000)),
{
    let one = magnitude_value(0x3f80_0000);
    let a = magnitude_value(x.magnitude());
    lemma_value_not_negative(x.magnitude());
    if x.magnitude() < 0x3f80_0000 {
        super::lemma_magnitude_value_increases(x.magnitude(), 0x3f80_0000);
    }
    let v = one - a;
    assert(x.negated().magnitude() == x.magnitude());
    if v > 0 {
        super::lemma_rounding_exists(v, 1);
        super::lemma_exact_value_rounds_to_itself(0x3f80_0000, 1);
        assert(one * 1 == one && v * 1 <= one * 1);
        super::lemma_rounding_is_monotone(v, 1, rounded(v, 1), one * 1, 1, 0x3f80_0000);
    }
}

/// Doubling a number in 0.001 to 1 gives one in 0.001 to 2.
pub proof fn lemma_doubled(x: Float32)
    requires
        x.plain(),
        Float32(0x3a83_126f).at_most(x),
        x.at_most(Float32(0x3f80_0000)),
    ensures
        Float32(0x4000_0000).product(x).plain(),
        Float32(0x3a83_126f).at_most(Float32(0x4000_0000).product(x)),
        Float32(0x4000_0000).product(x).at_most(Float32(0x4000_0000)),
{
    let u = pow2(149) as int;
    lemma_pow2_pos(149);
    super::lemma_value_of_one();
    lemma_value_of_two();
    let a = magnitude_value(x.magnitude());
    lemma_value_not_negative(x.magnitude());
    if x.magnitude() < 0x3f80_0000 {
        super::lemma_magnitude_value_increases(x.magnitude(), 0x3f80_0000);
    }
    let num = magnitude_value(0x4000_0000) * a;
    assert(num == 2 * (a * u)) by (nonlinear_arith)
        requires
            num == (2 * u) * a,
    ;
    assert(a * u >= 0) by (nonlinear_arith)
        requires
            a >= 0,
            u > 0,
    ;
    super::lemma_rounding_exists(num, u);
    let r = rounded(num, u);
    // At least x.
    super::lemma_exact_value_rounds_to_itself(x.magnitude(), u);
    assert((a * u) * u <= num * u) by (nonlinear_arith)
        requires
            a * u <= num,
            u > 0,
    ;
    super::lemma_rounding_is_monotone(a * u, u, x.magnitude(), num, u, r);
    // At most two.
    super::lemma_exact_value_rounds_to_itself(0x4000_0000, u);
    let two = magnitude_value(0x4000_0000) * u;
    assert(num <= two) by (nonlinear_arith)
        requires
            num == 2 * (a * u),
            two == (2 * u) * u,
            a <= u,
            u > 0,
    ;
    assert(num * u <= two * u) by (nonlinear_arith)
        requires
            num <= two,
            u > 0,
    ;
    super::lemma_rounding_is_monotone(num, u, r, two, u, 0x4000_0000);
}

proof fn lemma_value_of_two()
    ensures
        magnitude_value(0x4000_0000) == 2 * pow2(149),
{
    lemma2_to64();
    lemma_pow2_adds(23, 127);
    lemma_pow2_unfold(150);
}

proof fn lemma_value_of_thousandth()
    ensures
        1024 * magnitude_value(0x3a83_126f) >= pow2(149),
{
    // The smallest number of the same exponent is 2^-10.
    super::lemma_step(116, 0x80_0000);
    assert(116 * 0x80_0000 + 0x80_0000 == 0x3a80_0000);
    lemma2_to64();
    lemma_pow2_adds(23, 116);
    lemma_pow2_adds(10, 139);
    super::lemma_magnitude_value_increases(0x3a80_0000, 0x3a83_126f);
}

proof fn lemma_value_of_1024()
    ensures
        magnitude_value(0x4480_0000) == 1024 * pow2(149),
{
    lemma2_to64();
    super::lemma_step(136, 0x80_0000);
    assert(136 * 0x80_0000 + 0x80_0000 == 0x4480_0000);
    lemma_pow2_adds(23, 136);
    lemma_pow2_adds(10, 149);
}

/// A number in 0 to 1 divided by one from 0.001 on is at most 1024.
pub proof fn lemma_bounded_quotient(x: Float32, y: Float32)
    requires
        x.plain(),
        x.at_most(Float32(0x3f80_0000)),
        y.plain(),
        Float32(0x3a83_126f).at_most(y),
    ensures
        x.quotient(y).plain(),
        x.quotient(y).at_most(Float32(0x4480_0000)),
{
    let u = pow2(149) as int;
    lemma_pow2_pos(149);
    super::lemma_value_of_one();
    lemma_value_of_thousandth();
    lemma_value_of_1024();
    let a = magnitude_value(x.magnitude());
    let b = magnitude_value(y.magnitude());
    lemma_value_not_negative(x.magnitude());
    lemma_value_not_negative(y.magnitude());
    if x.magnitude() < 0x3f80_0000 {
        super::lemma_magnitude_value_increases(x.magnitude(), 0x3f80_0000);
    }
    if 0x3a83_126f < y.magnitude() {
        super::lemma_magnitude_value_increases(0x3a83_126f, y.magnitude());
    }
    let num = a * u;
    assert(num >= 0) by (nonlinear_arith)
        requires
            num == a * u,
            a >= 0,
            u > 0,
    ;
    super::lemma_rounding_exists(num, b);
    let r = rounded(num, b);
    super::lemma_exact_value_rounds_to_itself(0x4480_0000, b);
    let top = magnitude_value(0x4480_0000) * b;
    assert(num <= top) by (nonlinear_arith)
        requires
            num == a * u,
            top == (1024 * u) * b,
            a <= u,
            1024 * b >= u,
            u > 0,
            a >= 0,
    ;
    assert(num * b <= top * b) by (nonlinear_arith)
        requires
            num <= top,
            b > 0,
    ;
    super::lemma_rounding_is_monotone(num, b, r, top, b, 0x4480_0000);
}

} // verus!
