//! How far rounding can lead away from the exact result.

use crate::float64::{magnitude_value, rounded, rounds_to, scale_of, Float64};
use vstd::arithmetic::power2::*;
use vstd::prelude::*;

verus! {

/// The distance of two numbers.
pub open spec fn distance(a: int, b: int) -> int {
    if a < b {
        b - a
    } else {
        a - b
    }
}

/// The size of a number.
pub open spec fn size(a: int) -> int {
    distance(a, 0)
}

/// `2^52`: a rounding changes a number by at most one part in this many.
pub open spec fn precision() -> int {
    0x10_0000_0000_0000
}

impl Float64 {
    /// A finite number.
    pub open spec fn finite(self) -> bool {
        !self.nan() && !self.infinite()
    }

    /// A finite number with a full significand.
    pub open spec fn normal(self) -> bool {
        self.finite() && self.magnitude() >= 0x10_0000_0000_0000
    }
}

/// The step below a magnitude of scale `s` is at most `2^s`.
proof fn lemma_step_below_at_most(s: int, n: int)
    requires
        0 <= s,
        0x10_0000_0000_0000 <= n < 0x20_0000_0000_0000,
    ensures
        magnitude_value(s * 0x10_0000_0000_0000 + n) - magnitude_value(
            s * 0x10_0000_0000_0000 + n - 1,
        ) <= pow2(s as nat),
{
    super::lemma_step(s, n);
    lemma_pow2_pos(s as nat);
    let unit = pow2(s as nat) as int;
    if n > 0x10_0000_0000_0000 {
        super::lemma_step(s, n - 1);
        assert(n * unit - (n - 1) * unit == unit) by (nonlinear_arith);
    } else if s > 0 {
        super::lemma_step(s - 1, 0x1f_ffff_ffff_ffff);
        lemma_pow2_unfold(s as nat);
        let half = pow2((s - 1) as nat) as int;
        assert(n * unit - 0x1f_ffff_ffff_ffff * half == half) by (nonlinear_arith)
            requires
                n == 0x10_0000_0000_0000,
                unit == 2 * half,
        ;
    } else {
        super::lemma_step(0, n - 1);
        assert(n * unit - (n - 1) * unit == unit) by (nonlinear_arith);
    }
}

/// A value that rounds to a number with a full significand is changed by at most one part in
/// `2^52`.
pub proof fn lemma_rounding_error(num: int, den: int, r: int)
    requires
        0 <= num,
        den > 0,
        rounds_to(num, den, r),
        0x10_0000_0000_0000 <= r < 0x7ff0_0000_0000_0000,
    ensures
        precision() * distance(magnitude_value(r) * den, num) <= num,
{
    let s = scale_of(r);
    let n = r - s * 0x10_0000_0000_0000;
    let unit = pow2(s as nat) as int;
    lemma_pow2_pos(s as nat);
    super::lemma_step(s, n);
    lemma_step_below_at_most(s, n);
    let v = magnitude_value(r);
    let below = magnitude_value(r - 1);
    let w = unit * den;
    assert(w > 0) by (nonlinear_arith)
        requires
            w == unit * den,
            unit > 0,
            den > 0,
    ;
    assert((n + 1) * unit == v + unit) by (nonlinear_arith)
        requires
            v == n * unit,
    ;
    assert((v + (v + unit)) * den == 2 * (v * den) + w) by (nonlinear_arith)
        requires
            w == unit * den,
    ;
    assert((below + v) * den >= 2 * (v * den) - w) by (nonlinear_arith)
        requires
            v - below <= unit,
            w == unit * den,
            den > 0,
    ;
    let x = v * den;
    assert(x == n * w) by (nonlinear_arith)
        requires
            x == v * den,
            v == n * unit,
            w == unit * den,
    ;
    assert(n * w >= 0x10_0000_0000_0000 * w) by (nonlinear_arith)
        requires
            n >= 0x10_0000_0000_0000,
            w > 0,
    ;
    assert(2 * distance(x, num) <= w);
}

/// A whole value below `2^53` rounds to itself.
proof fn lemma_small_whole_is_exact(v: int)
    requires
        0 <= v < 0x20_0000_0000_0000,
    ensures
        rounded(v, 1) == v,
        magnitude_value(v) == v,
{
    lemma2_to64();
    super::lemma_step(0, v);
    assert(v * 1 == v);
    super::lemma_exact_value_rounds_to_itself(v, 1);
}

/// Rounding a whole value changes it by at most one part in `2^52`.
proof fn lemma_whole_error(m: int)
    requires
        0 <= m,
        rounded(m, 1) < 0x7ff0_0000_0000_0000,
    ensures
        0 <= rounded(m, 1),
        precision() * distance(magnitude_value(rounded(m, 1)), m) <= m,
{
    super::lemma_rounding_exists(m, 1);
    let r = rounded(m, 1);
    if m < 0x20_0000_0000_0000 {
        lemma_small_whole_is_exact(m);
    } else {
        assert(r >= 0x10_0000_0000_0000) by {
            lemma_small_whole_is_exact(0x10_0000_0000_0000);
            super::lemma_rounding_exists(0x10_0000_0000_0000, 1);
            super::lemma_rounding_is_monotone(
                0x10_0000_0000_0000,
                1,
                0x10_0000_0000_0000,
                m,
                1,
                r,
            );
        }
        lemma_rounding_error(m, 1, r);
        assert(magnitude_value(r) * 1 == magnitude_value(r));
    }
}

/// Adding changes the exact sum by at most one part in `2^52`.
pub proof fn lemma_sum_error(x: Float64, y: Float64)
    requires
        x.finite(),
        y.finite(),
        x.sum(y).finite(),
    ensures
        precision() * distance(x.sum(y).value(), x.value() + y.value()) <= size(
            x.value() + y.value(),
        ),
{
    let v = x.value() + y.value();
    let m = size(v);
    super::lemma_step(0, 0);
    if v != 0 {
        super::lemma_rounding_exists(m, 1);
        let r = rounded(m, 1);
        lemma_signed_value(v < 0, r);
        lemma_whole_error(m);
    }
}

/// Subtracting changes the exact difference by at most one part in `2^52`.
pub proof fn lemma_difference_error(x: Float64, y: Float64)
    requires
        x.finite(),
        y.finite(),
        x.difference(y).finite(),
    ensures
        precision() * distance(x.difference(y).value(), x.value() - y.value()) <= size(
            x.value() - y.value(),
        ),
{
    assert(y.negated().value() == -y.value()) by {
        super::lemma_step(0, 0);
    }
    lemma_sum_error(x, y.negated());
}

proof fn lemma_value_has_size(x: Float64)
    ensures
        size(x.value()) == magnitude_value(x.magnitude()),
        magnitude_value(x.magnitude()) >= 0,
        x.magnitude() > 0 ==> magnitude_value(x.magnitude()) > 0,
{
    super::lemma_step(0, 0);
    if x.magnitude() > 0 {
        super::lemma_magnitude_value_increases(0, x.magnitude());
    }
}

proof fn lemma_signed_value(negative: bool, m: int)
    requires
        0 <= m <= 0x7ff0_0000_0000_0000,
    ensures
        Float64::with_sign(negative, m).magnitude() == m,
        Float64::with_sign(negative, m).negative() == negative,
{
}

/// Multiplying changes the exact product by at most one part in `2^52`, where the result has
/// a full significand. Values are in units of `2^-1074`.
pub proof fn lemma_product_error(x: Float64, y: Float64)
    requires
        x.finite(),
        y.finite(),
        x.product(y).normal(),
    ensures
        precision() * distance(x.product(y).value() * pow2(1074), x.value() * y.value()) <= size(
            x.value() * y.value(),
        ),
{
    let a = magnitude_value(x.magnitude());
    let b = magnitude_value(y.magnitude());
    let u = pow2(1074) as int;
    lemma_pow2_pos(1074);
    lemma_value_has_size(x);
    lemma_value_has_size(y);
    let num = a * b;
    assert(num >= 0) by (nonlinear_arith)
        requires
            num == a * b,
            a >= 0,
            b >= 0,
    ;
    super::lemma_rounding_exists(num, u);
    let r = rounded(num, u);
    let negative = x.negative() != y.negative();
    if r < 0x7ff0_0000_0000_0000 {
        lemma_signed_value(negative, r);
        lemma_rounding_error(num, u, r);
        let p = x.value() * y.value();
        let z = x.product(y).value();
        let m = magnitude_value(r);
        lemma_value_has_size(x.product(y));
        if negative {
            assert(p == -num) by (nonlinear_arith)
                requires
                    p == x.value() * y.value(),
                    num == a * b,
                    (x.value() == a && y.value() == -b) || (x.value() == -a && y.value() == b),
            ;
            assert(z * u == -(m * u)) by (nonlinear_arith)
                requires
                    z == -m,
            ;
        } else {
            assert(p == num) by (nonlinear_arith)
                requires
                    p == x.value() * y.value(),
                    num == a * b,
                    (x.value() == a && y.value() == b) || (x.value() == -a && y.value() == -b),
            ;
        }
    }
}

/// Dividing changes the exact quotient by at most one part in `2^52`, where the result has a
/// full significand. Values are in units of `2^-1074`.
pub proof fn lemma_quotient_error(x: Float64, y: Float64)
    requires
        x.finite(),
        y.finite(),
        !y.zero(),
        x.quotient(y).normal(),
    ensures
        precision() * distance(x.quotient(y).value() * y.value(), x.value() * pow2(1074)) <= size(
            x.value() * pow2(1074),
        ),
{
    let a = magnitude_value(x.magnitude());
    let b = magnitude_value(y.magnitude());
    let u = pow2(1074) as int;
    lemma_pow2_pos(1074);
    lemma_value_has_size(x);
    lemma_value_has_size(y);
    let num = a * u;
    assert(num >= 0) by (nonlinear_arith)
        requires
            num == a * u,
            a >= 0,
            u > 0,
    ;
    super::lemma_rounding_exists(num, b);
    let r = rounded(num, b);
    let negative = x.negative() != y.negative();
    if r < 0x7ff0_0000_0000_0000 {
        lemma_signed_value(negative, r);
        lemma_rounding_error(num, b, r);
        let m = magnitude_value(r);
        let z = x.quotient(y).value();
        lemma_value_has_size(x.quotient(y));
        let left = z * y.value();
        let right = x.value() * u;
        if x.negative() {
            assert(right == -num) by (nonlinear_arith)
                requires
                    right == x.value() * u,
                    x.value() == -a,
                    num == a * u,
            ;
            assert(left == -(m * b)) by (nonlinear_arith)
                requires
                    left == z * y.value(),
                    (z == m && y.value() == -b) || (z == -m && y.value() == b),
            ;
        } else {
            assert(right == num);
            assert(left == m * b) by (nonlinear_arith)
                requires
                    left == z * y.value(),
                    (z == m && y.value() == b) || (z == -m && y.value() == -b),
            ;
        }
    }
}

/// A rounding changes a value by at most one part in `2^52` and one unit.
proof fn lemma_rounded_near(num: int, den: int)
    requires
        0 <= num,
        den > 0,
        rounded(num, den) < 0x7ff0_0000_0000_0000,
    ensures
        0 <= rounded(num, den),
        precision() * distance(magnitude_value(rounded(num, den)) * den, num) <= num + precision()
            * den,
{
    super::lemma_rounding_exists(num, den);
    let r = rounded(num, den);
    if r >= 0x10_0000_0000_0000 {
        lemma_rounding_error(num, den, r);
    } else {
        lemma2_to64();
        super::lemma_step(0, r);
        if r > 0 {
            super::lemma_step(0, r - 1);
        }
        assert(magnitude_value(r) == r && magnitude_value(r + 1) == r + 1);
        assert((r + (r + 1)) * den == 2 * (r * den) + den) by (nonlinear_arith);
        assert(((r - 1) + r) * den == 2 * (r * den) - den) by (nonlinear_arith);
        if r == 0 {
            assert(0 * den == 0);
        }
        assert(distance(r * den, num) <= den);
    }
}

/// Dividing changes the size of the exact quotient by at most one part in `2^52` and one unit,
/// told by the product with the divisor.
pub proof fn lemma_quotient_size_error(x: Float64, y: Float64)
    requires
        x.finite(),
        y.finite(),
        !y.zero(),
        x.quotient(y).finite(),
    ensures
        precision() * distance(
            size(x.quotient(y).value()) * size(y.value()),
            size(x.value()) * pow2(1074),
        ) <= size(x.value()) * pow2(1074) + precision() * size(y.value()),
        x.quotient(y).negative() == (x.negative() != y.negative()),
{
    let a = magnitude_value(x.magnitude());
    let b = magnitude_value(y.magnitude());
    let u = pow2(1074) as int;
    lemma_pow2_pos(1074);
    lemma_value_has_size(x);
    lemma_value_has_size(y);
    lemma_value_has_size(x.quotient(y));
    let num = a * u;
    assert(num >= 0) by (nonlinear_arith)
        requires
            num == a * u,
            a >= 0,
            u > 0,
    ;
    super::lemma_rounding_exists(num, b);
    let r = rounded(num, b);
    lemma_signed_value(x.negative() != y.negative(), r);
    lemma_rounded_near(num, b);
}

/// Multiplying changes the size of the exact product by at most one part in `2^52` and one unit.
pub proof fn lemma_product_size_error(x: Float64, y: Float64)
    requires
        x.finite(),
        y.finite(),
        x.product(y).finite(),
    ensures
        precision() * distance(
            size(x.product(y).value()) * pow2(1074),
            size(x.value()) * size(y.value()),
        ) <= size(x.value()) * size(y.value()) + precision() * pow2(1074),
        x.product(y).negative() == (x.negative() != y.negative()),
{
    let a = magnitude_value(x.magnitude());
    let b = magnitude_value(y.magnitude());
    let u = pow2(1074) as int;
    lemma_pow2_pos(1074);
    lemma_value_has_size(x);
    lemma_value_has_size(y);
    lemma_value_has_size(x.product(y));
    let num = a * b;
    assert(num >= 0) by (nonlinear_arith)
        requires
            num == a * b,
            a >= 0,
            b >= 0,
    ;
    super::lemma_rounding_exists(num, u);
    let r = rounded(num, u);
    lemma_signed_value(x.negative() != y.negative(), r);
    lemma_rounded_near(num, u);
}

/// The same with signs: the product is off the exact one by at most one part in `2^52` of it and
/// one unit.
pub proof fn lemma_product_near(x: Float64, y: Float64)
    requires
        x.finite(),
        y.finite(),
        x.product(y).finite(),
    ensures
        precision() * distance(x.product(y).value() * pow2(1074), x.value() * y.value()) <= size(
            x.value() * y.value(),
        ) + precision() * pow2(1074),
{
    let u = pow2(1074) as int;
    lemma_pow2_pos(1074);
    lemma_product_size_error(x, y);
    lemma_value_has_size(x);
    lemma_value_has_size(y);
    lemma_value_has_size(x.product(y));
    let a = size(x.value());
    let b = size(y.value());
    let m = size(x.product(y).value());
    let p = x.value() * y.value();
    let z = x.product(y).value() * u;
    let num = a * b;
    let mu = m * u;
    assert(num >= 0 && mu >= 0) by (nonlinear_arith)
        requires
            num == a * b,
            mu == m * u,
            a >= 0,
            b >= 0,
            m >= 0,
            u > 0,
    ;
    if x.negative() != y.negative() {
        assert(p == -num) by (nonlinear_arith)
            requires
                p == x.value() * y.value(),
                num == a * b,
                (x.value() == a && y.value() == -b) || (x.value() == -a && y.value() == b),
        ;
        assert(z == -mu) by (nonlinear_arith)
            requires
                z == x.product(y).value() * u,
                x.product(y).value() == -m,
                mu == m * u,
        ;
    } else {
        assert(p == num) by (nonlinear_arith)
            requires
                p == x.value() * y.value(),
                num == a * b,
                (x.value() == a && y.value() == b) || (x.value() == -a && y.value() == -b),
        ;
        assert(z == mu);
    }
}

/// A quotient by a positive number, with its sign: told by the product with the divisor, it is
/// off by at most one part in `2^52` and one unit.
pub proof fn lemma_quotient_near(x: Float64, y: Float64)
    requires
        x.finite(),
        y.finite(),
        y.value() > 0,
        !y.negative(),
        x.quotient(y).finite(),
    ensures
        precision() * distance(x.quotient(y).value() * y.value(), x.value() * pow2(1074)) <= size(
            x.value(),
        ) * pow2(1074) + precision() * y.value(),
{
    let u = pow2(1074) as int;
    lemma_pow2_pos(1074);
    super::lemma_step(0, 0);
    lemma_quotient_size_error(x, y);
    lemma_value_has_size(x);
    lemma_value_has_size(x.quotient(y));
    let q = x.quotient(y).value();
    let m = size(q);
    let b = y.value();
    if x.negative() {
        assert(q * b == -(m * b)) by (nonlinear_arith)
            requires
                q == -m,
        ;
        assert(x.value() * u == -(size(x.value()) * u)) by (nonlinear_arith)
            requires
                x.value() == -size(x.value()),
        ;
    }
}

proof fn lemma_root_arithmetic(v: int, unit: int, low: int, high: int, num: int)
    requires
        v > 0 && unit > 0,
        precision() * unit <= v,
        2 * v - unit <= low <= 2 * v,
        high == 2 * v + unit,
        low * low <= 4 * num <= high * high,
    ensures
        precision() * (v * v) <= (precision() + 2) * num,
        precision() * num <= (precision() + 2) * (v * v),
{
    let e = precision();
    let vv = v * v;
    let vu = v * unit;
    let uu = unit * unit;
    assert(e * vu <= vv && uu <= vu && vu > 0) by (nonlinear_arith)
        requires
            vv == v * v,
            vu == v * unit,
            uu == unit * unit,
            e * unit <= v,
            unit <= v,
            v > 0,
            unit > 0,
    ;
    let least = 2 * v - unit;
    assert(least * least <= low * low) by (nonlinear_arith)
        requires
            0 <= least <= low,
    ;
    assert(least * least == 4 * vv - 4 * vu + uu && high * high == 4 * vv + 4 * vu + uu)
        by (nonlinear_arith)
        requires
            least == 2 * v - unit,
            high == 2 * v + unit,
            vv == v * v,
            vu == v * unit,
            uu == unit * unit,
    ;
}

/// Taking a root changes it so little that its square is alike what it is the root of: up to two
/// parts in `2^52`, where the root has a full significand.
pub proof fn lemma_root_error(x: Float64)
    requires
        x.finite(),
        !x.negative(),
        x.value() > 0,
        x.root().normal(),
    ensures
        precision() * (x.root().value() * x.root().value()) <= (precision() + 2) * (x.value()
            * pow2(1074)),
        precision() * (x.value() * pow2(1074)) <= (precision() + 2) * (x.root().value()
            * x.root().value()),
        x.root().value() > 0,
{
    let u = pow2(1074) as int;
    lemma_pow2_pos(1074);
    let num = magnitude_value(x.magnitude()) * u;
    super::lemma_step(0, 0);
    assert(num >= 0) by (nonlinear_arith)
        requires
            num == x.value() * u,
            x.value() > 0,
            u > 0,
    ;
    crate::float64::bounds::lemma_root_exists(num);
    let r = crate::float64::root::rooted(num);
    lemma_signed_value(false, r);
    let s = scale_of(r);
    let n = r - s * 0x10_0000_0000_0000;
    let unit = pow2(s as nat) as int;
    lemma_pow2_pos(s as nat);
    super::lemma_step(s, n);
    lemma_step_below_at_most(s, n);
    super::lemma_magnitude_value_increases(r - 1, r);
    let v = magnitude_value(r);
    assert(precision() * unit <= v) by (nonlinear_arith)
        requires
            v == n * unit,
            n >= precision(),
            unit > 0,
    ;
    assert((n + 1) * unit == v + unit) by (nonlinear_arith)
        requires
            v == n * unit,
    ;
    lemma_root_arithmetic(v, unit, magnitude_value(r - 1) + v, v + magnitude_value(r + 1), num);
}

} // verus!
