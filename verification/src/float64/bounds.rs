//! Bounds by powers of two: how large or small the result of an operation can be.

use crate::float64::error::size;
use crate::float64::root::{root_rounds_to, rooted};
use crate::float64::{magnitude_value, rounded, Float64};
use vstd::arithmetic::power2::*;
use vstd::prelude::*;

verus! {

/// The value of `2^k`, in units of `2^-1074`.
pub open spec fn power(k: int) -> int {
    pow2((1074 + k) as nat) as int
}

/// The magnitude of `2^k`, for a `k` that has one with a full significand.
pub open spec fn power_magnitude(k: int) -> int {
    (1023 + k) * 0x10_0000_0000_0000
}

/// `2^k` is a finite number with a full significand.
pub open spec fn has_magnitude(k: int) -> bool {
    -1022 <= k <= 1023
}

/// A finite number of at most `2^k` in size.
pub open spec fn within(x: Float64, k: int) -> bool {
    x.magnitude() <= power_magnitude(k)
}

/// A finite number of at least `2^k` in size.
pub open spec fn beyond(x: Float64, k: int) -> bool {
    x.finite() && power_magnitude(k) <= x.magnitude()
}

/// The magnitude of a power has the value of the power.
pub proof fn lemma_power_has_magnitude(k: int)
    requires
        has_magnitude(k),
    ensures
        magnitude_value(power_magnitude(k)) == power(k),
        0 < power_magnitude(k) < 0x7ff0_0000_0000_0000,
        power(k) > 0,
{
    let s = k + 1022;
    super::lemma_step(s, 0x10_0000_0000_0000);
    lemma2_to64_rest();
    lemma_pow2_adds(52, s as nat);
    lemma_pow2_pos((1074 + k) as nat);
    assert(s * 0x10_0000_0000_0000 + 0x10_0000_0000_0000 == power_magnitude(k));
}

/// Powers multiply by adding their exponents.
pub proof fn lemma_power_of_sum(a: int, b: int)
    requires
        -1074 <= a,
        -1074 <= b,
        -1074 <= a + b,
    ensures
        power(a) * power(b) == power(a + b) * power(0),
{
    lemma_pow2_adds((1074 + a) as nat, (1074 + b) as nat);
    lemma_pow2_adds((1074 + (a + b)) as nat, 1074);
}

/// The next power is the double.
pub proof fn lemma_next_power(k: int)
    requires
        -1074 <= k,
    ensures
        power(k + 1) == 2 * power(k),
        power(k) > 0,
{
    lemma_pow2_unfold((1074 + k + 1) as nat);
    lemma_pow2_pos((1074 + k) as nat);
}

/// A number within a power is finite, and so is its value.
pub proof fn lemma_within(x: Float64, k: int)
    requires
        has_magnitude(k),
        x.finite(),
    ensures
        within(x, k) <==> size(x.value()) <= power(k),
        beyond(x, k) <==> size(x.value()) >= power(k),
        beyond(x, k) ==> x.normal() && !x.zero(),
{
    lemma_power_has_magnitude(k);
    super::lemma_step(0, 0);
    if x.magnitude() > 0 {
        super::lemma_magnitude_value_increases(0, x.magnitude());
    }
    if x.magnitude() < power_magnitude(k) {
        super::lemma_magnitude_value_increases(x.magnitude(), power_magnitude(k));
    }
    if x.magnitude() > power_magnitude(k) {
        super::lemma_magnitude_value_increases(power_magnitude(k), x.magnitude());
    }
    assert(power_magnitude(k) >= 0x10_0000_0000_0000);
}

pub(crate) proof fn lemma_rounded_within(num: int, den: int, k: int)
    requires
        has_magnitude(k),
        0 <= num <= power(k) * den,
        den > 0,
    ensures
        0 <= rounded(num, den) <= power_magnitude(k) < 0x7ff0_0000_0000_0000,
{
    lemma_power_has_magnitude(k);
    let m = power_magnitude(k);
    super::lemma_rounding_exists(num, den);
    super::lemma_exact_value_rounds_to_itself(m, den);
    let top = power(k) * den;
    assert(num * den <= top * den) by (nonlinear_arith)
        requires
            num <= top,
            den > 0,
    ;
    super::lemma_rounding_is_monotone(num, den, rounded(num, den), top, den, m);
}

proof fn lemma_rounded_beyond(num: int, den: int, k: int)
    requires
        has_magnitude(k),
        0 <= power(k) * den <= num,
        den > 0,
    ensures
        power_magnitude(k) <= rounded(num, den) <= 0x7ff0_0000_0000_0000,
{
    lemma_power_has_magnitude(k);
    let m = power_magnitude(k);
    super::lemma_rounding_exists(num, den);
    super::lemma_exact_value_rounds_to_itself(m, den);
    let low = power(k) * den;
    assert(low * den <= num * den) by (nonlinear_arith)
        requires
            low <= num,
            den > 0,
    ;
    super::lemma_rounding_is_monotone(low, den, m, num, den, rounded(num, den));
}

/// A sum is at most twice as large as the larger of its terms.
pub proof fn lemma_sum_within(x: Float64, y: Float64, k: int)
    requires
        has_magnitude(k),
        has_magnitude(k + 1),
        within(x, k),
        within(y, k),
    ensures
        within(x.sum(y), k + 1),
        x.sum(y).finite(),
{
    lemma_power_has_magnitude(k);
    lemma_power_has_magnitude(k + 1);
    lemma_within(x, k);
    lemma_within(y, k);
    lemma_next_power(k);
    let v = x.value() + y.value();
    assert(power(k + 1) * 1 == power(k + 1));
    if v != 0 {
        lemma_rounded_within(size(v), 1, k + 1);
    }
}

/// A difference is at most twice as large as the larger of its terms.
pub proof fn lemma_difference_within(x: Float64, y: Float64, k: int)
    requires
        has_magnitude(k),
        has_magnitude(k + 1),
        within(x, k),
        within(y, k),
    ensures
        within(x.difference(y), k + 1),
        x.difference(y).finite(),
{
    lemma_sum_within(x, y.negated(), k);
}

/// The size of a product lies between the products of the bounds.
pub proof fn lemma_product_bounds(x: Float64, y: Float64, a: int, b: int, c: int, d: int)
    requires
        has_magnitude(a) && has_magnitude(b) && has_magnitude(a + b),
        has_magnitude(c) && has_magnitude(d) && has_magnitude(c + d),
        beyond(x, a) && within(x, c),
        beyond(y, b) && within(y, d),
    ensures
        beyond(x.product(y), a + b),
        within(x.product(y), c + d),
        x.product(y).negative() == (x.negative() != y.negative()),
{
    let u = power(0);
    lemma_pow2_pos(1074);
    let p = magnitude_value(x.magnitude());
    let q = magnitude_value(y.magnitude());
    lemma_power_has_magnitude(a);
    lemma_power_has_magnitude(b);
    lemma_power_has_magnitude(c);
    lemma_power_has_magnitude(d);
    lemma_power_has_magnitude(c + d);
    lemma_within(x, a);
    lemma_within(x, c);
    lemma_within(y, b);
    lemma_within(y, d);
    lemma_power_of_sum(a, b);
    lemma_power_of_sum(c, d);
    lemma_positive(x);
    lemma_positive(y);
    let low = power(a);
    let low2 = power(b);
    let high = power(c);
    let high2 = power(d);
    assert(low * low2 <= p * q <= high * high2) by (nonlinear_arith)
        requires
            0 < low <= p <= high,
            0 < low2 <= q <= high2,
    ;
    assert(power(a + b) * u >= 0) by {
        lemma_power_has_magnitude(a + b);
        assert(power(a + b) * u >= 0) by (nonlinear_arith)
            requires
                power(a + b) > 0,
                u > 0,
        ;
    }
    lemma_rounded_beyond(p * q, u, a + b);
    lemma_rounded_within(p * q, u, c + d);
}

proof fn lemma_positive(x: Float64)
    requires
        x.magnitude() > 0,
    ensures
        magnitude_value(x.magnitude()) > 0,
        size(x.value()) == magnitude_value(x.magnitude()),
{
    super::lemma_step(0, 0);
    super::lemma_magnitude_value_increases(0, x.magnitude());
}

/// The size of a quotient is at most the quotient of the bounds.
pub proof fn lemma_quotient_within(x: Float64, y: Float64, a: int, b: int)
    requires
        has_magnitude(a) && has_magnitude(b) && has_magnitude(a - b),
        within(x, a),
        beyond(y, b),
    ensures
        within(x.quotient(y), a - b),
        x.quotient(y).finite(),
        x.quotient(y).negative() == (x.negative() != y.negative()),
{
    let u = power(0);
    lemma_pow2_pos(1074);
    lemma_power_has_magnitude(a);
    lemma_power_has_magnitude(b);
    lemma_power_has_magnitude(a - b);
    lemma_within(x, a);
    lemma_within(y, b);
    lemma_positive(y);
    super::lemma_step(0, 0);
    if x.magnitude() > 0 {
        lemma_positive(x);
    }
    lemma_power_of_sum(a - b, b);
    let p = magnitude_value(x.magnitude());
    let q = magnitude_value(y.magnitude());
    let high = power(a);
    let low = power(b);
    let ratio = power(a - b);
    assert(0 <= p * u <= ratio * q) by (nonlinear_arith)
        requires
            0 <= p <= high,
            0 < low <= q,
            u > 0,
            ratio > 0,
            ratio * low == high * u,
    ;
    lemma_rounded_within(p * u, q, a - b);
}

/// The size of a quotient is at least the quotient of the bounds.
pub proof fn lemma_quotient_beyond(x: Float64, y: Float64, a: int, b: int)
    requires
        has_magnitude(a) && has_magnitude(b) && has_magnitude(a - b),
        beyond(x, a),
        within(y, b),
        !y.zero(),
        x.quotient(y).finite(),
    ensures
        beyond(x.quotient(y), a - b),
{
    let u = power(0);
    lemma_pow2_pos(1074);
    lemma_power_has_magnitude(a);
    lemma_power_has_magnitude(b);
    lemma_power_has_magnitude(a - b);
    lemma_within(x, a);
    lemma_within(y, b);
    lemma_positive(y);
    lemma_positive(x);
    lemma_power_of_sum(a - b, b);
    let p = magnitude_value(x.magnitude());
    let q = magnitude_value(y.magnitude());
    let low = power(a);
    let high = power(b);
    let ratio = power(a - b);
    assert(0 <= ratio * q <= p * u) by (nonlinear_arith)
        requires
            0 < low <= p,
            0 < q <= high,
            u > 0,
            ratio > 0,
            ratio * high == low * u,
    ;
    lemma_rounded_beyond(p * u, q, a - b);
}

/// The size of a product is at most the product of the bounds.
pub proof fn lemma_product_within(x: Float64, y: Float64, a: int, b: int)
    requires
        has_magnitude(a) && has_magnitude(b) && has_magnitude(a + b),
        within(x, a),
        within(y, b),
    ensures
        within(x.product(y), a + b),
        x.product(y).finite(),
        x.product(y).negative() == (x.negative() != y.negative()),
{
    let u = power(0);
    lemma_pow2_pos(1074);
    lemma_power_has_magnitude(a);
    lemma_power_has_magnitude(b);
    lemma_power_has_magnitude(a + b);
    lemma_within(x, a);
    lemma_within(y, b);
    super::lemma_step(0, 0);
    if x.magnitude() > 0 {
        lemma_positive(x);
    }
    if y.magnitude() > 0 {
        lemma_positive(y);
    }
    lemma_power_of_sum(a, b);
    let p = magnitude_value(x.magnitude());
    let q = magnitude_value(y.magnitude());
    let high = power(a);
    let high2 = power(b);
    assert(0 <= p * q <= high * high2) by (nonlinear_arith)
        requires
            0 <= p <= high,
            0 <= q <= high2,
    ;
    lemma_rounded_within(p * q, u, a + b);
}

/// A sum of numbers that are not negative is at least as large as each.
pub proof fn lemma_sum_beyond(x: Float64, y: Float64, k: int)
    requires
        has_magnitude(k),
        x.finite() && y.finite(),
        !x.negative() && !y.negative(),
        beyond(x, k) || beyond(y, k),
        x.sum(y).finite(),
    ensures
        beyond(x.sum(y), k),
        !x.sum(y).negative(),
{
    lemma_power_has_magnitude(k);
    lemma_within(x, k);
    lemma_within(y, k);
    super::lemma_step(0, 0);
    if x.magnitude() > 0 {
        lemma_positive(x);
    }
    if y.magnitude() > 0 {
        lemma_positive(y);
    }
    let v = x.value() + y.value();
    assert(power(k) * 1 == power(k));
    lemma_rounded_beyond(v, 1, k);
}

proof fn lemma_root_floor(num: int, top: int) -> (k: int)
    requires
        0 <= num,
        0 <= top,
    ensures
        0 <= k <= top,
        magnitude_value(k) * magnitude_value(k) <= num,
        k < top ==> num < magnitude_value(k + 1) * magnitude_value(k + 1),
    decreases top,
{
    if magnitude_value(top) * magnitude_value(top) <= num {
        top
    } else {
        if top == 0 {
            assert(magnitude_value(0) == 0);
            assert(0int * 0int == 0);
        }
        lemma_root_floor(num, top - 1)
    }
}

/// Every value that is not negative has a rounded root, and `rooted` is it.
pub(crate) proof fn lemma_root_exists(num: int)
    requires
        0 <= num,
    ensures
        root_rounds_to(num, rooted(num)),
{
    let k = lemma_root_floor(num, 0x7ff0_0000_0000_0000);
    super::lemma_step(0, 0);
    let here = magnitude_value(k);
    let next = magnitude_value(k + 1);
    super::lemma_magnitude_value_increases(k, k + 1);
    if k > 0 {
        super::lemma_magnitude_value_increases(0, k);
        super::lemma_magnitude_value_increases(k - 1, k);
        if k > 1 {
            super::lemma_magnitude_value_increases(0, k - 1);
        }
    }
    if k > 0 {
        let low = magnitude_value(k - 1) + here;
        assert(low * low < 4 * (here * here)) by (nonlinear_arith)
            requires
                0 <= low < 2 * here,
        ;
    }
    let mid = here + next;
    if k == 0x7ff0_0000_0000_0000 {
        assert(root_rounds_to(num, k));
    } else if 4 * num < mid * mid || (4 * num == mid * mid && k % 2 == 0) {
        assert(root_rounds_to(num, k));
    } else {
        let after = magnitude_value(k + 2);
        super::lemma_magnitude_value_increases(k + 1, k + 2);
        let high = next + after;
        assert(4 * (next * next) < high * high) by (nonlinear_arith)
            requires
                0 <= 2 * next < high,
        ;
        assert(root_rounds_to(num, k + 1));
    }
}

/// A root is at most as large as the root of the bound.
pub proof fn lemma_root_within(x: Float64, k: int)
    requires
        has_magnitude(k) && has_magnitude(2 * k),
        within(x, 2 * k),
        !x.negative(),
    ensures
        within(x.root(), k),
        x.root().finite(),
        !x.root().negative(),
{
    lemma_power_has_magnitude(k);
    lemma_power_has_magnitude(2 * k);
    lemma_pow2_pos(1074);
    if x.magnitude() > 0 {
        lemma_positive(x);
        lemma_within(x, 2 * k);
        let u = power(0);
        let v = magnitude_value(x.magnitude());
        let num = v * u;
        lemma_power_of_sum(k, k);
        let top = power(k);
        assert(0 <= num <= top * top) by (nonlinear_arith)
            requires
                num == v * u,
                0 <= v <= power(2 * k),
                u > 0,
                top * top == power(2 * k) * u,
        ;
        lemma_root_exists(num);
        let r = rooted(num);
        let m = power_magnitude(k);
        if r > m {
            let low = magnitude_value(r - 1) + magnitude_value(r);
            super::lemma_magnitude_value_increases(m, r);
            if r - 1 > m {
                super::lemma_magnitude_value_increases(m, r - 1);
            }
            assert(low * low > 4 * (top * top)) by (nonlinear_arith)
                requires
                    low > 2 * top,
                    top > 0,
            ;
        }
    }
}

/// A root is at least as large as the root of the bound.
pub proof fn lemma_root_beyond(x: Float64, k: int)
    requires
        has_magnitude(k) && has_magnitude(2 * k),
        beyond(x, 2 * k),
        !x.negative(),
        x.root().finite(),
    ensures
        beyond(x.root(), k),
{
    lemma_power_has_magnitude(k);
    lemma_power_has_magnitude(2 * k);
    lemma_pow2_pos(1074);
    lemma_positive(x);
    lemma_within(x, 2 * k);
    let u = power(0);
    let v = magnitude_value(x.magnitude());
    let num = v * u;
    lemma_power_of_sum(k, k);
    let low = power(k);
    assert(0 <= low * low <= num) by (nonlinear_arith)
        requires
            num == v * u,
            0 < power(2 * k) <= v,
            u > 0,
            low > 0,
            low * low == power(2 * k) * u,
    ;
    lemma_root_exists(num);
    let r = rooted(num);
    let m = power_magnitude(k);
    if r < m {
        let high = magnitude_value(r) + magnitude_value(r + 1);
        super::lemma_step(0, 0);
        super::lemma_magnitude_value_increases(r, m);
        if r > 0 {
            super::lemma_magnitude_value_increases(0, r);
        }
        if r + 1 < m {
            super::lemma_magnitude_value_increases(r + 1, m);
        }
        super::lemma_magnitude_value_increases(0, r + 1);
        assert(high * high < 4 * (low * low)) by (nonlinear_arith)
            requires
                0 < high < 2 * low,
        ;
    }
}

/// The magnitude of a product is at least the product of the bounds.
pub proof fn lemma_product_beyond(x: Float64, y: Float64, a: int, b: int)
    requires
        has_magnitude(a) && has_magnitude(b) && has_magnitude(a + b),
        beyond(x, a),
        beyond(y, b),
    ensures
        x.product(y).magnitude() >= power_magnitude(a + b),
{
    let u = power(0);
    lemma_pow2_pos(1074);
    let p = magnitude_value(x.magnitude());
    let q = magnitude_value(y.magnitude());
    lemma_power_has_magnitude(a);
    lemma_power_has_magnitude(b);
    lemma_power_has_magnitude(a + b);
    lemma_within(x, a);
    lemma_within(y, b);
    lemma_power_of_sum(a, b);
    lemma_positive(x);
    lemma_positive(y);
    let low = power(a);
    let low2 = power(b);
    assert(low * low2 <= p * q) by (nonlinear_arith)
        requires
            0 < low <= p,
            0 < low2 <= q,
    ;
    assert(power(a + b) * u >= 0) by (nonlinear_arith)
        requires
            power(a + b) > 0,
            u > 0,
    ;
    lemma_rounded_beyond(p * q, u, a + b);
}

} // verus!
