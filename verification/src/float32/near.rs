//! How near the results of the operations come to the exact ones, for numbers of ordinary
//! size: up to one part in `2^23` and one unit of the smallest subnormal.

use crate::float32::error::{lemma_rounding_error, precision};
use crate::float32::root::{root_rounds_to, rooted};
use crate::float32::{magnitude_value, rounded, scale_of, Float32};
use crate::float64::error::{distance, size};
use vstd::arithmetic::power2::*;
use vstd::prelude::*;

verus! {

/// The value of 1, in units of the smallest subnormal.
pub open spec fn unit() -> int {
    pow2(149) as int
}

/// A finite number of at most `2^10` in size.
pub open spec fn modest(x: Float32) -> bool {
    x.finite() && size(x.value()) <= 1024 * unit()
}

/// `a` is near `b`: up to one part in `2^23` of it and the given slack.
pub open spec fn near(a: int, b: int, slack: int) -> bool {
    precision() * distance(a, b) <= size(b) + precision() * slack
}

/// `a` is nearer to `b`: up to one part in `2^24 - 1` of it and the given slack.
pub open spec fn nearer(a: int, b: int, slack: int) -> bool {
    0xff_ffff * distance(a, b) <= size(b) + 0x100_0000 * slack
}

proof fn lemma_top()
    ensures
        magnitude_value(0x4980_0000) == 0x10_0000 * unit(),
        unit() >= 0x100_0000_0000_0000,
{
    lemma2_to64();
    lemma2_to64_rest();
    super::lemma_step(146, 0x80_0000);
    lemma_pow2_adds(146, 3);
    lemma_pow2_strictly_increases(56, 149);
    assert(0x80_0000 * pow2(146) == 0x10_0000 * unit()) by (nonlinear_arith)
        requires
            unit() == pow2(146) * 8,
    ;
}

/// A small magnitude pattern is its own value.
proof fn lemma_subnormal(r: int)
    requires
        0 <= r <= 0x80_0000,
    ensures
        magnitude_value(r) == r,
{
    lemma2_to64();
    super::lemma_step(0, r);
    assert(r * pow2(0) == r) by (nonlinear_arith)
        requires
            pow2(0) == 1,
    ;
}

/// A value of at most `2^20` rounds to something near it.
proof fn lemma_rounded_near(num: int, den: int)
    requires
        0 <= num,
        den > 0,
        num <= 0x10_0000 * unit() * den,
    ensures
        0 <= rounded(num, den) <= 0x4980_0000,
        precision() * distance(magnitude_value(rounded(num, den)) * den, num) <= num + precision()
            * den,
        0xff_ffff * distance(magnitude_value(rounded(num, den)) * den, num) <= num + 0x100_0000
            * den,
{
    let r = rounded(num, den);
    lemma_top();
    super::lemma_rounding_exists(num, den);
    let high = magnitude_value(0x4980_0000);
    super::lemma_exact_value_rounds_to_itself(0x4980_0000, den);
    assert(num * den <= (high * den) * den) by (nonlinear_arith)
        requires
            num <= high * den,
            den > 0,
    ;
    super::lemma_rounding_is_monotone(num, den, r, high * den, den, 0x4980_0000);
    if r >= 0x80_0000 {
        lemma_rounding_error(num, den, r);
        assert(precision() * den >= 0) by (nonlinear_arith)
            requires
                precision() == 0x80_0000,
                den > 0,
        ;
    } else {
        lemma_subnormal(r);
        lemma_subnormal(r + 1);
        if r > 0 {
            lemma_subnormal(r - 1);
        }
        assert(r >= 0 && magnitude_value(r) * den == r * den);
        assert((r + (r + 1)) * den == 2 * (r * den) + den) by (nonlinear_arith);
        assert(((r - 1) + r) * den == 2 * (r * den) - den) by (nonlinear_arith);
        assert(2 * num <= (magnitude_value(r) + magnitude_value(r + 1)) * den);
        assert(2 * num <= 2 * (r * den) + den);
        if r > 0 {
            assert((magnitude_value(r - 1) + magnitude_value(r)) * den <= 2 * num);
            assert(2 * (r * den) - den <= 2 * num);
        } else {
            assert(0 * den == 0);
        }
        assert(distance(r * den, num) <= den);
    }
}

proof fn lemma_with_sign(negative: bool, m: int)
    requires
        0 <= m <= 0x4980_0000,
    ensures
        Float32::with_sign(negative, m).finite(),
        Float32::with_sign(negative, m).value() == (if negative {
            -magnitude_value(m)
        } else {
            magnitude_value(m)
        }),
{
}

proof fn lemma_size_of_value(x: Float32)
    ensures
        size(x.value()) == magnitude_value(x.magnitude()),
        magnitude_value(x.magnitude()) >= 0,
        x.zero() <==> x.value() == 0,
{
    super::lemma_step(0, 0);
    if x.magnitude() > 0 {
        super::lemma_magnitude_value_increases(0, x.magnitude());
    }
}

/// The sum is near the exact sum, as long as it is at most `2^20`.
pub proof fn lemma_sum_near(x: Float32, y: Float32)
    requires
        x.finite(),
        y.finite(),
        size(x.value()) + size(y.value()) <= 0x10_0000 * unit(),
    ensures
        x.sum(y).finite(),
        near(x.sum(y).value(), x.value() + y.value(), 1),
        nearer(x.sum(y).value(), x.value() + y.value(), 1),
        x.value() + y.value() > 0 ==> !x.sum(y).negative(),
{
    let v = x.value() + y.value();
    let m = size(v);
    lemma_top();
    super::lemma_step(0, 0);
    if v != 0 {
        lemma_rounded_near(m, 1);
        lemma_with_sign(v < 0, rounded(m, 1));
        assert(magnitude_value(rounded(m, 1)) * 1 == magnitude_value(rounded(m, 1)));
    }
}

/// The difference is near the exact difference.
pub proof fn lemma_difference_near(x: Float32, y: Float32)
    requires
        x.finite(),
        y.finite(),
        size(x.value()) + size(y.value()) <= 0x10_0000 * unit(),
    ensures
        x.difference(y).finite(),
        near(x.difference(y).value(), x.value() - y.value(), 1),
        nearer(x.difference(y).value(), x.value() - y.value(), 1),
        x.value() > y.value() ==> !x.difference(y).negative(),
{
    super::lemma_step(0, 0);
    assert(y.negated().value() == -y.value());
    lemma_sum_near(x, y.negated());
}

/// The product is near the exact product, which is counted in squared units.
pub proof fn lemma_product_near(x: Float32, y: Float32)
    requires
        modest(x),
        modest(y),
    ensures
        x.product(y).finite(),
        near(x.product(y).value() * unit(), x.value() * y.value(), unit()),
        nearer(x.product(y).value() * unit(), x.value() * y.value(), unit()),
{
    let a = magnitude_value(x.magnitude());
    let b = magnitude_value(y.magnitude());
    let u = unit();
    lemma_top();
    lemma_size_of_value(x);
    lemma_size_of_value(y);
    let num = a * b;
    assert(0 <= num <= 0x10_0000 * u * u) by (nonlinear_arith)
        requires
            num == a * b,
            0 <= a <= 1024 * u,
            0 <= b <= 1024 * u,
    ;
    lemma_rounded_near(num, u);
    let r = rounded(num, u);
    let negative = x.negative() != y.negative();
    lemma_with_sign(negative, r);
    let m = magnitude_value(r);
    let p = x.value() * y.value();
    let z = x.product(y).value();
    if negative {
        assert(p == -num) by (nonlinear_arith)
            requires
                p == x.value() * y.value(),
                num == a * b,
                (x.value() == a && y.value() == -b) || (x.value() == -a && y.value() == b),
        ;
        assert(z * u == -(m * u)) by (nonlinear_arith)
            requires
                z == -m,
        ;
    } else {
        assert(p == num) by (nonlinear_arith)
            requires
                p == x.value() * y.value(),
                num == a * b,
                (x.value() == a && y.value() == b) || (x.value() == -a && y.value() == -b),
        ;
    }
}

/// The quotient of numbers that are not negative is near the exact quotient, told by its
/// product with the divisor.
pub proof fn lemma_quotient_near(x: Float32, y: Float32)
    requires
        x.finite(),
        y.finite(),
        !x.negative(),
        !y.negative(),
        y.value() > 0,
        x.value() <= 1024 * y.value(),
    ensures
        x.quotient(y).finite(),
        !x.quotient(y).negative(),
        near(x.quotient(y).value() * y.value(), x.value() * unit(), y.value()),
{
    let a = x.value();
    let b = y.value();
    let u = unit();
    lemma_top();
    lemma_size_of_value(x);
    lemma_size_of_value(y);
    let num = a * u;
    assert(0 <= num <= 0x10_0000 * u * b) by (nonlinear_arith)
        requires
            num == a * u,
            0 <= a <= 1024 * b,
            b > 0,
            u > 0,
    ;
    lemma_rounded_near(num, b);
    lemma_with_sign(false, rounded(num, b));
}

/// The largest magnitude up to `top` whose square is at most `num`.
proof fn lemma_root_floor(num: int, top: int) -> (k: int)
    requires
        0 <= num,
        0 <= top,
    ensures
        0 <= k <= top,
        magnitude_value(k) * magnitude_value(k) <= num,
        k < top ==> num < magnitude_value(k + 1) * magnitude_value(k + 1),
    decreases top,
{
    if magnitude_value(top) * magnitude_value(top) <= num {
        top
    } else {
        if top == 0 {
            lemma_subnormal(0);
            assert(magnitude_value(0) * magnitude_value(0) == 0);
        }
        lemma_root_floor(num, top - 1)
    }
}

/// A square root of at most `2^20` has a rounding, and it has a full significand unless the
/// root is tiny.
proof fn lemma_root_exists(num: int)
    requires
        0x4000_0000_0000 < num,
        num < (0x10_0000 * unit()) * (0x10_0000 * unit()),
    ensures
        root_rounds_to(num, rooted(num)),
        0x80_0000 <= rooted(num) <= 0x4980_0000,
{
    lemma_top();
    let k = lemma_root_floor(num, 0x4980_0000);
    let here = magnitude_value(k);
    let next = magnitude_value(k + 1);
    let mid = here + next;
    super::lemma_step(0, 0);
    super::lemma_adjacent(k);
    super::lemma_adjacent(k + 1);
    if k > 0 {
        super::lemma_magnitude_value_increases(0, k);
        super::lemma_adjacent(k - 1);
        if k - 1 > 0 {
            super::lemma_magnitude_value_increases(0, k - 1);
        }
    }
    let r = if 4 * num < mid * mid || (4 * num == mid * mid && k % 2 == 0) {
        k
    } else {
        k + 1
    };
    if r == k {
        if k > 0 {
            let low = magnitude_value(k - 1) + here;
            assert(low * low < 4 * (here * here)) by (nonlinear_arith)
                requires
                    0 <= low < 2 * here,
            ;
        }
    } else {
        let high = next + magnitude_value(k + 2);
        assert(high * high > 4 * (next * next)) by (nonlinear_arith)
            requires
                high > 2 * next,
                next >= 0,
        ;
    }
    assert(root_rounds_to(num, r));
    crate::float32::root::lemma_root_is_unique(num, rooted(num), r);
    if r < 0x80_0000 {
        lemma_subnormal(r);
        lemma_subnormal(r + 1);
        let high = r + (r + 1);
        assert(high * high <= 4 * 0x4000_0000_0000) by (nonlinear_arith)
            requires
                0 <= high <= 2 * 0x80_0000,
        ;
    }
}

/// The square of the square root is near the number, unless the root is tiny.
pub proof fn lemma_root_near(x: Float32)
    requires
        x.finite(),
        !x.negative(),
        0x4000_0000_0000 < x.value() <= 0x8_0000 * unit(),
    ensures
        x.root().finite(),
        !x.root().negative(),
        0x40_0000 * distance(x.root().value() * x.root().value(), x.value() * unit())
            <= x.root().value() * x.root().value(),
        0x7f_ffff * distance(x.root().value() * x.root().value(), x.value() * unit())
            <= x.root().value() * x.root().value(),
        x.root().value() > 0,
{
    let num = x.value() * unit();
    lemma_top();
    let u = unit();
    assert(0x4000_0000_0000 < num < (0x10_0000 * u) * (0x10_0000 * u)) by (nonlinear_arith)
        requires
            num == x.value() * u,
            0x4000_0000_0000 < x.value() <= 0x8_0000 * u,
            u >= 0x100_0000_0000_0000,
    ;
    lemma_root_exists(num);
    let r = rooted(num);
    lemma_with_sign(false, r);
    let s = scale_of(r);
    let n = r - s * 0x80_0000;
    let w = pow2(s as nat) as int;
    lemma_pow2_pos(s as nat);
    super::lemma_step(s, n);
    crate::float32::error::lemma_step_below_at_most(s, n);
    lemma_size_of_value(x);
    let v = magnitude_value(r);
    let below = magnitude_value(r - 1);
    assert((n + 1) * w == v + w) by (nonlinear_arith)
        requires
            v == n * w,
    ;
    assert(v >= 0x80_0000 * w) by (nonlinear_arith)
        requires
            v == n * w,
            n >= 0x80_0000,
            w > 0,
    ;
    let high = v + (v + w);
    let low = below + v;
    assert(x.root().value() == v);
    assert(4 * num <= high * high);
    assert(low * low <= 4 * num);
    assert(high * high == 4 * (v * v) + 4 * (v * w) + w * w) by (nonlinear_arith)
        requires
            high == 2 * v + w,
    ;
    assert(low * low >= 4 * (v * v) - 4 * (v * w)) by (nonlinear_arith)
        requires
            low >= 2 * v - w,
            v >= 0x80_0000 * w,
            w > 0,
    ;
    assert(0x80_0000 * (v * w) <= v * v) by (nonlinear_arith)
        requires
            v >= 0x80_0000 * w,
            w > 0,
    ;
    assert(0x80_0000 * (w * w) <= v * w) by (nonlinear_arith)
        requires
            v >= 0x80_0000 * w,
            w > 0,
    ;
    assert(w * w > 0) by (nonlinear_arith)
        requires
            w > 0,
    ;
    assert(v * v >= 0) by (nonlinear_arith);
}

/// A whole number up to `2^20` is near itself as a number.
pub proof fn lemma_whole_near(n: int)
    requires
        0 <= n <= 0x10_0000,
    ensures
        Float32::of_whole(n).finite(),
        !Float32::of_whole(n).negative(),
        near(Float32::of_whole(n).value(), n * unit(), 1),
{
    lemma_top();
    let m = n * unit();
    assert(0 <= m <= 0x10_0000 * unit()) by (nonlinear_arith)
        requires
            m == n * unit(),
            0 <= n <= 0x10_0000,
            unit() >= 0,
    ;
    lemma_rounded_near(m, 1);
    lemma_with_sign(false, rounded(m, 1));
    assert(magnitude_value(rounded(m, 1)) * 1 == magnitude_value(rounded(m, 1)));
}

} // verus!
