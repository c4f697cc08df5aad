//! Double-precision numbers held as their IEEE-754 bit patterns.
//!
//! A `Float64` is the 64-bit pattern of a binary64 number. Comparison, clamping and
//! arithmetic work on the pattern with integer arithmetic, so each of them has an exact
//! contract: the order of the real values, and for the arithmetic operations the correctly
//! rounded result, ties to even.

pub mod bounds;
pub mod convert;
pub mod error;
pub mod nanos;
pub mod ratio;
pub mod root;

use crate::rounding::{normalize, power_of_two, Fraction};
use vstd::arithmetic::power2::*;
use vstd::prelude::*;

verus! {

/// Magnitude bits (everything but the sign) of positive infinity.
pub const INF_MAGNITUDE: u64 = 0x7ff0_0000_0000_0000;

/// Number of magnitude patterns that share one exponent field.
pub const BINADE: u64 = 0x10_0000_0000_0000;

/// The sign bit.
pub const SIGN_BIT: u64 = 0x8000_0000_0000_0000;

/// The bit pattern of a binary64 number.
#[derive(Debug, Clone, Copy, Default)]
pub struct Float64(pub u64);

/// The value of a magnitude pattern, in units of the smallest subnormal `2^-1074`.
///
/// Infinity is given the value `2^1024` that the next binade would start at, which is
/// what decides between the largest finite number and infinity when rounding.
pub open spec fn magnitude_value(m: int) -> int {
    let e = m / 0x10_0000_0000_0000;
    let f = m % 0x10_0000_0000_0000;
    if e == 0 {
        f
    } else {
        (0x10_0000_0000_0000 + f) * pow2((e - 1) as nat)
    }
}

/// `r` is the magnitude nearest to `num / den` (in units of `2^-1074`); of two equally
/// near ones it is the even pattern.
pub open spec fn rounds_to(num: int, den: int, r: int) -> bool {
    &&& 0 <= r <= 0x7ff0_0000_0000_0000
    &&& r > 0 ==> {
        let low = (magnitude_value(r - 1) + magnitude_value(r)) * den;
        low < 2 * num || (low == 2 * num && r % 2 == 0)
    }
    &&& r < 0x7ff0_0000_0000_0000 ==> {
        let high = (magnitude_value(r) + magnitude_value(r + 1)) * den;
        2 * num < high || (2 * num == high && r % 2 == 0)
    }
}

/// The magnitude that `num / den` rounds to.
pub open spec fn rounded(num: int, den: int) -> int {
    choose|r: int| rounds_to(num, den, r)
}

/// The value of the pattern with the significand `n` at the scale `s`, and of the next one.
pub(crate) proof fn lemma_step(s: int, n: int)
    requires
        0 <= s,
        0 <= n < 0x20_0000_0000_0000,
        s > 0 ==> n >= 0x10_0000_0000_0000,
    ensures
        magnitude_value(s * 0x10_0000_0000_0000 + n) == n * pow2(s as nat),
        magnitude_value(s * 0x10_0000_0000_0000 + n + 1) == (n + 1) * pow2(s as nat),
{
    lemma_pow2_unfold((s + 1) as nat);
    assert(pow2(0) == 1) by { lemma2_to64(); }
    assert(pow2((s + 1) as nat) == 2 * pow2(s as nat));
    let k = s * 0x10_0000_0000_0000 + n;
    if n < 0x10_0000_0000_0000 {
        assert(k / 0x10_0000_0000_0000 == 0 && k % 0x10_0000_0000_0000 == n);
    } else {
        assert(k / 0x10_0000_0000_0000 == s + 1 && k % 0x10_0000_0000_0000 == n - 0x10_0000_0000_0000);
    }
    if n + 1 == 0x20_0000_0000_0000 {
        assert((k + 1) / 0x10_0000_0000_0000 == s + 2 && (k + 1) % 0x10_0000_0000_0000 == 0);
        assert(0x10_0000_0000_0000 * pow2((s + 1) as nat) == 0x20_0000_0000_0000 * pow2(s as nat)) by (nonlinear_arith)
            requires
                pow2((s + 1) as nat) == 2 * pow2(s as nat),
        ;
    } else if n + 1 < 0x10_0000_0000_0000 {
        assert((k + 1) / 0x10_0000_0000_0000 == 0 && (k + 1) % 0x10_0000_0000_0000 == n + 1);
    } else {
        assert((k + 1) / 0x10_0000_0000_0000 == s + 1 && (k + 1) % 0x10_0000_0000_0000 == n + 1 - 0x10_0000_0000_0000);
    }
    assert(n * 1 == n && (n + 1) * 1 == n + 1);
}

/// Splits a magnitude into an exponent and a significand.
pub open spec fn scale_of(m: int) -> int {
    if m < 0x10_0000_0000_0000 {
        0
    } else {
        m / 0x10_0000_0000_0000 - 1
    }
}

proof fn lemma_adjacent(m: int)
    requires
        0 <= m,
    ensures
        magnitude_value(m) < magnitude_value(m + 1),
{
    let s = scale_of(m);
    let n = m - s * 0x10_0000_0000_0000;
    lemma_step(s, n);
    lemma_pow2_pos(s as nat);
    assert(n * pow2(s as nat) < (n + 1) * pow2(s as nat)) by (nonlinear_arith)
        requires
            pow2(s as nat) > 0,
    ;
}

/// A larger magnitude pattern has a larger value.
pub proof fn lemma_magnitude_value_increases(a: int, b: int)
    requires
        0 <= a < b,
    ensures
        magnitude_value(a) < magnitude_value(b),
    decreases b - a,
{
    lemma_adjacent(b - 1);
    if a < b - 1 {
        lemma_magnitude_value_increases(a, b - 1);
    }
}

/// The value `num / den`, when it lies from the pattern `k` up to but not at the next one,
/// rounds to `r` chosen between the two by their midpoint.
proof fn lemma_between(num: int, den: int, k: int, r: int)
    requires
        den > 0,
        0 <= k,
        magnitude_value(k) * den <= num < magnitude_value(k + 1) * den,
        k < 0x7ff0_0000_0000_0000 ==> (r == k || r == k + 1),
        k < 0x7ff0_0000_0000_0000 && r == k ==> {
            let mid = (magnitude_value(k) + magnitude_value(k + 1)) * den;
            2 * num < mid || (2 * num == mid && k % 2 == 0)
        },
        k < 0x7ff0_0000_0000_0000 && r == k + 1 ==> {
            let mid = (magnitude_value(k) + magnitude_value(k + 1)) * den;
            2 * num > mid || (2 * num == mid && k % 2 == 1)
        },
        k >= 0x7ff0_0000_0000_0000 ==> r == 0x7ff0_0000_0000_0000,
    ensures
        rounds_to(num, den, r),
{
    if k >= 0x7ff0_0000_0000_0000 {
        let a = magnitude_value(r - 1);
        let b = magnitude_value(r);
        let c = magnitude_value(k);
        lemma_adjacent(r - 1);
        if r < k {
            lemma_magnitude_value_increases(r, k);
        }
        assert((a + b) * den < 2 * num) by (nonlinear_arith)
            requires
                a < b,
                b <= c,
                c * den <= num,
                den > 0,
        ;
    } else if r == k {
        if k > 0 {
            let a = magnitude_value(k - 1);
            let b = magnitude_value(k);
            lemma_adjacent(k - 1);
            assert((a + b) * den < 2 * num) by (nonlinear_arith)
                requires
                    a < b,
                    b * den <= num,
                    den > 0,
            ;
        }
    } else {
        let b = magnitude_value(k + 1);
        let c = magnitude_value(k + 2);
        lemma_adjacent(k + 1);
        assert(2 * num < (b + c) * den) by (nonlinear_arith)
            requires
                b < c,
                num < b * den,
                den > 0,
        ;
    }
}

/// At most one magnitude is the rounding of a value.
pub proof fn lemma_rounding_is_unique(num: int, den: int, r1: int, r2: int)
    requires
        den > 0,
        rounds_to(num, den, r1),
        rounds_to(num, den, r2),
    ensures
        r1 == r2,
{
    lemma_rounding_order(num, den, r1, r2);
    lemma_rounding_order(num, den, r2, r1);
}

proof fn lemma_rounding_order(num: int, den: int, r1: int, r2: int)
    requires
        den > 0,
        rounds_to(num, den, r1),
        rounds_to(num, den, r2),
    ensures
        r1 >= r2,
{
    let a = magnitude_value(r1);
    let b = magnitude_value(r1 + 1);
    let c = magnitude_value(r2 - 1);
    let d = magnitude_value(r2);
    if r1 < r2 {
        lemma_adjacent(r1);
        lemma_adjacent(r2 - 1);
        if r1 + 1 < r2 {
            lemma_magnitude_value_increases(r1 + 1, r2);
            lemma_magnitude_value_increases(r1, r2 - 1);
            assert((a + b) * den < (c + d) * den) by (nonlinear_arith)
                requires
                    a < c,
                    b < d,
                    den > 0,
            ;
        }
    }
}

/// `rounded` is the rounding, once there is one.
pub proof fn lemma_rounded(num: int, den: int, r: int)
    requires
        den > 0,
        rounds_to(num, den, r),
    ensures
        rounded(num, den) == r,
{
    lemma_rounding_is_unique(num, den, rounded(num, den), r);
}

/// Rounds `a / b * 2^t` (in units of `2^-1074`) to the nearest magnitude, ties to even.
fn round_ratio(a: u128, b: u128, t: i32) -> (r: u64)
    requires
        0 < a < 0x1000_0000_0000_0000_0000_0000_0000,
        0 < b < 0x20_0000_0000_0000,
        -3900 <= t <= 3900,
    ensures
        rounds_to(
            a * crate::rounding::two_to_num(t as int),
            b * crate::rounding::two_to_den(t as int),
            r as int,
        ),
{
    let ghost num = a * crate::rounding::two_to_num(t as int);
    let ghost den = b * crate::rounding::two_to_den(t as int);
    proof {
        lemma2_to64();
        lemma2_to64_rest();
        lemma_pow2_adds(44, 64);
    }
    let (s, n, f): (i32, u128, Fraction) = normalize(a, b, t, 53);
    proof {
        lemma_step(s as int, n as int);
    }
    if s >= 2046 {
        proof {
            lemma_between(num, den, s * 0x10_0000_0000_0000 + n, 0x7ff0_0000_0000_0000);
        }
        return INF_MAGNITUDE;
    }
    let k: u64 = s as u64 * BINADE + n as u64;
    assert(k % 2 == n % 2);
    let round_up: bool = match f {
        Fraction::BelowHalf => false,
        Fraction::Half => n % 2 == 1,
        Fraction::AboveHalf => true,
    };
    if round_up {
        proof {
            lemma_between(num, den, k as int, k + 1);
        }
        k + 1
    } else {
        proof {
            lemma_between(num, den, k as int, k as int);
        }
        k
    }
}

/// The same ratio written with another numerator and denominator rounds alike.
proof fn lemma_same_ratio(n1: int, d1: int, n2: int, d2: int, r: int)
    requires
        d1 > 0,
        d2 > 0,
        n1 * d2 == n2 * d1,
        rounds_to(n1, d1, r),
    ensures
        rounds_to(n2, d2, r),
{
    if r > 0 {
        lemma_same_side(magnitude_value(r - 1) + magnitude_value(r), n1, d1, n2, d2);
    }
    if r < 0x7ff0_0000_0000_0000 {
        lemma_same_side(magnitude_value(r) + magnitude_value(r + 1), n1, d1, n2, d2);
    }
}

proof fn lemma_same_side(x: int, n1: int, d1: int, n2: int, d2: int)
    requires
        d1 > 0,
        d2 > 0,
        n1 * d2 == n2 * d1,
    ensures
        (x * d1 < 2 * n1) == (x * d2 < 2 * n2),
        (x * d1 == 2 * n1) == (x * d2 == 2 * n2),
{
    let u = x * d1 - 2 * n1;
    let v = x * d2 - 2 * n2;
    assert(u * d2 == v * d1) by (nonlinear_arith)
        requires u == x * d1 - 2 * n1, v == x * d2 - 2 * n2, n1 * d2 == n2 * d1;
    assert((u < 0) == (v < 0) && (u == 0) == (v == 0)) by (nonlinear_arith)
        requires u * d2 == v * d1, d1 > 0, d2 > 0;
}

impl Float64 {
    /// The pattern without its sign.
    pub open spec fn magnitude(self) -> int {
        (self.0 % 0x8000_0000_0000_0000) as int
    }

    /// The sign bit is set.
    pub open spec fn negative(self) -> bool {
        self.0 >= 0x8000_0000_0000_0000
    }

    /// Not a number.
    pub open spec fn nan(self) -> bool {
        self.magnitude() > 0x7ff0_0000_0000_0000
    }

    /// Positive or negative infinity.
    pub open spec fn infinite(self) -> bool {
        self.magnitude() == 0x7ff0_0000_0000_0000
    }

    /// Positive or negative zero.
    pub open spec fn zero(self) -> bool {
        self.magnitude() == 0
    }

    /// The value in units of `2^-1074`, for a finite number.
    pub open spec fn value(self) -> int {
        if self.negative() {
            -magnitude_value(self.magnitude())
        } else {
            magnitude_value(self.magnitude())
        }
    }

    /// A key that orders the numbers (not NaN) as their values do.
    pub open spec fn order(self) -> int {
        if self.negative() {
            -self.magnitude()
        } else {
            self.magnitude()
        }
    }

    /// `self < other`.
    pub open spec fn below(self, other: Float64) -> bool {
        !self.nan() && !other.nan() && self.order() < other.order()
    }

    /// `self <= other`.
    pub open spec fn at_most(self, other: Float64) -> bool {
        !self.nan() && !other.nan() && self.order() <= other.order()
    }

    /// `self == other`: equal as numbers, so both zeros are equal and NaN equals nothing.
    pub open spec fn same_number(self, other: Float64) -> bool {
        !self.nan() && !other.nan() && self.order() == other.order()
    }

    /// `self` kept within `min` and `max`; NaN is kept.
    pub open spec fn clamped(self, min: Float64, max: Float64) -> Float64 {
        if self.below(min) {
            min
        } else if max.below(self) {
            max
        } else {
            self
        }
    }

    /// The number with the given sign and magnitude.
    pub open spec fn with_sign(negative: bool, magnitude: int) -> Float64 {
        if negative {
            Float64((0x8000_0000_0000_0000 + magnitude) as u64)
        } else {
            Float64(magnitude as u64)
        }
    }

    /// The correctly rounded product.
    pub open spec fn product(self, other: Float64) -> Float64 {
        let negative = self.negative() != other.negative();
        if self.nan() || other.nan() || (self.infinite() && other.zero()) || (self.zero()
            && other.infinite()) {
            Float64(0x7ff8_0000_0000_0000)
        } else if self.infinite() || other.infinite() {
            Float64::with_sign(negative, 0x7ff0_0000_0000_0000)
        } else {
            Float64::with_sign(
                negative,
                rounded(
                    magnitude_value(self.magnitude()) * magnitude_value(other.magnitude()),
                    pow2(1074) as int,
                ),
            )
        }
    }

    /// The correctly rounded quotient.
    pub open spec fn quotient(self, other: Float64) -> Float64 {
        let negative = self.negative() != other.negative();
        if self.nan() || other.nan() || (self.infinite() && other.infinite()) || (self.zero()
            && other.zero()) {
            Float64(0x7ff8_0000_0000_0000)
        } else if self.infinite() || other.zero() {
            Float64::with_sign(negative, 0x7ff0_0000_0000_0000)
        } else if other.infinite() {
            Float64::with_sign(negative, 0)
        } else {
            Float64::with_sign(
                negative,
                rounded(
                    magnitude_value(self.magnitude()) * pow2(1074),
                    magnitude_value(other.magnitude()),
                ),
            )
        }
    }

    /// The number with the given bit pattern.
    pub fn from_bits(bits: u64) -> (res: Float64)
        ensures
            res.0 == bits,
    {
        Float64(bits)
    }

    /// The bit pattern.
    pub fn to_bits(self) -> (bits: u64)
        ensures
            bits == self.0,
    {
        self.0
    }

    /// Whether this is not a number.
    pub fn is_nan(self) -> (res: bool)
        ensures
            res == self.nan(),
    {
        self.0 % SIGN_BIT > INF_MAGNITUDE
    }

    /// Whether `self < other`.
    pub fn lt(self, other: Float64) -> (res: bool)
        ensures
            res == self.below(other),
    {
        if self.is_nan() || other.is_nan() {
            return false;
        }
        let a: u64 = self.0 % SIGN_BIT;
        let b: u64 = other.0 % SIGN_BIT;
        if self.0 >= SIGN_BIT {
            if other.0 >= SIGN_BIT {
                a > b
            } else {
                a > 0 || b > 0
            }
        } else if other.0 >= SIGN_BIT {
            false
        } else {
            a < b
        }
    }

    /// Whether `self <= other`.
    pub fn le(self, other: Float64) -> (res: bool)
        ensures
            res == self.at_most(other),
    {
        !self.is_nan() && !other.is_nan() && !other.lt(self)
    }

    /// Whether the two are equal as numbers.
    pub fn equals(self, other: Float64) -> (res: bool)
        ensures
            res == self.same_number(other),
    {
        self.le(other) && other.le(self)
    }

    /// Restricts the number to an interval, keeping NaN.
    pub fn clamp(self, min: Float64, max: Float64) -> (res: Float64)
        requires
            min.at_most(max),
        ensures
            res == self.clamped(min, max),
    {
        if self.lt(min) {
            min
        } else if max.lt(self) {
            max
        } else {
            self
        }
    }

    fn signed(negative: bool, magnitude: u64) -> (res: Float64)
        requires
            magnitude <= INF_MAGNITUDE,
        ensures
            res == Float64::with_sign(negative, magnitude as int),
    {
        if negative {
            Float64(SIGN_BIT + magnitude)
        } else {
            Float64(magnitude)
        }
    }

    /// The significand and the power of two of a finite magnitude.
    pub(crate) fn decompose(magnitude: u64) -> (res: (u64, i32))
        requires
            magnitude < INF_MAGNITUDE,
        ensures
            res.0 < 0x20_0000_0000_0000,
            magnitude > 0 ==> res.0 > 0,
            0 <= res.1 <= 2045,
            magnitude_value(magnitude as int) == res.0 * pow2(res.1 as nat),
            res.1 == scale_of(magnitude as int),
            magnitude == res.1 * 0x10_0000_0000_0000 + res.0,
            res.1 > 0 ==> res.0 >= 0x10_0000_0000_0000,
    {
        let e: u64 = magnitude / BINADE;
        let f: u64 = magnitude % BINADE;
        if e == 0 {
            proof {
                lemma_step(0, magnitude as int);
            }
            (f as u64, 0)
        } else {
            proof {
                lemma_step(e - 1, 0x10_0000_0000_0000 + f);
            }
            (BINADE as u64 + f as u64, e as i32 - 1)
        }
    }

    /// The product, rounded to nearest with ties to even. A NaN result is the quiet NaN
    /// `0x7ff8000000000000`.
    pub fn mul(self, other: Float64) -> (res: Float64)
        ensures
            res == self.product(other),
    {
        let a: u64 = self.0 % SIGN_BIT;
        let b: u64 = other.0 % SIGN_BIT;
        let negative: bool = (self.0 >= SIGN_BIT) != (other.0 >= SIGN_BIT);
        if a > INF_MAGNITUDE || b > INF_MAGNITUDE || (a == INF_MAGNITUDE && b == 0) || (a == 0 && b
            == INF_MAGNITUDE) {
            return Float64(0x7ff8_0000_0000_0000);
        }
        if a == INF_MAGNITUDE || b == INF_MAGNITUDE {
            return Float64::signed(negative, INF_MAGNITUDE);
        }
        let ghost num = magnitude_value(a as int) * magnitude_value(b as int);
        let ghost den = pow2(1074) as int;
        proof {
            lemma_pow2_pos(1074);
            lemma_step(0, 0);
        }
        if a == 0 || b == 0 {
            proof {
                let x = magnitude_value(a as int);
                let y = magnitude_value(b as int);
                assert(num == 0) by (nonlinear_arith)
                    requires num == x * y, x == 0 || y == 0;
                assert(0 * den == 0 && 1 * den == den && (0 + 1) * den == den);
                lemma_between(num, den, 0, 0);
                lemma_rounded(num, den, 0);
            }
            return Float64::signed(negative, 0);
        }
        let (ma, sa): (u64, i32) = Float64::decompose(a);
        let (mb, sb): (u64, i32) = Float64::decompose(b);
        let t: i32 = sa + sb - 1074;
        proof {
            assert(0 < ma * mb < 0x1000_0000_0000_0000_0000_0000_0000) by (nonlinear_arith)
                requires 0 < ma < 0x20_0000_0000_0000, 0 < mb < 0x20_0000_0000_0000;
        }
        let r: u64 = round_ratio(ma as u128 * mb as u128, 1, t);
        proof {
            let pa = pow2(sa as nat) as int;
            let pb = pow2(sb as nat) as int;
            let up = crate::rounding::two_to_num(t as int);
            let dn = crate::rounding::two_to_den(t as int);
            lemma_pow2_adds(sa as nat, sb as nat);
            crate::rounding::lemma_two_to(t as int, 0);
            if t >= 0 {
                lemma_pow2_adds(1074, t as nat);
            } else {
                lemma_pow2_adds((sa + sb) as nat, (-t) as nat);
            }
            lemma2_to64();
            assert(up * den == (pa * pb) * dn) by (nonlinear_arith)
                requires
                    (dn == 1 && den * up == pa * pb) || (up == 1 && (pa * pb) * dn == den),
            ;
            let n1 = (ma * mb) * up;
            let d1 = 1 * dn;
            let m = ma * mb;
            let p = pa * pb;
            assert(num == m * p) by (nonlinear_arith)
                requires num == (ma * pa) * (mb * pb), m == ma * mb, p == pa * pb;
            assert(n1 * den == m * (up * den)) by (nonlinear_arith)
                requires n1 == m * up;
            assert(num * d1 == m * (p * dn)) by (nonlinear_arith)
                requires num == m * p, d1 == dn;
            lemma_same_ratio(n1, d1, num, den, r as int);
            lemma_rounded(num, den, r as int);
        }
        Float64::signed(negative, r)
    }

    /// The quotient, rounded to nearest with ties to even. A NaN result is the quiet NaN
    /// `0x7ff8000000000000`.
    pub fn div(self, other: Float64) -> (res: Float64)
        ensures
            res == self.quotient(other),
    {
        let a: u64 = self.0 % SIGN_BIT;
        let b: u64 = other.0 % SIGN_BIT;
        let negative: bool = (self.0 >= SIGN_BIT) != (other.0 >= SIGN_BIT);
        if a > INF_MAGNITUDE || b > INF_MAGNITUDE || (a == INF_MAGNITUDE && b == INF_MAGNITUDE) || (a
            == 0 && b == 0) {
            return Float64(0x7ff8_0000_0000_0000);
        }
        if a == INF_MAGNITUDE || b == 0 {
            return Float64::signed(negative, INF_MAGNITUDE);
        }
        if b == INF_MAGNITUDE {
            return Float64::signed(negative, 0);
        }
        let ghost num = magnitude_value(a as int) * pow2(1074);
        let ghost den = magnitude_value(b as int);
        proof {
            lemma_step(0, 0);
            lemma_magnitude_value_increases(0, b as int);
        }
        if a == 0 {
            proof {
                assert(num == 0) by (nonlinear_arith)
                    requires num == magnitude_value(a as int) * pow2(1074), magnitude_value(a as int) == 0;
                assert(0 * den == 0 && 1 * den == den && (0 + 1) * den == den);
                lemma_between(num, den, 0, 0);
                lemma_rounded(num, den, 0);
            }
            return Float64::signed(negative, 0);
        }
        let (ma, sa): (u64, i32) = Float64::decompose(a);
        let (mb, sb): (u64, i32) = Float64::decompose(b);
        let t: i32 = sa - sb + 1074;
        let r: u64 = round_ratio(ma as u128, mb as u128, t);
        proof {
            let pa = pow2(sa as nat) as int;
            let pb = pow2(sb as nat) as int;
            let up = crate::rounding::two_to_num(t as int);
            let dn = crate::rounding::two_to_den(t as int);
            let u = pow2(1074) as int;
            lemma_pow2_adds(sa as nat, 1074);
            crate::rounding::lemma_two_to(t as int, 0);
            if t >= 0 {
                lemma_pow2_adds(sb as nat, t as nat);
            } else {
                lemma_pow2_adds((sa + 1074) as nat, (-t) as nat);
            }
            lemma2_to64();
            assert(up * pb == (pa * u) * dn) by (nonlinear_arith)
                requires
                    (dn == 1 && pb * up == pa * u) || (up == 1 && (pa * u) * dn == pb),
            ;
            let n1 = ma * up;
            let d1 = mb * dn;
            let m = ma * mb;
            let p = pa * u;
            assert(n1 * den == m * (up * pb)) by (nonlinear_arith)
                requires n1 == ma * up, den == mb * pb, m == ma * mb;
            assert(num == ma * p) by (nonlinear_arith)
                requires num == (ma * pa) * u, p == pa * u;
            assert(num * d1 == m * (p * dn)) by (nonlinear_arith)
                requires num == ma * p, d1 == mb * dn, m == ma * mb;
            assert(d1 > 0) by (nonlinear_arith)
                requires d1 == mb * dn, mb > 0, dn > 0;
            lemma_same_ratio(n1, d1, num, den, r as int);
            lemma_rounded(num, den, r as int);
        }
        Float64::signed(negative, r)
    }
}

/// The step below a magnitude of scale `s > 0` is at least half of `2^s`.
proof fn lemma_step_below(s: int, n: int)
    requires
        0 < s,
        0x10_0000_0000_0000 <= n < 0x20_0000_0000_0000,
    ensures
        2 * (magnitude_value(s * 0x10_0000_0000_0000 + n) - magnitude_value(s * 0x10_0000_0000_0000 + n - 1)) >= pow2(
            s as nat,
        ),
{
    lemma_step(s, n);
    lemma_pow2_pos(s as nat);
    let unit = pow2(s as nat) as int;
    if n > 0x10_0000_0000_0000 {
        lemma_step(s, n - 1);
        assert(n * unit - (n - 1) * unit == unit) by (nonlinear_arith);
    } else {
        lemma_step(s - 1, 0x1f_ffff_ffff_ffff);
        lemma_pow2_unfold(s as nat);
        let half = pow2((s - 1) as nat) as int;
        assert(n * unit - 0x1f_ffff_ffff_ffff * half == half) by (nonlinear_arith)
            requires n == 0x10_0000_0000_0000, unit == 2 * half;
    }
}

/// A number whose scale is far above that of another rounds to itself when the other is added
/// or taken away.
proof fn lemma_absorbs(ma: int, sa: int, mb: int, sb: int, v: int)
    requires
        0x10_0000_0000_0000 <= ma < 0x20_0000_0000_0000,
        0 < mb < 0x20_0000_0000_0000,
        0 <= sb,
        sb + 55 <= sa,
        sa <= 2045,
        v == ma * pow2(sa as nat) + mb * pow2(sb as nat) || v == ma * pow2(sa as nat) - mb * pow2(
            sb as nat,
        ),
    ensures
        rounds_to(v, 1, sa * 0x10_0000_0000_0000 + ma),
        v > 0,
{
    let big = pow2(sa as nat) as int;
    let small = pow2(sb as nat) as int;
    lemma_pow2_pos(sb as nat);
    lemma_pow2_pos(sa as nat);
    lemma2_to64();
    lemma2_to64_rest();
    lemma_pow2_adds(55, sb as nat);
    if sb + 55 < sa {
        lemma_pow2_strictly_increases((sb + 55) as nat, sa as nat);
    }
    assert(0x80_0000_0000_0000 * small <= big);
    assert(4 * (mb * small) < big) by (nonlinear_arith)
        requires mb < 0x20_0000_0000_0000, 0x80_0000_0000_0000 * small <= big, small > 0;
    let r = sa * 0x10_0000_0000_0000 + ma;
    lemma_step(sa, ma);
    lemma_step_below(sa, ma);
    let a = magnitude_value(r - 1);
    let b = magnitude_value(r);
    let c = magnitude_value(r + 1);
    assert((ma + 1) * big == ma * big + big) by (nonlinear_arith);
    assert((a + b) * 1 == a + b && (b + c) * 1 == b + c);
    assert(ma * big >= big) by (nonlinear_arith)
        requires ma >= 0x10_0000_0000_0000, big > 0;
    assert(mb * small > 0) by (nonlinear_arith)
        requires mb > 0, small > 0;
}

impl Float64 {
    /// The number with the other sign.
    pub open spec fn negated(self) -> Float64 {
        if self.negative() {
            Float64((self.0 - 0x8000_0000_0000_0000) as u64)
        } else {
            Float64((self.0 + 0x8000_0000_0000_0000) as u64)
        }
    }

    /// The number without its sign.
    pub open spec fn unsigned(self) -> Float64 {
        Float64((self.0 % 0x8000_0000_0000_0000) as u64)
    }

    /// The correctly rounded sum. A sum of zero is positive unless both terms are negative.
    pub open spec fn sum(self, other: Float64) -> Float64 {
        let v = self.value() + other.value();
        if self.nan() || other.nan() || (self.infinite() && other.infinite() && self.negative()
            != other.negative()) {
            Float64(0x7ff8_0000_0000_0000)
        } else if self.infinite() {
            self
        } else if other.infinite() {
            other
        } else if v == 0 {
            Float64::with_sign(self.negative() && other.negative(), 0)
        } else {
            Float64::with_sign(
                v < 0,
                rounded(
                    if v < 0 {
                        -v
                    } else {
                        v
                    },
                    1,
                ),
            )
        }
    }

    /// The correctly rounded difference.
    pub open spec fn difference(self, other: Float64) -> Float64 {
        self.sum(other.negated())
    }

    /// The number with the other sign.
    pub fn neg(self) -> (res: Float64)
        ensures
            res == self.negated(),
    {
        if self.0 >= SIGN_BIT {
            Float64(self.0 - SIGN_BIT)
        } else {
            Float64(self.0 + SIGN_BIT)
        }
    }

    /// The number without its sign.
    pub fn abs(self) -> (res: Float64)
        ensures
            res == self.unsigned(),
    {
        Float64(self.0 % SIGN_BIT)
    }

    /// The sum of two finite numbers, the first of which has the larger scale.
    fn add_ordered(a: Float64, b: Float64) -> (res: Float64)
        requires
            !a.nan(),
            !a.infinite(),
            !b.nan(),
            !b.infinite(),
            scale_of(b.magnitude()) <= scale_of(a.magnitude()),
        ensures
            res == a.sum(b),
    {
        let (ma, sa): (u64, i32) = Float64::decompose(a.0 % SIGN_BIT);
        let (mb, sb): (u64, i32) = Float64::decompose(b.0 % SIGN_BIT);
        let a_neg: bool = a.0 >= SIGN_BIT;
        let b_neg: bool = b.0 >= SIGN_BIT;
        let ghost pa = pow2(sa as nat) as int;
        let ghost pb = pow2(sb as nat) as int;
        let ghost v = a.value() + b.value();
        let d: i32 = sa - sb;
        proof {
            lemma2_to64();
            lemma_pow2_pos(sa as nat);
            lemma_pow2_pos(sb as nat);
            lemma_pow2_adds(d as nat, sb as nat);
            lemma_step(0, 0);
            lemma_rounded_of_zero();
        }
        if d >= 55 {
            proof {
                assert(ma >= 0x10_0000_0000_0000);
            }
            if mb == 0 {
                proof {
                    assert(mb * pb == 0) by (nonlinear_arith)
                        requires mb == 0;
                    assert(magnitude_value(a.magnitude()) * 1 == magnitude_value(a.magnitude()));
                    lemma_exact_value_rounds_to_itself(a.magnitude(), 1);
                    assert(ma * pa > 0) by (nonlinear_arith)
                        requires ma > 0, pa > 0;
                }
                return a;
            }
            proof {
                let size = if v < 0 { -v } else { v };
                lemma_absorbs(ma as int, sa as int, mb as int, sb as int, ma * pa + mb * pb);
                lemma_absorbs(ma as int, sa as int, mb as int, sb as int, ma * pa - mb * pb);
                assert(ma * pa > 0 && mb * pb > 0) by (nonlinear_arith)
                    requires ma > 0, pa > 0, mb > 0, pb > 0;
                assert((v < 0) == a_neg);
                assert(a == Float64::with_sign(a_neg, a.magnitude()));
                assert(size == ma * pa + mb * pb || size == ma * pa - mb * pb);
                lemma_absorbs(ma as int, sa as int, mb as int, sb as int, size);
                lemma_rounded(size, 1, a.magnitude());
            }
            return a;
        }
        let p: u128 = power_of_two(d as u32);
        proof {
            lemma2_to64();
            lemma2_to64_rest();
            if d < 54 {
                lemma_pow2_strictly_increases(d as nat, 54);
            }
            assert(ma * p <= 0x1f_ffff_ffff_ffff * 0x40_0000_0000_0000) by (nonlinear_arith)
                requires ma <= 0x1f_ffff_ffff_ffff, p <= 0x40_0000_0000_0000;
            assert(ma * p * pb == ma * pa) by (nonlinear_arith)
                requires p * pb == pa;
        }
        let wide_a: u128 = ma as u128 * p;
        let (total, negative): (u128, bool) = if a_neg == b_neg {
            (wide_a + mb as u128, a_neg)
        } else if wide_a >= mb as u128 {
            (wide_a - mb as u128, a_neg)
        } else {
            (mb as u128 - wide_a, b_neg)
        };
        let ghost size = if v < 0 { -v } else { v };
        proof {
            assert(wide_a * pb == ma * pa);
            assert(ma * pa >= 0 && mb * pb >= 0) by (nonlinear_arith)
                requires ma >= 0, pa > 0, mb >= 0, pb > 0;
            if wide_a >= mb {
                assert(wide_a * pb >= mb * pb) by (nonlinear_arith)
                    requires wide_a >= mb, pb > 0;
            } else {
                assert(wide_a * pb <= mb * pb) by (nonlinear_arith)
                    requires wide_a <= mb, pb > 0;
            }
            assert(size == total * pb) by (nonlinear_arith)
                requires
                    (a_neg == b_neg && total == wide_a + mb && size == ma * pa + mb * pb) || (a_neg
                        != b_neg && total == wide_a - mb && size == ma * pa - mb * pb && wide_a
                        >= mb) || (a_neg != b_neg && total == mb - wide_a && size == mb * pb - ma
                        * pa),
                    wide_a * pb == ma * pa,
            ;
        }
        if total == 0 {
            return Float64::signed(a_neg && b_neg, 0);
        }
        let r: u64 = round_ratio(total, 1, sb);
        proof {
            assert(1 * crate::rounding::two_to_den(sb as int) == 1) by {
                crate::rounding::lemma_two_to(sb as int, 0);
            }
            assert(total * pb > 0) by (nonlinear_arith)
                requires total > 0, pb > 0;
            if wide_a > mb {
                assert(wide_a * pb > mb * pb) by (nonlinear_arith)
                    requires wide_a > mb, pb > 0;
            } else if wide_a < mb {
                assert(wide_a * pb < mb * pb) by (nonlinear_arith)
                    requires wide_a < mb, pb > 0;
            }
            assert(negative == (v < 0));
            lemma_rounded(size, 1, r as int);
        }
        Float64::signed(negative, r)
    }

    /// The sum, rounded to nearest with ties to even. A NaN result is the quiet NaN
    /// `0x7ff8000000000000`.
    pub fn add(self, other: Float64) -> (res: Float64)
        ensures
            res == self.sum(other),
    {
        let a: u64 = self.0 % SIGN_BIT;
        let b: u64 = other.0 % SIGN_BIT;
        if a > INF_MAGNITUDE || b > INF_MAGNITUDE || (a == INF_MAGNITUDE && b == INF_MAGNITUDE && (
        self.0 >= SIGN_BIT) != (other.0 >= SIGN_BIT)) {
            return Float64(0x7ff8_0000_0000_0000);
        }
        if a == INF_MAGNITUDE {
            return self;
        }
        if b == INF_MAGNITUDE {
            return other;
        }
        if b <= a {
            Float64::add_ordered(self, other)
        } else {
            Float64::add_ordered(other, self)
        }
    }

    /// The difference, rounded to nearest with ties to even.
    pub fn sub(self, other: Float64) -> (res: Float64)
        ensures
            res == self.difference(other),
    {
        self.add(other.neg())
    }
}

proof fn lemma_rounded_of_zero()
    ensures
        rounded(0, 1) == 0,
{
    lemma_step(0, 0);
    lemma_exact_value_rounds_to_itself(0, 1);
}

impl PartialEq for Float64 {
    fn eq(&self, other: &Float64) -> (res: bool) {
        self.equals(*other)
    }
}

impl vstd::std_specs::cmp::PartialEqSpecImpl for Float64 {
    open spec fn obeys_eq_spec() -> bool {
        true
    }

    open spec fn eq_spec(&self, other: &Float64) -> bool {
        self.same_number(*other)
    }
}

/// A larger value never rounds to a smaller magnitude.
pub proof fn lemma_rounding_is_monotone(n1: int, d1: int, r1: int, n2: int, d2: int, r2: int)
    requires
        d1 > 0,
        d2 > 0,
        n1 * d2 <= n2 * d1,
        rounds_to(n1, d1, r1),
        rounds_to(n2, d2, r2),
    ensures
        r1 <= r2,
{
    if r2 < r1 {
        // 2 n2 / d2 is at most the upper midpoint of r2, and 2 n1 / d1 at least the lower
        // midpoint of r1.
        let a = magnitude_value(r2);
        let b = magnitude_value(r2 + 1);
        let c = magnitude_value(r1 - 1);
        let d = magnitude_value(r1);
        let high = a + b;
        let low = c + d;
        assert(high <= low) by {
            if r2 + 1 < r1 {
                lemma_magnitude_value_increases(r2, r1 - 1);
                lemma_magnitude_value_increases(r2 + 1, r1);
            }
        }
        assert(low * d1 <= 2 * n1 && 2 * n2 <= high * d2);
        assert(low * d1 * d2 <= 2 * (n1 * d2)) by (nonlinear_arith)
            requires low * d1 <= 2 * n1, d2 > 0;
        assert(2 * (n2 * d1) <= high * d2 * d1) by (nonlinear_arith)
            requires 2 * n2 <= high * d2, d1 > 0;
        assert(high * d2 * d1 <= low * d1 * d2) by (nonlinear_arith)
            requires high <= low, d1 > 0, d2 > 0;
        // Both are ties on one midpoint, so both patterns are even although adjacent.
        assert(low * d1 == 2 * n1 && 2 * n2 == high * d2 && high == low) by (nonlinear_arith)
            requires
                low * d1 <= 2 * n1,
                2 * n2 <= high * d2,
                n1 * d2 <= n2 * d1,
                high <= low,
                d1 > 0,
                d2 > 0,
        ;
        assert(r2 + 1 == r1) by {
            if r2 + 1 < r1 {
                lemma_magnitude_value_increases(r2, r1 - 1);
                lemma_magnitude_value_increases(r2 + 1, r1);
            }
        }
    }
}

/// A value that a magnitude has exactly rounds to that magnitude.
pub proof fn lemma_exact_value_rounds_to_itself(m: int, den: int)
    requires
        0 <= m <= 0x7ff0_0000_0000_0000,
        den > 0,
    ensures
        rounds_to(magnitude_value(m) * den, den, m),
        rounded(magnitude_value(m) * den, den) == m,
{
    let v = magnitude_value(m);
    if m > 0 {
        let u = magnitude_value(m - 1);
        lemma_adjacent(m - 1);
        assert((u + v) * den < 2 * (v * den)) by (nonlinear_arith)
            requires u < v, den > 0;
    }
    let w = magnitude_value(m + 1);
    lemma_adjacent(m);
    assert(2 * (v * den) < (v + w) * den) by (nonlinear_arith)
        requires v < w, den > 0;
    lemma_rounded(v * den, den, m);
}

proof fn lemma_floor_exists(num: int, den: int, top: int) -> (k: int)
    requires
        0 <= num,
        den > 0,
        0 <= top,
    ensures
        0 <= k <= top,
        magnitude_value(k) * den <= num,
        k < top ==> num < magnitude_value(k + 1) * den,
    decreases top,
{
    if magnitude_value(top) * den <= num {
        top
    } else {
        if top == 0 {
            lemma_step(0, 0);
            assert(0 * den == 0);
        }
        lemma_floor_exists(num, den, top - 1)
    }
}

/// Every value that is not negative has a rounding, and `rounded` is it.
pub proof fn lemma_rounding_exists(num: int, den: int)
    requires
        0 <= num,
        den > 0,
    ensures
        rounds_to(num, den, rounded(num, den)),
{
    let k = lemma_floor_exists(num, den, 0x7ff0_0000_0000_0000);
    if k == 0x7ff0_0000_0000_0000 {
        let a = magnitude_value(k - 1);
        let b = magnitude_value(k);
        lemma_adjacent(k - 1);
        assert((a + b) * den < 2 * num) by (nonlinear_arith)
            requires a < b, b * den <= num, den > 0;
        assert(rounds_to(num, den, k));
    } else {
        let mid = (magnitude_value(k) + magnitude_value(k + 1)) * den;
        let r = if 2 * num < mid || (2 * num == mid && k % 2 == 0) {
            k
        } else {
            k + 1
        };
        lemma_between(num, den, k, r);
        assert(rounds_to(num, den, r));
    }
}

/// The order of finite numbers is the order of their values.
pub proof fn lemma_order_is_order_of_values(a: Float64, b: Float64)
    requires
        !a.nan(),
        !b.nan(),
    ensures
        a.below(b) <==> a.value() < b.value(),
        a.same_number(b) <==> a.value() == b.value(),
{
    lemma_order_gives_values(a, b);
    lemma_order_gives_values(b, a);
}

proof fn lemma_order_gives_values(a: Float64, b: Float64)
    requires
        !a.nan(),
        !b.nan(),
    ensures
        a.order() < b.order() ==> a.value() < b.value(),
        a.order() == b.order() ==> a.value() == b.value(),
{
    let x = a.magnitude();
    let y = b.magnitude();
    lemma_step(0, 0);
    if x > 0 {
        lemma_magnitude_value_increases(0, x);
    }
    if y > 0 {
        lemma_magnitude_value_increases(0, y);
    }
    if x < y {
        lemma_magnitude_value_increases(x, y);
    } else if y < x {
        lemma_magnitude_value_increases(y, x);
    }
}

} // verus!
