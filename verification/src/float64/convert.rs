//! Conversions to and from double precision, and the smaller and larger of two numbers.

use crate::float32::Float32;
use crate::float64::{magnitude_value, rounded, Float64, INF_MAGNITUDE, SIGN_BIT};
use vstd::arithmetic::power2::*;
use vstd::prelude::*;

verus! {

impl Float64 {
    /// The number nearest to a whole number that is not negative.
    pub open spec fn of_whole(n: nat) -> Float64 {
        Float64::with_sign(false, rounded((n * pow2(1074)) as int, 1))
    }

    /// The double-precision number nearest to a single-precision one.
    pub open spec fn widened(x: Float32) -> Float64 {
        if x.nan() {
            Float64(0x7ff8_0000_0000_0000)
        } else if x.infinite() {
            Float64::with_sign(x.negative(), 0x7ff0_0000_0000_0000)
        } else {
            Float64::with_sign(
                x.negative(),
                rounded(
                    (crate::float32::magnitude_value(x.magnitude()) * pow2(925)) as int,
                    1,
                ),
            )
        }
    }

    /// The smaller of two numbers; where one is not a number, the other.
    pub open spec fn smaller(self, other: Float64) -> Float64 {
        if self.nan() || other.below(self) {
            other
        } else {
            self
        }
    }

    /// The smaller of two numbers; where one is not a number, the other.
    pub fn min(self, other: Float64) -> (res: Float64)
        ensures
            res == self.smaller(other),
    {
        if self.is_nan() || other.lt(self) {
            other
        } else {
            self
        }
    }

    /// The larger of two numbers; where one is not a number, the other.
    pub open spec fn larger(self, other: Float64) -> Float64 {
        if self.nan() || self.below(other) {
            other
        } else {
            self
        }
    }

    /// The larger of two numbers; where one is not a number, the other.
    pub fn max(self, other: Float64) -> (res: Float64)
        ensures
            res == self.larger(other),
    {
        if self.is_nan() || self.lt(other) {
            other
        } else {
            self
        }
    }

    /// The number nearest to a whole number, ties to even.
    pub fn from_u64(n: u64) -> (res: Float64)
        ensures
            res == Float64::of_whole(n as nat),
    {
        if n == 0 {
            proof {
                super::lemma_step(0, 0);
                assert(0 * pow2(1074) == 0);
                super::lemma_exact_value_rounds_to_itself(0, 1);
            }
            return Float64(0);
        }
        let r: u64 = super::round_ratio(n as u128, 1, 1074);
        proof {
            lemma2_to64();
            assert(1 * crate::rounding::two_to_den(1074) == 1);
            super::lemma_rounded(n * pow2(1074), 1, r as int);
        }
        Float64::signed(false, r)
    }

    /// A single-precision number in double precision. A NaN becomes the quiet NaN `0x7ff8000000000000`.
    pub fn from_f32(x: Float32) -> (res: Float64)
        ensures
            res == Float64::widened(x),
    {
        let m: u32 = x.0 % 0x8000_0000;
        let negative: bool = x.0 >= 0x8000_0000;
        if m > 0x7f80_0000 {
            return Float64(0x7ff8_0000_0000_0000);
        }
        if m == 0x7f80_0000 {
            return Float64::signed(negative, INF_MAGNITUDE);
        }
        let (significand, s): (u64, i32) = Float32::decompose(m);
        if significand == 0 {
            proof {
                assert(0 * pow2(s as nat) == 0);
                assert(0 * pow2(925) == 0);
                super::lemma_step(0, 0);
                super::lemma_exact_value_rounds_to_itself(0, 1);
            }
            return Float64::signed(negative, 0);
        }
        let r: u64 = super::round_ratio(significand as u128, 1, s + 925);
        proof {
            lemma2_to64();
            assert(1 * crate::rounding::two_to_den(s + 925) == 1);
            lemma_pow2_adds(s as nat, 925);
            let v = crate::float32::magnitude_value(m as int);
            assert(v * pow2(925) == significand * pow2((s + 925) as nat)) by (nonlinear_arith)
                requires
                    v == significand * pow2(s as nat),
                    pow2(s as nat) * pow2(925) == pow2((s + 925) as nat),
            ;
            super::lemma_rounded(v * pow2(925), 1, r as int);
        }
        Float64::signed(negative, r)
    }
}

/// The least whole number that is not below `v / one`.
pub open spec fn rounded_up(v: int, one: int) -> int {
    (v + one - 1) / one
}

impl Float64 {
    /// The number rounded up to a whole one, as a count: 0 for what is not positive or not a
    /// number, the largest count for what is larger.
    pub open spec fn count(self) -> int {
        let n = rounded_up(magnitude_value(self.magnitude()), pow2(1074) as int);
        if self.nan() || self.negative() {
            0
        } else if self.infinite() || n > usize::MAX {
            usize::MAX as int
        } else {
            n
        }
    }

    /// The number rounded up to a whole one, as a count.
    pub fn to_count(self) -> (res: usize)
        ensures
            res as int == self.count(),
    {
        let m: u64 = self.0 % SIGN_BIT;
        if m > INF_MAGNITUDE || self.0 >= SIGN_BIT {
            return 0;
        }
        if m == INF_MAGNITUDE {
            return usize::MAX;
        }
        let (significand, s): (u64, i32) = Float64::decompose(m);
        let ghost v = magnitude_value(m as int);
        let ghost one = pow2(1074) as int;
        proof {
            lemma_pow2_pos(1074);
            lemma_pow2_pos(s as nat);
            lemma2_to64();
            lemma2_to64_rest();
        }
        if significand == 0 {
            proof {
                assert(0 * pow2(s as nat) == 0);
                lemma_rounded_up(v, one, 0, 0);
            }
            return 0;
        }
        if s >= 1074 {
            let ghost extra = pow2((s - 1074) as nat) as int;
            let ghost whole = significand * extra;
            proof {
                lemma_pow2_adds(1074, (s - 1074) as nat);
                lemma_pow2_pos((s - 1074) as nat);
                assert(v == whole * one) by (nonlinear_arith)
                    requires
                        v == significand * pow2(s as nat),
                        pow2(s as nat) == one * extra,
                        whole == significand * extra,
                ;
                lemma_rounded_up(v, one, whole, 0);
            }
            if s - 1074 >= 64 {
                proof {
                    if s - 1074 > 64 {
                        lemma_pow2_strictly_increases(64, (s - 1074) as nat);
                    }
                    assert(whole >= extra) by (nonlinear_arith)
                        requires
                            whole == significand * extra,
                            significand > 0,
                            extra > 0,
                    ;
                }
                return usize::MAX;
            }
            proof {
                if s - 1074 < 64 {
                    lemma_pow2_strictly_increases((s - 1074) as nat, 64);
                }
                assert(whole < 0x20_0000_0000_0000 * 0x1_0000_0000_0000_0000) by (nonlinear_arith)
                    requires
                        whole == significand * extra,
                        significand < 0x20_0000_0000_0000,
                        0 < extra <= 0x1_0000_0000_0000_0000,
                ;
            }
            let n: u128 = significand as u128 * crate::rounding::power_of_two((s - 1074) as u32);
            return if n > usize::MAX as u128 {
                usize::MAX
            } else {
                n as usize
            };
        }
        let shift: i32 = 1074 - s;
        let ghost scale = pow2(s as nat) as int;
        proof {
            lemma_pow2_adds(s as nat, shift as nat);
            lemma_pow2_pos(shift as nat);
        }
        if shift >= 54 {
            proof {
                if shift > 54 {
                    lemma_pow2_strictly_increases(54, shift as nat);
                }
                assert(0 < v <= one) by (nonlinear_arith)
                    requires
                        v == significand * scale,
                        one == scale * pow2(shift as nat),
                        0 < significand < pow2(shift as nat),
                        scale > 0,
                ;
                lemma_rounded_up(v, one, 1, one - v);
            }
            return 1;
        }
        let p: u128 = crate::rounding::power_of_two(shift as u32);
        proof {
            if shift < 54 {
                lemma_pow2_strictly_increases(shift as nat, 54);
            }
        }
        let n: u128 = (significand as u128 + p - 1) / p;
        proof {
            let top = significand + p - 1;
            let rest = top % p as int;
            vstd::arithmetic::div_mod::lemma_fundamental_div_mod(top, p as int);
            // significand = n p - (p - 1 - rest)
            let slack = (p - 1 - rest) * scale;
            assert(v == n * one - slack) by (nonlinear_arith)
                requires
                    v == significand * scale,
                    significand + p - 1 == p * n + rest,
                    one == scale * p,
                    slack == (p - 1 - rest) * scale,
            ;
            assert(0 <= slack < one) by (nonlinear_arith)
                requires
                    0 <= rest < p,
                    one == scale * p,
                    slack == (p - 1 - rest) * scale,
                    scale > 0,
            ;
            lemma_rounded_up(v, one, n as int, slack);
        }
        if n > usize::MAX as u128 {
            usize::MAX
        } else {
            n as usize
        }
    }
}

/// `v` falls short of `n` times `one` by less than `one`, so `n` is the quotient rounded up.
proof fn lemma_rounded_up(v: int, one: int, n: int, slack: int)
    requires
        one > 0,
        v == n * one - slack,
        0 <= slack < one,
    ensures
        rounded_up(v, one) == n,
{
    vstd::arithmetic::div_mod::lemma_fundamental_div_mod_converse(
        v + one - 1,
        one,
        n,
        one - 1 - slack,
    );
}

/// A number that is not negative lies from one less than its count, exclusively, to its count.
pub proof fn lemma_count_is_tight(x: Float64)
    requires
        !x.nan(),
        !x.infinite(),
        !x.negative(),
        x.count() < usize::MAX,
    ensures
        x.value() <= x.count() * pow2(1074) < x.value() + pow2(1074),
        x.count() >= 0,
{
    let one = pow2(1074) as int;
    let v = magnitude_value(x.magnitude());
    let n = rounded_up(v, one);
    lemma_pow2_pos(1074);
    super::lemma_step(0, 0);
    if x.magnitude() > 0 {
        super::lemma_magnitude_value_increases(0, x.magnitude());
    }
    vstd::arithmetic::div_mod::lemma_fundamental_div_mod(v + one - 1, one);
    vstd::arithmetic::div_mod::lemma_div_pos_is_pos(v + one - 1, one);
    assert(n * one == one * n) by (nonlinear_arith);
}

/// A larger number has no smaller count.
pub proof fn lemma_count_is_monotone(x: Float64, y: Float64)
    requires
        x.at_most(y),
    ensures
        x.count() <= y.count(),
{
    let one = pow2(1074) as int;
    lemma_pow2_pos(1074);
    super::lemma_step(0, 0);
    let a = x.magnitude();
    let b = y.magnitude();
    if y.negative() && !x.negative() {
        // Both are zero.
        lemma_rounded_up(0, one, 0, 0);
    } else if !y.negative() {
        if b > 0 {
            super::lemma_magnitude_value_increases(0, b);
        }
        let w = magnitude_value(b) + one - 1;
        vstd::arithmetic::div_mod::lemma_div_pos_is_pos(w, one);
        if !x.negative() {
            if a < b {
                super::lemma_magnitude_value_increases(a, b);
            }
            vstd::arithmetic::div_mod::lemma_div_is_ordered(magnitude_value(a) + one - 1, w, one);
        }
    }
}

} // verus!
