//! Spans of time: seconds in double precision as whole nanoseconds.

use crate::float64::{magnitude_value, Float64, INF_MAGNITUDE, SIGN_BIT};
use vstd::arithmetic::div_mod::*;
use vstd::arithmetic::power2::*;
use vstd::prelude::*;

verus! {

/// Nanoseconds in a second.
pub const NANOS_PER_SEC: u64 = 1_000_000_000;

/// The longest span: `2^64` seconds less one nanosecond.
pub const SPAN_MAX: u128 = 18_446_744_073_709_551_615_999_999_999;

/// The whole number nearest to `num / den`; of two equally near ones the even one.
pub open spec fn nearest(num: int, den: int) -> int {
    let q = num / den;
    let twice = 2 * (num % den);
    if twice < den || (twice == den && q % 2 == 0) {
        q
    } else {
        q + 1
    }
}

impl Float64 {
    /// So many seconds in nanoseconds, rounded to nearest with ties to even: 0 for what is
    /// negative or not a number, and at most the longest span.
    #[verifier::opaque]
    pub open spec fn as_nanos(self) -> int {
        let n = nearest(magnitude_value(self.magnitude()) * NANOS_PER_SEC, pow2(1074) as int);
        if self.nan() || self.negative() {
            0
        } else if self.infinite() || n > SPAN_MAX {
            SPAN_MAX as int
        } else {
            n
        }
    }

    /// So many seconds in nanoseconds.
    pub fn to_nanos(self) -> (res: u128)
        ensures
            res as int == self.as_nanos(),
    {
        reveal(Float64::as_nanos);
        let m: u64 = self.0 % SIGN_BIT;
        if m > INF_MAGNITUDE || self.0 >= SIGN_BIT {
            return 0;
        }
        if m == INF_MAGNITUDE {
            return SPAN_MAX;
        }
        let (significand, s): (u64, i32) = Float64::decompose(m);
        let ticks: u128 = significand as u128 * NANOS_PER_SEC as u128;
        let ghost scale = pow2(s as nat) as int;
        let ghost one = pow2(1074) as int;
        let ghost num = magnitude_value(m as int) * NANOS_PER_SEC;
        proof {
            lemma_pow2_pos(1074);
            lemma_pow2_pos(s as nat);
            lemma2_to64();
            lemma2_to64_rest();
            assert(num == ticks * scale) by (nonlinear_arith)
                requires
                    num == (significand * scale) * NANOS_PER_SEC,
                    ticks == significand * NANOS_PER_SEC,
            ;
        }
        if significand == 0 {
            proof {
                assert(0 * scale == 0);
                lemma_nearest(num, one, 0, 0);
            }
            return 0;
        }
        if s >= 1074 {
            let ghost extra = pow2((s - 1074) as nat) as int;
            let ghost whole = ticks * extra;
            proof {
                lemma_pow2_adds(1074, (s - 1074) as nat);
                lemma_pow2_pos((s - 1074) as nat);
                assert(num == whole * one) by (nonlinear_arith)
                    requires
                        num == ticks * scale,
                        scale == one * extra,
                        whole == ticks * extra,
                ;
                lemma_nearest(num, one, whole, 0);
            }
            if s - 1074 >= 12 {
                proof {
                    if s - 1074 > 12 {
                        lemma_pow2_strictly_increases(12, (s - 1074) as nat);
                    }
                    assert(whole >= 0x1_0000_0000_0000_0000 * NANOS_PER_SEC) by (nonlinear_arith)
                        requires
                            whole == ticks * extra,
                            ticks >= 0x10_0000_0000_0000 * NANOS_PER_SEC,
                            extra >= 0x1000,
                    ;
                }
                return SPAN_MAX;
            }
            proof {
                lemma_pow2_strictly_increases((s - 1074) as nat, 12);
                assert(0 <= whole < 0x1000 * 0x20_0000_0000_0000 * 0x4000_0000)
                    by (nonlinear_arith)
                    requires
                        whole == ticks * extra,
                        0 <= ticks < 0x20_0000_0000_0000 * 0x4000_0000,
                        0 < extra < 0x1000,
                ;
            }
            let n: u128 = ticks * crate::rounding::power_of_two((s - 1074) as u32);
            return if n > SPAN_MAX {
                SPAN_MAX
            } else {
                n
            };
        }
        let shift: i32 = 1074 - s;
        proof {
            lemma_pow2_adds(s as nat, shift as nat);
        }
        if shift >= 100 {
            proof {
                if shift > 100 {
                    lemma_pow2_strictly_increases(100, shift as nat);
                }
                lemma_pow2_adds(50, 50);
                assert(0 <= 2 * num < one) by (nonlinear_arith)
                    requires
                        num == ticks * scale,
                        one == scale * pow2(shift as nat),
                        0 <= 2 * ticks < pow2(shift as nat),
                        scale > 0,
                ;
                lemma_nearest(num, one, 0, num);
            }
            return 0;
        }
        let p: u128 = crate::rounding::power_of_two(shift as u32);
        proof {
            lemma_pow2_pos(shift as nat);
        }
        let q: u128 = ticks / p;
        let r: u128 = ticks % p;
        proof {
            lemma_pow2_pos(shift as nat);
            lemma_pow2_strictly_increases(shift as nat, 100);
            lemma_pow2_adds(50, 50);
            lemma_fundamental_div_mod(ticks as int, p as int);
            let rest = r * scale;
            assert(num == q * one + rest) by (nonlinear_arith)
                requires
                    num == ticks * scale,
                    ticks == p * q + r,
                    one == scale * p,
                    rest == r * scale,
            ;
            assert(0 <= rest < one) by (nonlinear_arith)
                requires
                    0 <= r < p,
                    one == scale * p,
                    rest == r * scale,
                    scale > 0,
            ;
            lemma_nearest(num, one, q as int, rest);
            assert((2 * r < p <==> 2 * rest < one) && (2 * r == p <==> 2 * rest == one))
                by (nonlinear_arith)
                requires
                    one == scale * p,
                    rest == r * scale,
                    scale > 0,
            ;
        }
        if 2 * r < p || (2 * r == p && q % 2 == 0) {
            q
        } else {
            q + 1
        }
    }
}

/// The nearest whole number from the quotient and the remainder.
proof fn lemma_nearest(num: int, den: int, q: int, r: int)
    requires
        den > 0,
        num == q * den + r,
        0 <= r < den,
    ensures
        nearest(num, den) == (if 2 * r < den || (2 * r == den && q % 2 == 0) {
            q
        } else {
            q + 1
        }),
{
    lemma_fundamental_div_mod_converse(num, den, q, r);
}

/// A larger number has no smaller nearest whole number.
proof fn lemma_nearest_is_monotone(a: int, b: int, den: int)
    requires
        den > 0,
        a <= b,
    ensures
        nearest(a, den) <= nearest(b, den),
{
    lemma_fundamental_div_mod(a, den);
    lemma_fundamental_div_mod(b, den);
    lemma_div_is_ordered(a, b, den);
    if a / den == b / den {
        assert(a % den <= b % den);
    }
}

/// A longer span has no fewer nanoseconds.
pub proof fn lemma_nanos_are_monotone(x: Float64, y: Float64)
    requires
        x.at_most(y),
        !x.negative(),
    ensures
        x.as_nanos() <= y.as_nanos(),
{
    reveal(Float64::as_nanos);
    let one = pow2(1074) as int;
    lemma_pow2_pos(1074);
    let a = x.magnitude();
    let b = y.magnitude();
    super::lemma_step(0, 0);
    if y.negative() {
        assert(a == 0);
        assert(0 * NANOS_PER_SEC == 0);
        lemma_nearest(0, one, 0, 0);
    } else {
        assert(a <= b);
        if a < b {
            super::lemma_magnitude_value_increases(a, b);
        }
        let v = magnitude_value(a);
        let w = magnitude_value(b);
        assert(v * NANOS_PER_SEC <= w * NANOS_PER_SEC) by (nonlinear_arith)
            requires
                v <= w,
        ;
        lemma_nearest_is_monotone(v * NANOS_PER_SEC, w * NANOS_PER_SEC, one);
    }
}

/// Comparing numbers is comparing values.
proof fn lemma_values_in_order(x: Float64, y: Float64)
    requires
        x.at_most(y),
    ensures
        x.value() <= y.value(),
{
    let a = x.magnitude();
    let b = y.magnitude();
    super::lemma_step(0, 0);
    if a > 0 {
        super::lemma_magnitude_value_increases(0, a);
    }
    if b > 0 {
        super::lemma_magnitude_value_increases(0, b);
    }
    if a < b {
        super::lemma_magnitude_value_increases(a, b);
    } else if b < a {
        super::lemma_magnitude_value_increases(b, a);
    }
}

proof fn lemma_nothing_takes_no_time(x: Float64)
    requires
        x.negative() || x.zero(),
    ensures
        x.as_nanos() == 0,
{
    reveal(Float64::as_nanos);
    if x.zero() {
        super::lemma_step(0, 0);
        lemma_pow2_pos(1074);
        assert(0 * NANOS_PER_SEC == 0);
        lemma_nearest(0, pow2(1074) as int, 0, 0);
    }
}

/// What comes later is no fewer nanoseconds away from the same start.
pub proof fn lemma_later_is_further(x: Float64, y: Float64, from: Float64)
    requires
        x.finite(),
        y.finite(),
        from.finite(),
        x.at_most(y),
    ensures
        x.difference(from).larger(Float64(0)).as_nanos() <= y.difference(from).larger(
            Float64(0),
        ).as_nanos(),
{
    lemma_values_in_order(x, y);
    let v = x.value() - from.value();
    let w = y.value() - from.value();
    let d = x.difference(from);
    let e = y.difference(from);
    assert(from.negated().value() == -from.value()) by {
        super::lemma_step(0, 0);
    }
    lemma_nanos_are_not_negative(e.larger(Float64(0)));
    if v <= 0 {
        if v < 0 {
            super::lemma_rounding_exists(-v, 1);
        }
        lemma_nothing_takes_no_time(d.larger(Float64(0)));
    } else {
        super::lemma_rounding_exists(v, 1);
        super::lemma_rounding_exists(w, 1);
        let r = crate::float64::rounded(v, 1);
        let t = crate::float64::rounded(w, 1);
        super::lemma_rounding_is_monotone(v, 1, r, w, 1, t);
        assert(d == Float64::with_sign(false, r));
        assert(e == Float64::with_sign(false, t));
        assert(d.larger(Float64(0)) == d);
        assert(e.larger(Float64(0)) == e);
        lemma_nanos_are_monotone(d, e);
    }
}

/// A span has some number of nanoseconds, or none, and they are within the range.
pub proof fn lemma_nanos_are_not_negative(x: Float64)
    ensures
        0 <= x.as_nanos() <= SPAN_MAX,
{
    reveal(Float64::as_nanos);
    lemma_pow2_pos(1074);
    super::lemma_step(0, 0);
    if x.magnitude() > 0 {
        super::lemma_magnitude_value_increases(0, x.magnitude());
    }
    let num = magnitude_value(x.magnitude()) * NANOS_PER_SEC;
    assert(num >= 0) by (nonlinear_arith)
        requires
            num == magnitude_value(x.magnitude()) * NANOS_PER_SEC,
            magnitude_value(x.magnitude()) >= 0,
    ;
    lemma_div_pos_is_pos(num, pow2(1074) as int);
}

/// No time passes between a time and itself.
pub proof fn lemma_span_since_itself(x: Float64)
    requires
        x.finite(),
    ensures
        x.difference(x).larger(Float64(0)).as_nanos() == 0,
{
    super::lemma_step(0, 0);
    assert(x.negated().value() == -x.value());
    lemma_nothing_takes_no_time(x.difference(x).larger(Float64(0)));
}

/// A span that is not negative is given to the nearest nanosecond.
pub proof fn lemma_nanos_are_nearest(x: Float64)
    requires
        x.finite(),
        Float64(0).at_most(x),
        x.as_nanos() < SPAN_MAX,
    ensures
        x.larger(Float64(0)).as_nanos() == x.as_nanos(),
        2 * crate::float64::error::distance(
            x.as_nanos() * pow2(1074),
            x.value() * NANOS_PER_SEC,
        ) <= pow2(1074),
{
    super::lemma_step(0, 0);
    if x.zero() {
        lemma_nothing_takes_no_time(x);
        lemma_nothing_takes_no_time(Float64(0));
        lemma_pow2_pos(1074);
        assert(0 * pow2(1074) == 0);
        assert(0 * NANOS_PER_SEC == 0);
    } else {
        reveal(Float64::as_nanos);
        let one = pow2(1074) as int;
        lemma_pow2_pos(1074);
        let num = magnitude_value(x.magnitude()) * NANOS_PER_SEC;
        lemma_fundamental_div_mod(num, one);
        let q = num / one;
        assert((q + 1) * one == q * one + one) by (nonlinear_arith);
        assert(one * q == q * one) by (nonlinear_arith);
    }
}

} // verus!
