//! Conversions from and to other formats.

use crate::float32::{magnitude_value, rounded, Float32, INF_MAGNITUDE, SIGN_BIT};
use crate::float64::Float64;
use vstd::arithmetic::power2::*;
use vstd::prelude::*;

verus! {

impl Float32 {
    /// The single-precision number nearest to a double-precision one.
    pub open spec fn narrowed(x: Float64) -> Float32 {
        if x.nan() {
            Float32(0x7fc0_0000)
        } else if x.infinite() {
            Float32::with_sign(x.negative(), 0x7f80_0000)
        } else {
            Float32::with_sign(
                x.negative(),
                rounded(crate::float64::magnitude_value(x.magnitude()), pow2(925) as int),
            )
        }
    }

    /// The whole part as a byte: 0 for what is negative or not a number, 255 for what is
    /// larger.
    pub open spec fn byte(self) -> int {
        if self.nan() || self.negative() {
            0
        } else if self.infinite() || magnitude_value(self.magnitude()) / pow2(149) as int > 255 {
            255
        } else {
            magnitude_value(self.magnitude()) / pow2(149) as int
        }
    }

    /// The single-precision number nearest to a double-precision one, ties to even. A NaN
    /// becomes the quiet NaN `0x7fc00000`.
    pub fn from_f64(x: Float64) -> (res: Float32)
        ensures
            res == Float32::narrowed(x),
    {
        let m: u64 = x.0 % 0x8000_0000_0000_0000;
        let negative: bool = x.0 >= 0x8000_0000_0000_0000;
        if m > 0x7ff0_0000_0000_0000 {
            return Float32(0x7fc0_0000);
        }
        if m == 0x7ff0_0000_0000_0000 {
            return Float32::signed(negative, INF_MAGNITUDE);
        }
        let (significand, s): (u64, i32) = Float64::decompose(m);
        let ghost num = crate::float64::magnitude_value(m as int);
        let ghost den = pow2(925) as int;
        proof {
            lemma_pow2_pos(925);
        }
        if significand == 0 {
            proof {
                assert(0 * pow2(s as nat) == 0);
                super::lemma_step(0, 0);
                super::lemma_exact_value_rounds_to_itself(0, den);
                assert(0 * den == 0);
            }
            return Float32::signed(negative, 0);
        }
        let t: i32 = s - 925;
        let r: u32 = super::round_ratio(significand, 1, t);
        proof {
            let up = crate::rounding::two_to_num(t as int);
            let dn = crate::rounding::two_to_den(t as int);
            let unit = pow2(s as nat) as int;
            lemma2_to64();
            crate::rounding::lemma_two_to(t as int, 0);
            if t >= 0 {
                lemma_pow2_adds(925, t as nat);
            } else {
                lemma_pow2_adds(s as nat, (-t) as nat);
            }
            assert(up * den == unit * dn) by (nonlinear_arith)
                requires
                    (dn == 1 && den * up == unit) || (up == 1 && unit * dn == den),
            ;
            let n1 = significand * up;
            let d1 = 1 * dn;
            assert(n1 * den == significand * (up * den)) by (nonlinear_arith)
                requires
                    n1 == significand * up,
            ;
            assert(num * d1 == significand * (unit * dn)) by (nonlinear_arith)
                requires
                    num == significand * unit,
                    d1 == dn,
            ;
            super::lemma_same_ratio(n1, d1, num, den, r as int);
            super::lemma_rounded(num, den, r as int);
        }
        Float32::signed(negative, r)
    }

    /// The whole part as a byte.
    pub fn to_byte(self) -> (res: u8)
        ensures
            res as int == self.byte(),
    {
        let m: u32 = self.0 % SIGN_BIT;
        if m > INF_MAGNITUDE || self.0 >= SIGN_BIT {
            return 0;
        }
        if m == INF_MAGNITUDE {
            return 255;
        }
        let (significand, s): (u64, i32) = Float32::decompose(m);
        let ghost v = magnitude_value(m as int);
        let ghost one = pow2(149) as int;
        proof {
            lemma_pow2_pos(149);
            lemma2_to64();
        }
        if s >= 149 {
            proof {
                // At least 2^23.
                lemma_pow2_adds(149, (s - 149) as nat);
                lemma_pow2_pos((s - 149) as nat);
                let extra = pow2((s - 149) as nat) as int;
                assert(v == (significand * extra) * one) by (nonlinear_arith)
                    requires
                        v == significand * pow2(s as nat),
                        pow2(s as nat) == one * extra,
                ;
                assert(significand * extra > 255) by (nonlinear_arith)
                    requires
                        significand >= 0x80_0000,
                        extra > 0,
                ;
                lemma_whole_part(v, one, significand * extra, 0);
            }
            return 255;
        }
        let shift: i32 = 149 - s;
        let ghost scale = pow2(s as nat) as int;
        proof {
            lemma_pow2_pos(s as nat);
            lemma_pow2_adds(s as nat, shift as nat);
            lemma_pow2_pos(shift as nat);
        }
        if shift > 24 {
            proof {
                lemma_pow2_strictly_increases(24, shift as nat);
                assert(v < one) by (nonlinear_arith)
                    requires
                        v == significand * scale,
                        one == scale * pow2(shift as nat),
                        significand < pow2(shift as nat),
                        scale > 0,
                ;
                assert(v >= 0) by (nonlinear_arith)
                    requires
                        v == significand * scale,
                        significand >= 0,
                        scale > 0,
                ;
                assert(0 * one == 0);
                lemma_whole_part(v, one, 0, v);
            }
            return 0;
        }
        let p: u128 = crate::rounding::power_of_two(shift as u32);
        let whole: u128 = significand as u128 / p;
        proof {
            let rest = significand as int % p as int;
            vstd::arithmetic::div_mod::lemma_fundamental_div_mod(significand as int, p as int);
            assert(v == whole * one + rest * scale) by (nonlinear_arith)
                requires
                    v == significand * scale,
                    significand == p * whole + rest,
                    one == scale * p,
            ;
            assert(0 <= rest * scale < one) by (nonlinear_arith)
                requires
                    0 <= rest < p,
                    one == scale * p,
                    scale > 0,
            ;
            lemma_whole_part(v, one, whole as int, rest * scale);
        }
        if whole > 255 {
            255
        } else {
            whole as u8
        }
    }
}

/// `v` is `whole` times `one` and a rest, so `whole` is the whole part of the quotient.
proof fn lemma_whole_part(v: int, one: int, whole: int, rest: int)
    requires
        one > 0,
        v == whole * one + rest,
        0 <= rest < one,
    ensures
        v / one == whole,
{
    vstd::arithmetic::div_mod::lemma_fundamental_div_mod_converse(v, one, whole, rest);
}

} // verus!
