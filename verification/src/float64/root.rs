//! Square roots.

use crate::float64::{magnitude_value, Float64, BINADE, INF_MAGNITUDE, SIGN_BIT};
use vstd::arithmetic::power2::*;
use vstd::prelude::*;

verus! {

/// `r` is the magnitude nearest to the square root of `num`, which is in units of `2^-2148`;
/// of two equally near ones it is the even pattern.
pub open spec fn root_rounds_to(num: int, r: int) -> bool {
    &&& 0 <= r <= 0x7ff0_0000_0000_0000
    &&& r > 0 ==> {
        let low = magnitude_value(r - 1) + magnitude_value(r);
        low * low < 4 * num || (low * low == 4 * num && r % 2 == 0)
    }
    &&& r < 0x7ff0_0000_0000_0000 ==> {
        let high = magnitude_value(r) + magnitude_value(r + 1);
        4 * num < high * high || (4 * num == high * high && r % 2 == 0)
    }
}

/// The magnitude that the square root of `num` rounds to.
pub open spec fn rooted(num: int) -> int {
    choose|r: int| root_rounds_to(num, r)
}

/// At most one magnitude is the rounding of a square root.
pub proof fn lemma_root_is_unique(num: int, r1: int, r2: int)
    requires
        root_rounds_to(num, r1),
        root_rounds_to(num, r2),
    ensures
        r1 == r2,
{
    lemma_root_order(num, r1, r2);
    lemma_root_order(num, r2, r1);
}

proof fn lemma_root_order(num: int, r1: int, r2: int)
    requires
        root_rounds_to(num, r1),
        root_rounds_to(num, r2),
    ensures
        r1 >= r2,
{
    if r1 < r2 {
        let high = magnitude_value(r1) + magnitude_value(r1 + 1);
        let low = magnitude_value(r2 - 1) + magnitude_value(r2);
        super::lemma_step(0, 0);
        super::lemma_adjacent(r1);
        if r1 > 0 {
            super::lemma_magnitude_value_increases(0, r1);
        }
        if r1 + 1 < r2 {
            super::lemma_magnitude_value_increases(r1 + 1, r2);
            super::lemma_magnitude_value_increases(r1, r2 - 1);
            assert(high * high < low * low) by (nonlinear_arith)
                requires
                    0 <= high < low,
            ;
        }
    }
}

/// The whole part of a square root.
fn whole_root(m: u128) -> (q: u128)
    requires
        0x100_0000_0000_0000_0000_0000_0000 <= m < 0x400_0000_0000_0000_0000_0000_0000,
    ensures
        0x10_0000_0000_0000 <= q < 0x20_0000_0000_0000,
        q * q <= m < (q + 1) * (q + 1),
{
    let mut low: u128 = 0x10_0000_0000_0000;
    let mut high: u128 = 0x20_0000_0000_0000;
    while high - low > 1
        invariant
            0x10_0000_0000_0000 <= low < high <= 0x20_0000_0000_0000,
            low * low <= m < high * high,
        decreases high - low,
    {
        let mid: u128 = (low + high) / 2;
        proof {
            assert(mid * mid < 0x20_0000_0000_0000 * 0x20_0000_0000_0000) by (nonlinear_arith)
                requires
                    mid < 0x20_0000_0000_0000,
            ;
        }
        if mid * mid <= m {
            low = mid;
        } else {
            high = mid;
        }
    }
    low
}

/// A number whose root has the whole part `q`, at the scale `k`: what the root rounds to.
proof fn lemma_root_at(m: int, q: int, k: int)
    requires
        0x10_0000_0000_0000 <= q < 0x20_0000_0000_0000,
        0 < k <= 1600,
        q * q <= m < (q + 1) * (q + 1),
    ensures
        m - q * q <= q ==> root_rounds_to(m * (pow2(k as nat) * pow2(k as nat)), k * 0x10_0000_0000_0000 + q),
        m - q * q > q ==> root_rounds_to(
            m * (pow2(k as nat) * pow2(k as nat)),
            k * 0x10_0000_0000_0000 + q + 1,
        ),
{
    let p = pow2(k as nat) as int;
    lemma_pow2_pos(k as nat);
    let num = m * (p * p);
    let r = k * 0x10_0000_0000_0000 + q;
    super::lemma_step(k, q);
    super::lemma_step(0, 0);
    let here = magnitude_value(r);
    let next = magnitude_value(r + 1);
    let mid = here + next;
    assert(mid == (2 * q + 1) * p) by (nonlinear_arith)
        requires
            mid == q * p + (q + 1) * p,
    ;
    let w = p * p;
    assert(w > 0) by (nonlinear_arith)
        requires
            w == p * p,
            p > 0,
    ;
    assert(mid * mid == (2 * q + 1) * (2 * q + 1) * w) by (nonlinear_arith)
        requires
            mid == (2 * q + 1) * p,
            w == p * p,
    ;
    assert((2 * q + 1) * (2 * q + 1) == 4 * (q * q) + 4 * q + 1) by (nonlinear_arith);
    if m - q * q <= q {
        assert(4 * num < mid * mid) by (nonlinear_arith)
            requires
                num == m * w,
                mid * mid == (4 * (q * q) + 4 * q + 1) * w,
                m <= q * q + q,
                w > 0,
        ;
        let prev = magnitude_value(r - 1);
        super::lemma_magnitude_value_increases(0, r - 1);
        super::lemma_adjacent(r - 1);
        let low = prev + here;
        assert(here * here == (q * q) * w) by (nonlinear_arith)
            requires
                here == q * p,
                w == p * p,
        ;
        assert(low * low < 4 * (here * here)) by (nonlinear_arith)
            requires
                low == prev + here,
                0 <= prev < here,
        ;
        assert((q * q) * w <= m * w) by (nonlinear_arith)
            requires
                q * q <= m,
                w > 0,
        ;
    } else {
        assert(mid * mid < 4 * num) by (nonlinear_arith)
            requires
                num == m * w,
                mid * mid == (4 * (q * q) + 4 * q + 1) * w,
                m >= q * q + q + 1,
                w > 0,
        ;
        let after = magnitude_value(r + 2);
        super::lemma_adjacent(r + 1);
        super::lemma_magnitude_value_increases(0, r + 1);
        let high = next + after;
        assert(next * next == ((q + 1) * (q + 1)) * w) by (nonlinear_arith)
            requires
                next == (q + 1) * p,
                w == p * p,
        ;
        assert(high * high > 4 * (next * next)) by (nonlinear_arith)
            requires
                high == next + after,
                0 <= next < after,
        ;
        assert(((q + 1) * (q + 1)) * w > m * w) by (nonlinear_arith)
            requires
                (q + 1) * (q + 1) > m,
                w > 0,
        ;
    }
}

impl Float64 {
    /// The correctly rounded square root. That of a negative zero is the zero itself, that of
    /// any other negative number is not a number.
    pub open spec fn root(self) -> Float64 {
        if self.nan() || (self.negative() && !self.zero()) {
            Float64(0x7ff8_0000_0000_0000)
        } else if self.zero() || self.infinite() {
            self
        } else {
            Float64::with_sign(false, rooted(magnitude_value(self.magnitude()) * pow2(1074)))
        }
    }

    /// The square root, rounded to nearest with ties to even. A NaN result is the quiet NaN
    /// `0x7ff8000000000000`.
    pub fn sqrt(self) -> (res: Float64)
        ensures
            res == self.root(),
    {
        let a: u64 = self.0 % SIGN_BIT;
        if a > INF_MAGNITUDE || (self.0 >= SIGN_BIT && a != 0) {
            return Float64(0x7ff8_0000_0000_0000);
        }
        if a == 0 || a == INF_MAGNITUDE {
            return self;
        }
        let (m, s): (u64, i32) = Float64::decompose(a);
        let len: u32 = crate::rounding::bit_length(m as u128);
        proof {
            lemma2_to64();
            lemma2_to64_rest();
            lemma_pow2_adds(40, 64);
            lemma_pow2_adds(42, 64);
            if len > 53 {
                if len > 54 {
                    lemma_pow2_strictly_increases(53, (len - 1) as nat);
                }
            }
        }
        // Widen the significand to 105 or 106 digits, whichever leaves an even power of two.
        let j: i32 = if (s + 1074 - (106 - len as i32)) % 2 == 0 {
            106 - len as i32
        } else {
            105 - len as i32
        };
        let k: i32 = (s + 1074 - j) / 2;
        let p: u128 = crate::rounding::power_of_two(j as u32);
        let ghost num = magnitude_value(a as int) * pow2(1074);
        proof {
            assert(s + 1074 - j == 2 * k);
            lemma_pow2_pos(j as nat);
            lemma_pow2_adds((len - 1) as nat, j as nat);
            lemma_pow2_adds(len as nat, j as nat);
            let top = pow2(len as nat) as int;
            let bottom = pow2((len - 1) as nat) as int;
            assert(bottom * p <= m * p < top * p) by (nonlinear_arith)
                requires
                    bottom <= m < top,
                    p > 0,
            ;
            if len + j == 105 {
                assert(m * p < pow2(105));
                lemma_pow2_strictly_increases(105, 106);
            } else {
                assert(pow2(105) <= m * p);
                lemma_pow2_strictly_increases(104, 105);
            }
            assert(0x100_0000_0000_0000_0000_0000_0000 <= m * p < 0x400_0000_0000_0000_0000_0000_0000);
        }
        let wide: u128 = m as u128 * p;
        let q: u128 = whole_root(wide);
        proof {
            lemma_root_at(wide as int, q as int, k as int);
            let unit = pow2(s as nat) as int;
            let up = pow2(1074) as int;
            let pk = pow2(k as nat) as int;
            lemma_pow2_adds(s as nat, 1074);
            lemma_pow2_adds(k as nat, k as nat);
            lemma_pow2_adds(j as nat, (2 * k) as nat);
            assert(num == wide * (pk * pk)) by (nonlinear_arith)
                requires
                    num == (m * unit) * up,
                    unit * up == p * (pk * pk),
                    wide == m * p,
            ;
            assert(wide - q * q >= 0);
        }
        let rest: u128 = wide - q * q;
        let near: u64 = k as u64 * BINADE + q as u64;
        let r: u64 = if rest > q {
            near + 1
        } else {
            near
        };
        proof {
            assert(root_rounds_to(num, r as int));
            lemma_root_is_unique(num, rooted(num), r as int);
        }
        Float64(r)
    }
}

} // verus!
