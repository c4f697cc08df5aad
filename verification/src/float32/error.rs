//! How far rounding can lead away from the exact result.

use crate::float32::{magnitude_value, rounded, rounds_to, scale_of, Float32};
use crate::float64::error::distance;
use vstd::arithmetic::power2::*;
use vstd::prelude::*;

verus! {

/// `2^23`: a rounding changes a number by at most one part in this many.
pub open spec fn precision() -> int {
    0x80_0000
}

/// The step below a magnitude of scale `s` is at most `2^s`.
pub(crate) proof fn lemma_step_below_at_most(s: int, n: int)
    requires
        0 <= s,
        0x80_0000 <= n < 0x100_0000,
    ensures
        magnitude_value(s * 0x80_0000 + n) - magnitude_value(
            s * 0x80_0000 + n - 1,
        ) <= pow2(s as nat),
{
    super::lemma_step(s, n);
    lemma_pow2_pos(s as nat);
    let unit = pow2(s as nat) as int;
    if n > 0x80_0000 {
        super::lemma_step(s, n - 1);
        assert(n * unit - (n - 1) * unit == unit) by (nonlinear_arith);
    } else if s > 0 {
        super::lemma_step(s - 1, 0xff_ffff);
        lemma_pow2_unfold(s as nat);
        let half = pow2((s - 1) as nat) as int;
        assert(n * unit - 0xff_ffff * half == half) by (nonlinear_arith)
            requires
                n == 0x80_0000,
                unit == 2 * half,
        ;
    } else {
        super::lemma_step(0, n - 1);
        assert(n * unit - (n - 1) * unit == unit) by (nonlinear_arith);
    }
}

/// A value that rounds to a number with a full significand is changed by at most one part in
/// `2^23`.
pub proof fn lemma_rounding_error(num: int, den: int, r: int)
    requires
        0 <= num,
        den > 0,
        rounds_to(num, den, r),
        0x80_0000 <= r < 0x7f80_0000,
    ensures
        precision() * distance(magnitude_value(r) * den, num) <= num,
        0xff_ffff * distance(magnitude_value(r) * den, num) <= num,
{
    let s = scale_of(r);
    let n = r - s * 0x80_0000;
    let unit = pow2(s as nat) as int;
    lemma_pow2_pos(s as nat);
    super::lemma_step(s, n);
    lemma_step_below_at_most(s, n);
    let v = magnitude_value(r);
    let below = magnitude_value(r - 1);
    let w = unit * den;
    assert(w > 0) by (nonlinear_arith)
        requires
            w == unit * den,
            unit > 0,
            den > 0,
    ;
    assert((n + 1) * unit == v + unit) by (nonlinear_arith)
        requires
            v == n * unit,
    ;
    assert((v + (v + unit)) * den == 2 * (v * den) + w) by (nonlinear_arith)
        requires
            w == unit * den,
    ;
    assert((below + v) * den >= 2 * (v * den) - w) by (nonlinear_arith)
        requires
            v - below <= unit,
            w == unit * den,
            den > 0,
    ;
    let x = v * den;
    assert(x == n * w) by (nonlinear_arith)
        requires
            x == v * den,
            v == n * unit,
            w == unit * den,
    ;
    assert(n * w >= 0x80_0000 * w) by (nonlinear_arith)
        requires
            n >= 0x80_0000,
            w > 0,
    ;
    assert(2 * distance(x, num) <= w);
}

/// A whole value below `2^24` rounds to itself.
proof fn lemma_small_whole_is_exact(v: int)
    requires
        0 <= v < 0x100_0000,
    ensures
        rounded(v, 1) == v,
        magnitude_value(v) == v,
{
    lemma2_to64();
    super::lemma_step(0, v);
    assert(v * 1 == v);
    super::lemma_exact_value_rounds_to_itself(v, 1);
}

/// A byte is a number without rounding.
pub proof fn lemma_byte_is_exact(n: u8)
    ensures
        Float32::of_whole(n as int).finite(),
        !Float32::of_whole(n as int).negative(),
        Float32::of_whole(n as int).value() == n * pow2(149),
{
    lemma2_to64();
    lemma2_to64_rest();
    super::lemma_step(0, 0);
    if n == 0 {
        assert(0 * pow2(149) == 0);
        lemma_small_whole_is_exact(0);
    } else {
        // Moved up to a full significand.
        let up: nat = if n >= 128 {
            16
        } else if n >= 64 {
            17
        } else if n >= 32 {
            18
        } else if n >= 16 {
            19
        } else if n >= 8 {
            20
        } else if n >= 4 {
            21
        } else if n >= 2 {
            22
        } else {
            23
        };
        let s = 149 - up;
        let f = n * pow2(up);
        assert(pow2(up) == 0x1_0000 || pow2(up) == 0x2_0000 || pow2(up) == 0x4_0000 || pow2(up)
            == 0x8_0000 || pow2(up) == 0x10_0000 || pow2(up) == 0x20_0000 || pow2(up) == 0x40_0000
            || pow2(up) == 0x80_0000);
        assert(0x80_0000 <= f < 0x100_0000);
        lemma_pow2_adds(s as nat, up);
        super::lemma_step(s, f);
        assert(f * pow2(s as nat) == n * pow2(149)) by (nonlinear_arith)
            requires
                f == n * pow2(up),
                pow2(149) == pow2(s as nat) * pow2(up),
        ;
        let m = s * 0x80_0000 + f;
        super::lemma_exact_value_rounds_to_itself(m, 1);
        assert(magnitude_value(m) * 1 == magnitude_value(m));
    }
}

} // verus!
