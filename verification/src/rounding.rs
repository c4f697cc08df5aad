//! Rounding a ratio of whole numbers, independent of the format that is rounded to.

use vstd::arithmetic::mul::*;
use vstd::arithmetic::power2::*;
use vstd::prelude::*;

verus! {

/// `2^k`.
pub(crate) fn power_of_two(k: u32) -> (p: u128)
    requires
        k < 128,
    ensures
        p == pow2(k as nat),
{
    let mut p: u128 = 1;
    let mut i: u32 = 0;
    assert(pow2(0) == 1) by { lemma2_to64(); }
    while i < k
        invariant
            i <= k < 128,
            p == pow2(i as nat),
        decreases k - i,
    {
        proof {
            lemma_pow2_unfold((i + 1) as nat);
            if i + 1 < 127 {
                lemma_pow2_strictly_increases((i + 1) as nat, 127);
            }
            lemma_two_to_127();
        }
        p = p * 2;
        i = i + 1;
    }
    p
}

pub(crate) proof fn lemma_two_to_127()
    ensures
        pow2(127) == 0x8000_0000_0000_0000_0000_0000_0000_0000,
{
    lemma2_to64();
    lemma2_to64_rest();
    lemma_pow2_adds(63, 64);
}

/// `2^t` for a power that may be negative, as a numerator.
pub open spec fn two_to_num(t: int) -> int {
    pow2(if t >= 0 {
        t as nat
    } else {
        0
    }) as int
}

/// `2^t` for a power that may be negative, as a denominator.
pub open spec fn two_to_den(t: int) -> int {
    two_to_num(-t)
}

/// The number of binary digits of `m`.
pub(crate) fn bit_length(m: u128) -> (len: u32)
    requires
        0 < m,
    ensures
        1 <= len <= 128,
        pow2((len - 1) as nat) <= m,
        m < pow2(len as nat),
{
    let mut len: u32 = 1;
    let mut rest: u128 = m / 2;
    proof {
        lemma2_to64();
        assert(rest * pow2(1) <= m < (rest + 1) * pow2(1));
        assert(pow2(0) <= m);
    }
    while rest > 0
        invariant
            0 < m,
            1 <= len,
            rest * pow2(len as nat) <= m < (rest + 1) * pow2(len as nat),
            pow2((len - 1) as nat) <= m,
            len <= 128,
        decreases rest,
    {
        proof {
            let unit = pow2(len as nat) as int;
            lemma_pow2_pos(len as nat);
            lemma_pow2_unfold((len + 1) as nat);
            let half = (rest / 2) as int;
            assert(rest == 2 * half || rest == 2 * half + 1);
            assert(half * (2 * unit) <= m && m < (half + 1) * (2 * unit)) by (nonlinear_arith)
                requires
                    rest * unit <= m,
                    m < (rest + 1) * unit,
                    rest == 2 * half || rest == 2 * half + 1,
                    unit > 0,
            ;
            assert(unit <= m) by (nonlinear_arith)
                requires
                    rest * unit <= m,
                    rest > 0,
                    unit > 0,
            ;
            if len >= 128 {
                lemma_two_to_127();
                lemma_pow2_unfold(128);
                if len > 128 {
                    lemma_pow2_strictly_increases(128, len as nat);
                }
            }
        }
        rest = rest / 2;
        len = len + 1;
    }
    proof {
        assert((rest + 1) * pow2(len as nat) == pow2(len as nat)) by (nonlinear_arith)
            requires
                rest == 0,
        ;
    }
    len
}

/// Where the fraction cut off by a division lies.
pub(crate) enum Fraction {
    BelowHalf,
    Half,
    AboveHalf,
}

/// `num / (unit * den)` cut down to a whole number `n`, with `f` the place of what was cut.
pub(crate) open spec fn cuts_to(num: int, unit: int, den: int, n: int, f: Fraction) -> bool {
    let middle = (n * unit + (n + 1) * unit) * den;
    &&& (n * unit) * den <= num < ((n + 1) * unit) * den
    &&& match f {
        Fraction::BelowHalf => 2 * num < middle,
        Fraction::Half => 2 * num == middle,
        Fraction::AboveHalf => 2 * num > middle,
    }
}

proof fn lemma_cut(num: int, unit: int, den: int, a: int, b: int, n: int, rest: int)
    requires
        b > 0,
        unit > 0,
        den > 0,
        num * b == a * (unit * den),
        a == n * b + rest,
        0 <= rest < b,
    ensures
        2 * rest < b ==> cuts_to(num, unit, den, n, Fraction::BelowHalf),
        2 * rest == b ==> cuts_to(num, unit, den, n, Fraction::Half),
        2 * rest > b ==> cuts_to(num, unit, den, n, Fraction::AboveHalf),
{
    let w = unit * den;
    assert(w > 0) by (nonlinear_arith)
        requires w == unit * den, unit > 0, den > 0;
    assert((n * unit) * den == n * w) by (nonlinear_arith)
        requires w == unit * den;
    assert(((n + 1) * unit) * den == n * w + w) by (nonlinear_arith)
        requires w == unit * den;
    assert((n * unit + (n + 1) * unit) * den == 2 * (n * w) + w) by (nonlinear_arith)
        requires w == unit * den;
    let x = num - n * w;
    assert(x * b == rest * w) by (nonlinear_arith)
        requires x == num - n * w, num * b == a * w, a == n * b + rest;
    assert(0 <= x < w) by (nonlinear_arith)
        requires x * b == rest * w, 0 <= rest < b, w > 0;
    if 2 * rest < b {
        assert(2 * x < w) by (nonlinear_arith)
            requires x * b == rest * w, 2 * rest < b, w > 0, b > 0;
    } else if 2 * rest > b {
        assert(2 * x > w) by (nonlinear_arith)
            requires x * b == rest * w, 2 * rest > b, w > 0, b > 0;
    } else {
        assert(2 * x == w) by (nonlinear_arith)
            requires x * b == rest * w, 2 * rest == b, w > 0, b > 0;
    }
}

pub(crate) proof fn lemma_two_to(t: int, s: int)
    requires
        0 <= s,
    ensures
        two_to_num(t) > 0,
        two_to_den(t) > 0,
        t >= s ==> two_to_num(t) == pow2((t - s) as nat) * pow2(s as nat) && two_to_den(t) == 1,
        t < s ==> two_to_num(t) * pow2((s - t) as nat) == pow2(s as nat) * two_to_den(t),
{
    lemma2_to64();
    lemma_pow2_pos(if t >= 0 { t as nat } else { 0 });
    lemma_pow2_pos(if t >= 0 { 0 } else { (-t) as nat });
    if t >= s {
        lemma_pow2_adds((t - s) as nat, s as nat);
    } else if t >= 0 {
        lemma_pow2_adds(t as nat, (s - t) as nat);
        assert(pow2(s as nat) * 1 == pow2(s as nat));
    } else {
        lemma_pow2_adds(s as nat, (-t) as nat);
        assert(1 * pow2((s - t) as nat) == pow2((s - t) as nat));
    }
}

/// `a / b * 2^t` cut down to a whole multiple of `2^s`.
fn cut_at(a: u128, b: u128, t: i32, s: i32) -> (res: (u128, Fraction))
    requires
        0 < a,
        0 < b,
        0 <= s <= 5000,
        -5000 <= t <= 5000,
        t >= s ==> a * pow2((t - s) as nat) < pow2(127) && b < pow2(127),
        t < s ==> b * pow2((s - t) as nat) < pow2(127),
    ensures
        cuts_to(
            a * two_to_num(t as int),
            pow2(s as nat) as int,
            b * two_to_den(t as int),
            res.0 as int,
            res.1,
        ),
{
    let ghost num = a * two_to_num(t as int);
    let ghost den = b * two_to_den(t as int);
    let ghost unit = pow2(s as nat) as int;
    proof {
        lemma_two_to(t as int, s as int);
        lemma_pow2_pos(s as nat);
        lemma_two_to_127();
        let dn = two_to_den(t as int);
        assert(den > 0) by (nonlinear_arith)
            requires b > 0, dn > 0, den == b * dn;
    }
    let (top, bottom): (u128, u128) = if t >= s {
        proof {
            lemma_factor_is_small(a as int, (t - s) as nat);
        }
        let p: u128 = power_of_two((t - s) as u32);
        proof {
            let up = two_to_num(t as int);
            assert(b * 1 == b);
            assert(num * b == (a * p) * (unit * den)) by (nonlinear_arith)
                requires num == a * up, up == p * unit, den == b;
        }
        (a * p, b)
    } else {
        proof {
            lemma_factor_is_small(b as int, (s - t) as nat);
        }
        let p: u128 = power_of_two((s - t) as u32);
        proof {
            lemma_pow2_pos((s - t) as nat);
            let up = two_to_num(t as int);
            let dn = two_to_den(t as int);
            assert(b * p > 0) by (nonlinear_arith)
                requires b > 0, p > 0;
            assert(num * (b * p) == a * (unit * den)) by (nonlinear_arith)
                requires num == a * up, up * p == unit * dn, den == b * dn;
        }
        (a, b * p)
    };
    let n: u128 = top / bottom;
    let rest: u128 = top % bottom;
    proof {
        vstd::arithmetic::div_mod::lemma_fundamental_div_mod(top as int, bottom as int);
        lemma_mul_is_commutative(n as int, bottom as int);
        lemma_cut(num, unit, den, top as int, bottom as int, n as int, rest as int);
    }
    if rest < bottom - rest {
        (n, Fraction::BelowHalf)
    } else if rest == bottom - rest {
        (n, Fraction::Half)
    } else {
        (n, Fraction::AboveHalf)
    }
}

/// A power of two that stays below `2^127` when multiplied has an exponent below 127.
proof fn lemma_factor_is_small(a: int, k: nat)
    requires
        0 < a,
        a * pow2(k) < pow2(127),
    ensures
        k < 127,
{
    lemma_pow2_pos(k);
    assert(pow2(k) <= a * pow2(k)) by (nonlinear_arith)
        requires a > 0, pow2(k) > 0;
    if k > 127 {
        lemma_pow2_strictly_increases(127, k);
    }
}

/// Bounds a cut value: `num` lies in `[low, high)` times `unit * den`, so the whole part does too.
proof fn lemma_cut_bounds(num: int, unit: int, den: int, n: int, f: Fraction, low: int, high: int)
    requires
        cuts_to(num, unit, den, n, f),
        unit > 0,
        den > 0,
        (low * unit) * den <= num < (high * unit) * den,
    ensures
        low <= n < high,
{
    let w = unit * den;
    assert(w > 0) by (nonlinear_arith)
        requires w == unit * den, unit > 0, den > 0;
    assert((n * unit) * den == n * w) by (nonlinear_arith)
        requires w == unit * den;
    assert(((n + 1) * unit) * den == (n + 1) * w) by (nonlinear_arith)
        requires w == unit * den;
    assert((low * unit) * den == low * w) by (nonlinear_arith)
        requires w == unit * den;
    assert((high * unit) * den == high * w) by (nonlinear_arith)
        requires w == unit * den;
    assert(low < n + 1 && n < high) by (nonlinear_arith)
        requires low * w < (n + 1) * w, n * w < high * w, w > 0;
}

/// With `a` of `la` digits and `b` of `lb` digits, `a / b * 2^t` lies below `2^(d + 1 + s)`
/// where `t + la - lb <= d + s`, and at or above `2^(d - 1 + s)` where the two are equal.
proof fn lemma_ratio_range(a: int, b: int, la: int, lb: int, t: int, s: int, d: int)
    requires
        1 <= la,
        1 <= lb,
        0 <= s,
        1 <= d,
        t + la - lb <= d + s,
        pow2((la - 1) as nat) <= a < pow2(la as nat),
        pow2((lb - 1) as nat) <= b < pow2(lb as nat),
    ensures
        a * two_to_num(t) < (pow2((d + 1) as nat) * pow2(s as nat)) * (b * two_to_den(t)),
        t + la - lb == d + s ==> (pow2((d - 1) as nat) * pow2(s as nat)) * (b * two_to_den(t)) <= a
            * two_to_num(t),
{
    lemma2_to64();
    lemma_two_to(t, 0);
    let tp: nat = if t >= 0 { t as nat } else { 0 };
    let tn: nat = if t >= 0 { 0 } else { (-t) as nat };
    let up = pow2(tp) as int;
    let dn = pow2(tn) as int;
    lemma_pow2_pos(tp);
    lemma_pow2_pos(tn);
    lemma_pow2_pos(s as nat);
    let pa = pow2(la as nat) as int;
    let pa1 = pow2((la - 1) as nat) as int;
    let pb = pow2(lb as nat) as int;
    let pb1 = pow2((lb - 1) as nat) as int;
    lemma_pow2_pos((lb - 1) as nat);
    // Upper end.
    lemma_pow2_adds(la as nat, tp);
    lemma_pow2_adds((d + 1) as nat, s as nat);
    lemma_pow2_adds((lb - 1) as nat, tn);
    let e: nat = (d + 1 + s) as nat;
    let g: nat = (lb - 1 + tn) as nat;
    lemma_pow2_adds(e, g);
    lemma_pow2_pos(e);
    if la + tp < e + g {
        lemma_pow2_strictly_increases((la + tp) as nat, e + g);
    }
    assert(a * up < pa * up) by (nonlinear_arith)
        requires a < pa, up > 0;
    assert(pow2(e) * (pb1 * dn) <= pow2(e) * (b * dn)) by (nonlinear_arith)
        requires pb1 <= b, dn > 0, pow2(e) > 0;
    // Lower end.
    if t + la - lb == d + s {
        lemma_pow2_adds((la - 1) as nat, tp);
        lemma_pow2_adds((d - 1) as nat, s as nat);
        lemma_pow2_adds(lb as nat, tn);
        let e2: nat = (d - 1 + s) as nat;
        let g2: nat = (lb + tn) as nat;
        lemma_pow2_adds(e2, g2);
        lemma_pow2_pos(e2);
        assert(la - 1 + tp == e2 + g2);
        assert(pa1 * up <= a * up) by (nonlinear_arith)
            requires pa1 <= a, up > 0;
        assert(pow2(e2) * (b * dn) <= pow2(e2) * (pb * dn)) by (nonlinear_arith)
            requires b <= pb, dn > 0, pow2(e2) > 0;
    }
}

/// A number below `2^len` times `2^k` stays below `2^127` where `len + k` is at most 127.
proof fn lemma_scaled(a: int, len: nat, k: nat)
    requires
        0 <= a < pow2(len),
        len + k <= 127,
    ensures
        a * pow2(k) < pow2(127),
{
    lemma_pow2_pos(k);
    lemma_pow2_adds(len, k);
    assert(a * pow2(k) < pow2(len) * pow2(k)) by (nonlinear_arith)
        requires a < pow2(len), pow2(k) > 0;
    if len + k < 127 {
        lemma_pow2_strictly_increases(len + k, 127);
    }
}

/// A length is at most that of a bound.
proof fn lemma_length_bound(m: int, len: nat, bound: nat)
    requires
        len >= 1,
        pow2((len - 1) as nat) <= m < pow2(bound),
    ensures
        len <= bound,
{
    if len > bound {
        if len - 1 > bound {
            lemma_pow2_strictly_increases(bound, (len - 1) as nat);
        }
    }
}

/// Cuts `a / b * 2^t` down to a significand of at most `digits` digits and a power of two: to
/// exactly that many digits unless the power is zero.
pub(crate) fn normalize(a: u128, b: u128, t: i32, digits: u32) -> (res: (i32, u128, Fraction))
    requires
        0 < a < pow2(108),
        0 < b < pow2(53),
        -4000 <= t <= 4000,
        2 <= digits <= 53,
    ensures
        0 <= res.0 <= 4200,
        res.1 < pow2(digits as nat),
        res.0 > 0 ==> res.1 >= pow2((digits - 1) as nat),
        b * two_to_den(t as int) > 0,
        cuts_to(
            a * two_to_num(t as int),
            pow2(res.0 as nat) as int,
            b * two_to_den(t as int),
            res.1 as int,
            res.2,
        ),
{
    let la: u32 = bit_length(a);
    let lb: u32 = bit_length(b);
    proof {
        lemma_length_bound(a as int, la as nat, 108);
        lemma_length_bound(b as int, lb as nat, 53);
    }
    let top: i32 = t + la as i32 - lb as i32;
    let d: i32 = digits as i32;
    let s0: i32 = if top > d { top - d } else { 0 };
    let ghost num = a * two_to_num(t as int);
    let ghost den = b * two_to_den(t as int);
    proof {
        lemma2_to64();
        lemma_two_to(t as int, 0);
        let dn = two_to_den(t as int);
        let up = two_to_num(t as int);
        assert(den > 0) by (nonlinear_arith)
            requires b > 0, dn > 0, den == b * dn;
        assert(num > 0) by (nonlinear_arith)
            requires num == a * up, a > 0, up > 0;
        lemma_pow2_pos(s0 as nat);
        lemma_pow2_pos((digits - 1) as nat);
        lemma_pow2_unfold(digits as nat);
        lemma_pow2_unfold((digits + 1) as nat);
        lemma_ratio_range(a as int, b as int, la as int, lb as int, t as int, s0 as int, d as int);
    }
    if top < -1 {
        proof {
            // Below one half.
            lemma_below_half(a as int, b as int, la as int, lb as int, t as int);
            let z = 0int;
            assert((z * 1 + (z + 1) * 1) * den == den && (z * 1) * den == 0 && ((z + 1) * 1) * den
                == den) by (nonlinear_arith)
                requires z == 0;
        }
        return (0, 0, Fraction::BelowHalf);
    }
    proof {
        lemma_fits(a as int, b as int, la as int, lb as int, t as int, s0 as int, s0 as int, d as int);
    }
    let (n0, f0): (u128, Fraction) = cut_at(a, b, t, s0);
    proof {
        let unit = pow2(s0 as nat) as int;
        let low: int = if s0 > 0 { pow2((digits - 1) as nat) as int } else { 0 };
        assert((0 * unit) * den == 0) by (nonlinear_arith);
        lemma_cut_bounds(num, unit, den, n0 as int, f0, low, pow2((digits + 1) as nat) as int);
    }
    let limit: u128 = power_of_two(digits);
    if n0 < limit {
        return (s0, n0, f0);
    }
    proof {
        lemma_fits(a as int, b as int, la as int, lb as int, t as int, s0 as int, s0 + 1, d as int);
    }
    let (n1, f1): (u128, Fraction) = cut_at(a, b, t, s0 + 1);
    proof {
        let unit0 = pow2(s0 as nat) as int;
        let unit1 = pow2((s0 + 1) as nat) as int;
        lemma_pow2_unfold((s0 + 1) as nat);
        lemma_pow2_pos((s0 + 1) as nat);
        let full = pow2(digits as nat) as int;
        let double = pow2((digits + 1) as nat) as int;
        let half = pow2((digits - 1) as nat) as int;
        assert((double * unit0) * den == (full * unit1) * den) by (nonlinear_arith)
            requires unit1 == 2 * unit0, double == 2 * full;
        assert((half * unit1) * den <= (n0 * unit0) * den) by (nonlinear_arith)
            requires unit1 == 2 * unit0, full == 2 * half, n0 >= full, unit0 > 0, den > 0;
        lemma_cut_bounds(num, unit1, den, n1 as int, f1, half, full);
    }
    (s0 + 1, n1, f1)
}

proof fn lemma_below_half(a: int, b: int, la: int, lb: int, t: int)
    requires
        1 <= la,
        1 <= lb,
        t + la - lb < -1,
        pow2((la - 1) as nat) <= a < pow2(la as nat),
        pow2((lb - 1) as nat) <= b < pow2(lb as nat),
    ensures
        2 * (a * two_to_num(t)) < b * two_to_den(t),
{
    lemma2_to64();
    let tp: nat = if t >= 0 { t as nat } else { 0 };
    let tn: nat = if t >= 0 { 0 } else { (-t) as nat };
    let up = pow2(tp) as int;
    let dn = pow2(tn) as int;
    lemma_pow2_pos(tp);
    lemma_pow2_pos(tn);
    let pa = pow2(la as nat) as int;
    let pb1 = pow2((lb - 1) as nat) as int;
    lemma_pow2_adds(la as nat, tp);
    lemma_pow2_adds((lb - 1) as nat, tn);
    lemma_pow2_unfold((la + tp + 1) as nat);
    if la + tp + 1 < lb - 1 + tn {
        lemma_pow2_strictly_increases((la + tp + 1) as nat, (lb - 1 + tn) as nat);
    }
    assert(a * up < pa * up) by (nonlinear_arith)
        requires a < pa, up > 0;
    assert(pb1 * dn <= b * dn) by (nonlinear_arith)
        requires pb1 <= b, dn > 0;
}

/// The numbers that `cut_at` works with fit.
proof fn lemma_fits(a: int, b: int, la: int, lb: int, t: int, s0: int, s: int, d: int)
    requires
        1 <= la <= 108,
        1 <= lb <= 53,
        2 <= d <= 53,
        0 < a < pow2(la as nat),
        0 < b < pow2(lb as nat),
        t + la - lb >= -1,
        s0 == if t + la - lb > d { t + la - lb - d } else { 0 },
        s == s0 || s == s0 + 1,
    ensures
        t >= s ==> a * pow2((t - s) as nat) < pow2(127) && b < pow2(127),
        t < s ==> b * pow2((s - t) as nat) < pow2(127),
{
    if t >= s {
        lemma_scaled(a, la as nat, (t - s) as nat);
        lemma_pow2_strictly_increases(lb as nat, 127);
    } else {
        lemma_scaled(b, lb as nat, (s - t) as nat);
    }
}

} // verus!
