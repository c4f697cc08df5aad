//! Numbers whose ratio is nearly one. Roundings keep a number alike, and what is alike in turn
//! is alike in the end, by a little more.

use crate::float64::error::{distance, precision, size};
use crate::float64::Float64;
use vstd::arithmetic::power2::*;
use vstd::prelude::*;

verus! {

/// Two positive numbers of which each is at most the other and `n` parts in `2^52` of it.
pub open spec fn alike(a: int, b: int, n: int) -> bool {
    &&& 0 < a && 0 < b
    &&& precision() * a <= (precision() + n) * b
    &&& precision() * b <= (precision() + n) * a
}

/// What was rounded is alike.
pub proof fn lemma_rounded_is_alike(r: int, x: int)
    requires
        x > 0,
        precision() * distance(r, x) <= x,
    ensures
        alike(r, x, 2),
{
}

/// Numbers that are alike are near each other.
pub proof fn lemma_alike_is_near(a: int, b: int, n: int)
    requires
        alike(a, b, n),
        n >= 0,
    ensures
        precision() * distance(a, b) <= n * b,
{
    let e = precision();
    if a < b {
        assert(e * (b - a) <= n * b) by (nonlinear_arith)
            requires
                e * b <= (e + n) * a,
                a < b,
                n >= 0,
        ;
    } else {
        assert(e * (a - b) <= n * b) by (nonlinear_arith)
            requires
                e * a <= (e + n) * b,
        ;
    }
}

/// What is alike a number that is alike another is alike that one.
pub proof fn lemma_alike_in_turn(a: int, b: int, c: int, m: int, n: int)
    requires
        alike(a, b, m),
        alike(b, c, n),
        0 <= m <= 1000,
        0 <= n <= 1000,
    ensures
        alike(a, c, m + n + 1),
{
    lemma_steps(a, b, c, m, n);
    lemma_steps(c, b, a, n, m);
}

proof fn lemma_steps(a: int, b: int, c: int, m: int, n: int)
    requires
        precision() * a <= (precision() + m) * b,
        precision() * b <= (precision() + n) * c,
        0 < c,
        0 <= m <= 1000,
        0 <= n <= 1000,
    ensures
        precision() * a <= (precision() + (m + n + 1)) * c,
{
    let e = precision();
    assert(e * (e * a) <= (e + m) * (e * b)) by (nonlinear_arith)
        requires
            e * a <= (e + m) * b,
            e > 0,
    ;
    assert((e + m) * (e * b) <= (e + m) * ((e + n) * c)) by (nonlinear_arith)
        requires
            e * b <= (e + n) * c,
            e + m > 0,
    ;
    assert(m * n <= 1_000_000) by (nonlinear_arith)
        requires
            0 <= m <= 1000,
            0 <= n <= 1000,
    ;
    assert((e + m) * (e + n) <= e * (e + (m + n + 1))) by (nonlinear_arith)
        requires
            m * n <= 1_000_000,
            e >= 1_000_000,
    ;
    assert((e + m) * ((e + n) * c) <= e * ((e + (m + n + 1)) * c)) by (nonlinear_arith)
        requires
            (e + m) * (e + n) <= e * (e + (m + n + 1)),
            c > 0,
    ;
    let left = e * a;
    let right = (e + (m + n + 1)) * c;
    assert(left <= right) by (nonlinear_arith)
        requires
            e * left <= e * right,
            e > 0,
    ;
}

/// Multiplying both numbers by a third keeps them alike.
pub proof fn lemma_multiples_are_alike(a: int, b: int, k: int, n: int)
    requires
        alike(a, b, n),
        k > 0,
    ensures
        alike(a * k, b * k, n),
{
    let e = precision();
    assert(a * k > 0 && b * k > 0) by (nonlinear_arith)
        requires
            a > 0,
            b > 0,
            k > 0,
    ;
    assert(e * (a * k) <= (e + n) * (b * k)) by (nonlinear_arith)
        requires
            e * a <= (e + n) * b,
            k > 0,
    ;
    assert(e * (b * k) <= (e + n) * (a * k)) by (nonlinear_arith)
        requires
            e * b <= (e + n) * a,
            k > 0,
    ;
}

/// Numbers whose multiples are alike are alike.
pub proof fn lemma_parts_are_alike(a: int, b: int, k: int, n: int)
    requires
        alike(a * k, b * k, n),
        k > 0,
    ensures
        alike(a, b, n),
{
    let e = precision();
    assert(a > 0) by (nonlinear_arith)
        requires
            a * k > 0,
            k > 0,
    ;
    assert(b > 0) by (nonlinear_arith)
        requires
            b * k > 0,
            k > 0,
    ;
    assert(e * a <= (e + n) * b) by (nonlinear_arith)
        requires
            e * (a * k) <= (e + n) * (b * k),
            k > 0,
    ;
    assert(e * b <= (e + n) * a) by (nonlinear_arith)
        requires
            e * (b * k) <= (e + n) * (a * k),
            k > 0,
    ;
}

/// A product is alike the exact one.
pub proof fn lemma_product_is_alike(x: Float64, y: Float64)
    requires
        x.finite() && y.finite(),
        !x.negative() && !y.negative(),
        x.value() > 0 && y.value() > 0,
        x.product(y).normal(),
    ensures
        alike(x.product(y).value() * pow2(1074), x.value() * y.value(), 2),
{
    crate::float64::error::lemma_product_error(x, y);
    let p = x.value() * y.value();
    assert(p > 0) by (nonlinear_arith)
        requires
            p == x.value() * y.value(),
            x.value() > 0,
            y.value() > 0,
    ;
    lemma_rounded_is_alike(x.product(y).value() * pow2(1074), p);
}

/// A quotient is alike the exact one, in size.
pub proof fn lemma_quotient_is_alike(x: Float64, y: Float64)
    requires
        x.finite() && y.finite(),
        !y.negative(),
        x.value() != 0 && y.value() > 0,
        !y.zero(),
        x.quotient(y).normal(),
    ensures
        alike(size(x.quotient(y).value()) * y.value(), size(x.value()) * pow2(1074), 2),
{
    crate::float64::error::lemma_quotient_error(x, y);
    let u = pow2(1074) as int;
    lemma_pow2_pos(1074);
    let q = x.quotient(y).value();
    let a = x.value();
    let b = y.value();
    let left = q * b;
    let right = a * u;
    lemma_size_of_multiple(q, b);
    lemma_size_of_multiple(a, u);
    assert(size(a) * u > 0) by (nonlinear_arith)
        requires
            size(a) > 0,
            u > 0,
    ;
    lemma_rounded_is_alike(size(left), size(right));
}

proof fn lemma_size_of_multiple(a: int, k: int)
    requires
        k > 0,
    ensures
        size(a * k) == size(a) * k,
{
    if a < 0 {
        assert((-a) * k == -(a * k)) by (nonlinear_arith);
        assert(a * k <= 0) by (nonlinear_arith)
            requires
                a < 0,
                k > 0,
        ;
    } else {
        assert(a * k >= 0) by (nonlinear_arith)
            requires
                a >= 0,
                k > 0,
        ;
    }
}

} // verus!
