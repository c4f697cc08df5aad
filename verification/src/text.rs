//! Numbers written as text.

use vstd::prelude::*;
use vstd::string::*;

verus! {

/// The digit for a value below sixteen, in upper case.
pub open spec fn digit(d: int) -> char {
    if d < 10 {
        (48 + d) as char
    } else {
        (55 + d) as char
    }
}

/// A number in decimal notation without leading zeros.
pub open spec fn decimal(n: nat) -> Seq<char>
    decreases n,
{
    if n < 10 {
        seq![digit(n as int)]
    } else {
        decimal(n / 10).push(digit((n % 10) as int))
    }
}

/// The digit for `d`.
pub fn digit_char(d: u8) -> (res: char)
    requires
        d < 16,
    ensures
        res == digit(d as int),
{
    if d < 10 {
        (48 + d) as char
    } else {
        (55 + d) as char
    }
}

/// Appends a number in decimal notation.
pub fn push_decimal(out: &mut String, n: usize)
    ensures
        final(out)@ == old(out)@ + decimal(n as nat),
    decreases n,
{
    if n >= 10 {
        push_decimal(out, n / 10);
    }
    out.push(digit_char((n % 10) as u8));
    assert(out@ =~= old(out)@ + decimal(n as nat));
}

/// Different numbers are written differently.
pub proof fn lemma_decimal_is_injective(m: nat, n: nat)
    requires
        decimal(m) == decimal(n),
    ensures
        m == n,
    decreases m,
{
    if m >= 10 && n >= 10 {
        assert(decimal(m).drop_last() =~= decimal(m / 10));
        assert(decimal(n).drop_last() =~= decimal(n / 10));
        assert(decimal(m).last() == digit((m % 10) as int));
        assert(decimal(n).last() == digit((n % 10) as int));
        lemma_decimal_is_injective(m / 10, n / 10);
        assert(m % 10 == n % 10);
    } else if m < 10 && n < 10 {
        assert(decimal(m)[0] == digit(m as int));
        assert(decimal(n)[0] == digit(n as int));
    } else if m < 10 {
        lemma_decimal_is_not_empty(n / 10);
        assert(decimal(m).len() == 1);
    } else {
        lemma_decimal_is_not_empty(m / 10);
        assert(decimal(n).len() == 1);
    }
}

proof fn lemma_decimal_is_not_empty(n: nat)
    ensures
        decimal(n).len() >= 1,
{
}

} // verus!
