//! Colors written as hexadecimal text, such as `#FF8040`.

use vstd::prelude::*;
use vstd::string::*;

verus! {

/// Whether a character is white space in the sense of Unicode.
pub open spec fn white_space(c: char) -> bool {
    ||| 0x09 <= c as int <= 0x0d
    ||| c as int == 0x20
    ||| c as int == 0x85
    ||| c as int == 0xa0
    ||| c as int == 0x1680
    ||| 0x2000 <= c as int <= 0x200a
    ||| c as int == 0x2028
    ||| c as int == 0x2029
    ||| c as int == 0x202f
    ||| c as int == 0x205f
    ||| c as int == 0x3000
}

/// Whether a character is white space in the sense of Unicode.
pub fn is_white_space(c: char) -> (res: bool)
    ensures
        res == white_space(c),
{
    let n: u32 = c as u32;
    (0x09 <= n && n <= 0x0d) || n == 0x20 || n == 0x85 || n == 0xa0 || n == 0x1680 || (0x2000 <= n
        && n <= 0x200a) || n == 0x2028 || n == 0x2029 || n == 0x202f || n == 0x205f || n == 0x3000
}

/// The text without white space at its start.
pub open spec fn without_leading_space(s: Seq<char>) -> Seq<char>
    decreases s.len(),
{
    if s.len() > 0 && white_space(s[0]) {
        without_leading_space(s.drop_first())
    } else {
        s
    }
}

/// The text without white space at its end.
pub open spec fn without_trailing_space(s: Seq<char>) -> Seq<char>
    decreases s.len(),
{
    if s.len() > 0 && white_space(s.last()) {
        without_trailing_space(s.drop_last())
    } else {
        s
    }
}

/// The text without number signs at its start.
pub open spec fn without_hashes(s: Seq<char>) -> Seq<char>
    decreases s.len(),
{
    if s.len() > 0 && s[0] == '#' {
        without_hashes(s.drop_first())
    } else {
        s
    }
}

/// What is left of the text once white space around it and then number signs before it are
/// gone.
pub open spec fn digits_of(s: Seq<char>) -> Seq<char> {
    without_hashes(without_trailing_space(without_leading_space(s)))
}

/// The value of a hexadecimal digit of either case.
pub open spec fn hex_value(c: char) -> Option<int> {
    if '0' <= c <= '9' {
        Some(c as int - '0' as int)
    } else if 'a' <= c <= 'f' {
        Some(c as int - 'a' as int + 10)
    } else if 'A' <= c <= 'F' {
        Some(c as int - 'A' as int + 10)
    } else {
        None
    }
}

/// The value of two characters: two digits, or a plus sign and a digit.
pub open spec fn pair_value(a: char, b: char) -> Option<int> {
    match (hex_value(a), hex_value(b)) {
        (Some(x), Some(y)) => Some(16 * x + y),
        (None, Some(y)) => if a == '+' {
            Some(y)
        } else {
            None
        },
        _ => None,
    }
}

/// The color that a text names: three pairs, once the rest is trimmed away.
pub open spec fn named_color(s: Seq<char>) -> Option<(int, int, int)> {
    let d = digits_of(s);
    if d.len() == 6 {
        match (pair_value(d[0], d[1]), pair_value(d[2], d[3]), pair_value(d[4], d[5])) {
            (Some(r), Some(g), Some(b)) => Some((r, g, b)),
            _ => None,
        }
    } else {
        None
    }
}

fn hex_digit(c: char) -> (res: Option<u8>)
    ensures
        match res {
            Some(v) => hex_value(c) == Some(v as int) && v < 16,
            None => hex_value(c) is None,
        },
{
    if '0' <= c && c <= '9' {
        Some((c as u32 - 48) as u8)
    } else if 'a' <= c && c <= 'f' {
        Some((c as u32 - 87) as u8)
    } else if 'A' <= c && c <= 'F' {
        Some((c as u32 - 55) as u8)
    } else {
        None
    }
}

fn hex_pair(a: char, b: char) -> (res: Option<u8>)
    ensures
        match res {
            Some(v) => pair_value(a, b) == Some(v as int),
            None => pair_value(a, b) is None,
        },
{
    match hex_digit(b) {
        None => None,
        Some(low) => match hex_digit(a) {
            Some(high) => Some(16 * high + low),
            None => if a == '+' {
                Some(low)
            } else {
                None
            },
        },
    }
}

/// Reads a color as red, green and blue. White space around the text and number signs before
/// the digits are skipped.
pub fn parse_hex(s: &str) -> (res: Option<(u8, u8, u8)>)
    ensures
        match res {
            Some(c) => named_color(s@) == Some((c.0 as int, c.1 as int, c.2 as int)),
            None => named_color(s@) is None,
        },
{
    let mut from: usize = 0;
    let mut to: usize = s.unicode_len();
    assert(s@.subrange(0, to as int) =~= s@);
    while from < to && is_white_space(s.get_char(from))
        invariant
            from <= to == s@.len(),
            without_leading_space(s@) == without_leading_space(s@.subrange(from as int, to as int)),
        decreases to - from,
    {
        assert(s@.subrange(from as int, to as int).drop_first() =~= s@.subrange(
            from + 1,
            to as int,
        ));
        from += 1;
    }
    let ghost led = s@.subrange(from as int, to as int);
    assert(without_leading_space(s@) == led);
    while from < to && is_white_space(s.get_char(to - 1))
        invariant
            from <= to <= s@.len(),
            without_trailing_space(led) == without_trailing_space(
                s@.subrange(from as int, to as int),
            ),
        decreases to - from,
    {
        assert(s@.subrange(from as int, to as int).drop_last() =~= s@.subrange(
            from as int,
            to - 1,
        ));
        to -= 1;
    }
    let ghost bare = s@.subrange(from as int, to as int);
    assert(without_trailing_space(led) == bare);
    while from < to && s.get_char(from) == '#'
        invariant
            from <= to <= s@.len(),
            without_hashes(bare) == without_hashes(s@.subrange(from as int, to as int)),
        decreases to - from,
    {
        assert(s@.subrange(from as int, to as int).drop_first() =~= s@.subrange(
            from + 1,
            to as int,
        ));
        from += 1;
    }
    assert(digits_of(s@) == s@.subrange(from as int, to as int));
    if to - from != 6 {
        return None;
    }
    let r = hex_pair(s.get_char(from), s.get_char(from + 1));
    let g = hex_pair(s.get_char(from + 2), s.get_char(from + 3));
    let b = hex_pair(s.get_char(from + 4), s.get_char(from + 5));
    match (r, g, b) {
        (Some(r), Some(g), Some(b)) => Some((r, g, b)),
        _ => None,
    }
}

/// A color as a number sign and six digits in upper case.
pub open spec fn hex_text(r: u8, g: u8, b: u8) -> Seq<char> {
    seq![
        '#',
        crate::text::digit(r as int / 16),
        crate::text::digit(r as int % 16),
        crate::text::digit(g as int / 16),
        crate::text::digit(g as int % 16),
        crate::text::digit(b as int / 16),
        crate::text::digit(b as int % 16),
    ]
}

/// A color as a number sign and six digits in upper case.
pub fn format_hex(r: u8, g: u8, b: u8) -> (res: String)
    ensures
        res@ == hex_text(r, g, b),
{
    let mut res = String::new();
    res.push('#');
    res.push(crate::text::digit_char(r / 16));
    res.push(crate::text::digit_char(r % 16));
    res.push(crate::text::digit_char(g / 16));
    res.push(crate::text::digit_char(g % 16));
    res.push(crate::text::digit_char(b / 16));
    res.push(crate::text::digit_char(b % 16));
    assert(res@ =~= hex_text(r, g, b));
    res
}

proof fn lemma_digit_has_its_value(d: int)
    requires
        0 <= d < 16,
    ensures
        hex_value(crate::text::digit(d)) == Some(d),
        crate::text::digit(d) != '#',
        !white_space(crate::text::digit(d)),
{
}

/// Reading what was written gives the color back.
pub proof fn lemma_parse_of_format(r: u8, g: u8, b: u8)
    ensures
        named_color(hex_text(r, g, b)) == Some((r as int, g as int, b as int)),
{
    let t = hex_text(r, g, b);
    lemma_digit_has_its_value(r as int / 16);
    lemma_digit_has_its_value(r as int % 16);
    lemma_digit_has_its_value(g as int / 16);
    lemma_digit_has_its_value(g as int % 16);
    lemma_digit_has_its_value(b as int / 16);
    lemma_digit_has_its_value(b as int % 16);
    let d = t.drop_first();
    assert(t.last() == crate::text::digit(b as int % 16));
    assert(without_leading_space(t) == t);
    assert(without_trailing_space(t) == t);
    assert(without_hashes(d) == d);
    assert(without_hashes(t) == d);
    assert(digits_of(t) == d);
}

} // verus!
