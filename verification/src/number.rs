//! Decimal numbers as `str::parse::<u32>` reads them.
use vstd::prelude::*;
use crate::grammar::ascii_digit;
use crate::text::chars_of;

verus! {

/// The value of a decimal digit.
pub open spec fn digit_value(c: char) -> nat {
    (c as u32 - '0' as u32) as nat
}

/// The value of a string of decimal digits.
pub open spec fn digits_value(d: Seq<char>) -> nat
    decreases d.len(),
{
    if d.len() == 0 {
        0
    } else {
        digits_value(d.drop_last()) * 10 + digit_value(d.last())
    }
}

/// Whether every character is a decimal digit.
pub open spec fn all_digits(d: Seq<char>) -> bool {
    forall|i: int| 0 <= i < d.len() ==> ascii_digit(#[trigger] d[i])
}

/// The number that a string denotes: an optional `+`, then at least one
/// digit, with a value that fits in 32 bits; `None` otherwise.
pub open spec fn decimal_u32(s: Seq<char>) -> Option<u32> {
    let d = if s.len() > 0 && s[0] == '+' {
        s.drop_first()
    } else {
        s
    };
    if d.len() > 0 && all_digits(d) && digits_value(d) <= u32::MAX {
        Some(digits_value(d) as u32)
    } else {
        None
    }
}

proof fn lemma_digits_value_prefix(d: Seq<char>, i: int)
    requires
        0 <= i <= d.len(),
        all_digits(d),
    ensures
        digits_value(d.subrange(0, i)) <= digits_value(d),
    decreases d.len(),
{
    if i < d.len() {
        let p = d.drop_last();
        assert(all_digits(p)) by {
            assert forall|k: int| 0 <= k < p.len() implies ascii_digit(#[trigger] p[k]) by {
                assert(p[k] == d[k]);
            }
        }
        lemma_digits_value_prefix(p, i);
        assert(p.subrange(0, i) =~= d.subrange(0, i));
    } else {
        assert(d.subrange(0, i) =~= d);
    }
}

/// Reads a file descriptor number the way `str::parse::<u32>` does.
pub fn parse_u32(s: &str) -> (r: Option<u32>)
    ensures
        r == decimal_u32(s@),
{
    let chars = chars_of(s);
    let mut start: usize = 0;
    if chars.len() > 0 && chars[0] == '+' {
        start = 1;
    }
    let ghost d = if s@.len() > 0 && s@[0] == '+' {
        s@.drop_first()
    } else {
        s@
    };
    assert(d =~= chars@.subrange(start as int, chars.len() as int));
    if start >= chars.len() {
        return None;
    }
    let mut i: usize = start;
    while i < chars.len()
        invariant
            start <= i <= chars.len(),
            d == chars@.subrange(start as int, chars.len() as int),
            chars@ == s@,
            d == (if s@.len() > 0 && s@[0] == '+' { s@.drop_first() } else { s@ }),
            forall|k: int| 0 <= k < i - start ==> ascii_digit(#[trigger] d[k]),
        decreases chars.len() - i,
    {
        if !('0' <= chars[i] && chars[i] <= '9') {
            assert(d[i - start] == chars[i as int]);
            return None;
        }
        assert(d[i - start] == chars[i as int]);
        i = i + 1;
    }
    assert(all_digits(d));
    let mut value: u32 = 0;
    let mut j: usize = start;
    while j < chars.len()
        invariant
            start <= j <= chars.len(),
            d == chars@.subrange(start as int, chars.len() as int),
            chars@ == s@,
            d == (if s@.len() > 0 && s@[0] == '+' { s@.drop_first() } else { s@ }),
            all_digits(d),
            value as nat == digits_value(d.subrange(0, j - start)),
        decreases chars.len() - j,
    {
        let c = chars[j];
        let ghost k = j - start;
        assert(d[k] == c);
        assert(d.subrange(0, k + 1).drop_last() =~= d.subrange(0, k));
        assert(d.subrange(0, k + 1).last() == c);
        let next: u64 = (value as u64) * 10 + ((c as u32 - '0' as u32) as u64);
        if next > u32::MAX as u64 {
            proof {
                lemma_digits_value_prefix(d, k + 1);
            }
            return None;
        }
        value = next as u32;
        j = j + 1;
    }
    assert(d.subrange(0, d.len() as int) =~= d);
    Some(value)
}

} // verus!
