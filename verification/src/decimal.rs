//! Decimal numbers as ASCII bytes: what a run of digits is worth, and how a
//! number is written.
use crate::text::is_digit_byte;
use vstd::prelude::*;
use vstd::slice::slice_subrange;

verus! {

/// Every byte of `s` is an ASCII digit.
pub open spec fn all_digits(s: Seq<u8>) -> bool {
    forall|i: int| 0 <= i < s.len() ==> is_digit_byte(#[trigger] s[i])
}

/// The number that the digits `s` write in base ten, most significant first.
pub open spec fn decimal_value(s: Seq<u8>) -> nat
    decreases s.len(),
{
    if s.len() == 0 {
        0
    } else {
        (decimal_value(s.drop_last()) * 10 + (s.last() - 0x30)) as nat
    }
}

/// What a run of digits is worth as a `u64`: nothing where the run is empty,
/// holds another byte, or writes a number above `u64::MAX`.
pub open spec fn digits_to_u64(s: Seq<u8>) -> Option<u64> {
    if s.len() > 0 && all_digits(s) && decimal_value(s) <= u64::MAX {
        Some(decimal_value(s) as u64)
    } else {
        None
    }
}

/// A longer run of digits is worth at least as much as any of its prefixes.
pub proof fn lemma_decimal_value_prefix(s: Seq<u8>, n: int)
    requires
        all_digits(s),
        0 <= n <= s.len(),
    ensures
        decimal_value(s.take(n)) <= decimal_value(s),
    decreases s.len(),
{
    if n == s.len() {
        assert(s.take(n) =~= s);
    } else {
        assert(s.drop_last().take(n) =~= s.take(n));
        assert(all_digits(s.drop_last()));
        lemma_decimal_value_prefix(s.drop_last(), n);
    }
}

/// Reads a run of ASCII digits as a `u64`.
pub fn buf_to_u64(s: &[u8]) -> (r: Option<u64>)
    ensures
        r == digits_to_u64(s@),
{
    if s.len() == 0 {
        return None;
    }
    let mut value: u64 = 0;
    let mut i: usize = 0;
    while i < s.len()
        invariant
            0 <= i <= s.len(),
            all_digits(s@.take(i as int)),
            value == decimal_value(s@.take(i as int)),
        decreases s.len() - i,
    {
        let b = s[i];
        proof {
            assert(s@.take(i + 1).drop_last() =~= s@.take(i as int));
            assert(s@.take(i + 1).last() == b);
        }
        if !nom::character::is_digit(b) {
            assert(!all_digits(s@));
            return None;
        }
        let next = match value.checked_mul(10) {
            Some(tens) => tens.checked_add((b - 0x30) as u64),
            None => None,
        };
        match next {
            Some(v) => {
                value = v;
            },
            None => {
                proof {
                    if all_digits(s@) {
                        lemma_decimal_value_prefix(s@, i + 1);
                    }
                }
                return None;
            },
        }
        i = i + 1;
    }
    assert(s@.take(i as int) =~= s@);
    Some(value)
}

pub const PLUS: u8 = 0x2B;

/// What `s` is worth as an unsigned number: a run of digits, which one `+` may
/// precede, and nothing else.
pub open spec fn unsigned(s: Seq<u8>) -> Option<u64> {
    if s.len() > 0 && s[0] == PLUS {
        digits_to_u64(s.drop_first())
    } else {
        digits_to_u64(s)
    }
}

/// Reads an unsigned number.
pub fn parse_u64(s: &[u8]) -> (r: Option<u64>)
    ensures
        r == unsigned(s@),
{
    if s.len() > 0 && s[0] == PLUS {
        let digits = slice_subrange(s, 1, s.len());
        assert(digits@ =~= s@.drop_first());
        buf_to_u64(digits)
    } else {
        buf_to_u64(s)
    }
}

/// How `n` is written in base ten: no sign, no leading zero, `0` as one digit.
pub open spec fn decimal_repr(n: nat) -> Seq<u8>
    decreases n,
{
    if n < 10 {
        seq![(0x30 + n) as u8]
    } else {
        decimal_repr(n / 10).push((0x30 + n % 10) as u8)
    }
}

/// What is written by `decimal_repr` is a run of digits, not empty, and is
/// read back as the number that was written.
pub proof fn lemma_decimal_repr(n: nat)
    ensures
        decimal_repr(n).len() > 0,
        all_digits(decimal_repr(n)),
        decimal_value(decimal_repr(n)) == n,
    decreases n,
{
    let r = decimal_repr(n);
    if n < 10 {
        assert(r.drop_last() =~= Seq::<u8>::empty());
        assert(decimal_value(r.drop_last()) == 0);
    } else {
        lemma_decimal_repr(n / 10);
        assert(r.drop_last() =~= decimal_repr(n / 10));
    }
}

/// Appends to `out` the digits that write `n` in base ten.
pub fn push_decimal(out: &mut Vec<u8>, n: u64)
    ensures
        final(out)@ == old(out)@ + decimal_repr(n as nat),
    decreases n,
{
    if n >= 10 {
        push_decimal(out, n / 10);
    }
    let digit: u8 = (n % 10) as u8;
    out.push(0x30 + digit);
    assert(out@ =~= old(out)@ + decimal_repr(n as nat));
}

} // verus!
