//! Typed reading of stored values: a value type says how it is parsed from
//! text, and the store's typed accessor works with any such type.

use crate::text::chars_of;
use vstd::prelude::*;

verus! {

/// A value type that can be parsed from text.
pub trait FromText: Sized {
    /// The value that the text `s` denotes, if it denotes one.
    spec fn parsed(s: Seq<char>) -> Option<Self>;

    /// Parses `s`.
    fn from_text(s: &str) -> (out: Option<Self>)
        ensures
            out == Self::parsed(s@),
    ;
}

/// The value of a decimal digit.
pub open spec fn digit_of(c: char) -> Option<nat> {
    if '0' as u32 <= c as u32 <= '9' as u32 {
        Some((c as u32 - '0' as u32) as nat)
    } else {
        None
    }
}

/// The number that a sequence of decimal digits denotes; the empty sequence
/// denotes zero, and a sequence with anything but digits denotes nothing.
pub open spec fn decimal(s: Seq<char>) -> Option<nat>
    decreases s.len(),
{
    if s.len() == 0 {
        Some(0)
    } else {
        match (decimal(s.drop_last()), digit_of(s.last())) {
            (Some(high), Some(d)) => Some(high * 10 + d),
            _ => None,
        }
    }
}

/// `s` without a leading `+`.
pub open spec fn unsigned_digits(s: Seq<char>) -> Seq<char> {
    if s.len() > 0 && s[0] == '+' {
        s.drop_first()
    } else {
        s
    }
}

/// The unsigned number up to `max` that `s` denotes: an optional `+`, then
/// at least one decimal digit, and nothing else.
pub open spec fn unsigned_of(s: Seq<char>, max: nat) -> Option<nat> {
    let digits = unsigned_digits(s);
    if digits.len() == 0 {
        None
    } else {
        match decimal(digits) {
            Some(n) => if n <= max {
                Some(n)
            } else {
                None
            },
            None => None,
        }
    }
}

/// The truth value that `s` denotes: `true` or `false`, written exactly so.
pub open spec fn bool_of(s: Seq<char>) -> Option<bool> {
    if s == seq!['t', 'r', 'u', 'e'] {
        Some(true)
    } else if s == seq!['f', 'a', 'l', 's', 'e'] {
        Some(false)
    } else {
        None
    }
}

/// Where a digit sequence denotes a number, so does each of its prefixes, and
/// the prefix denotes no more.
pub proof fn lemma_decimal_prefix(s: Seq<char>, k: int)
    requires
        0 <= k <= s.len(),
        decimal(s) is Some,
    ensures
        decimal(s.take(k)) is Some,
        decimal(s.take(k))->0 <= decimal(s)->0,
    decreases s.len(),
{
    if k == s.len() {
        assert(s.take(k) =~= s);
    } else {
        assert(s.drop_last().take(k) =~= s.take(k));
        lemma_decimal_prefix(s.drop_last(), k);
    }
}

/// Parses an unsigned decimal number that is at most `max`.
pub fn parse_unsigned(s: &str, max: u64) -> (out: Option<u64>)
    ensures
        match unsigned_of(s@, max as nat) {
            Some(n) => out == Some(n as u64) && n <= max,
            None => out is None,
        },
{
    let v = chars_of(s);
    let n = v.len();
    let start: usize = if n > 0 && v[0] == '+' {
        1
    } else {
        0
    };
    let ghost digits = v@.subrange(start as int, n as int);
    assert(digits =~= unsigned_digits(s@));
    if start == n {
        return None;
    }
    let mut acc: u64 = 0;
    let mut i: usize = start;
    assert(digits.take(0) =~= Seq::<char>::empty());
    while i < n
        invariant
            start <= i <= n == v@.len(),
            digits == v@.subrange(start as int, n as int),
            digits == unsigned_digits(s@),
            decimal(digits.take(i - start)) == Some(acc as nat),
            acc <= max,
        decreases n - i,
    {
        let c = v[i];
        let code = c as u32;
        let ghost next = digits.take(i - start + 1);
        assert(next.drop_last() =~= digits.take(i - start));
        assert(next.last() == c);
        if code < '0' as u32 || code > '9' as u32 {
            proof {
                if decimal(digits) is Some {
                    lemma_decimal_prefix(digits, i - start + 1);
                }
            }
            return None;
        }
        let d: u64 = (code - '0' as u32) as u64;
        if d > max || acc > (max - d) / 10 {
            proof {
                assert(acc * 10 + d > max);
                if decimal(digits) is Some {
                    lemma_decimal_prefix(digits, i - start + 1);
                }
            }
            return None;
        }
        acc = acc * 10 + d;
        i += 1;
    }
    assert(digits.take(n - start) =~= digits);
    Some(acc)
}

impl FromText for u8 {
    open spec fn parsed(s: Seq<char>) -> Option<u8> {
        match unsigned_of(s, u8::MAX as nat) {
            Some(n) => Some(n as u8),
            None => None,
        }
    }

    fn from_text(s: &str) -> (out: Option<u8>) {
        match parse_unsigned(s, u8::MAX as u64) {
            Some(n) => Some(n as u8),
            None => None,
        }
    }
}

impl FromText for u16 {
    open spec fn parsed(s: Seq<char>) -> Option<u16> {
        match unsigned_of(s, u16::MAX as nat) {
            Some(n) => Some(n as u16),
            None => None,
        }
    }

    fn from_text(s: &str) -> (out: Option<u16>) {
        match parse_unsigned(s, u16::MAX as u64) {
            Some(n) => Some(n as u16),
            None => None,
        }
    }
}

impl FromText for u32 {
    open spec fn parsed(s: Seq<char>) -> Option<u32> {
        match unsigned_of(s, u32::MAX as nat) {
            Some(n) => Some(n as u32),
            None => None,
        }
    }

    fn from_text(s: &str) -> (out: Option<u32>) {
        match parse_unsigned(s, u32::MAX as u64) {
            Some(n) => Some(n as u32),
            None => None,
        }
    }
}

impl FromText for u64 {
    open spec fn parsed(s: Seq<char>) -> Option<u64> {
        match unsigned_of(s, u64::MAX as nat) {
            Some(n) => Some(n as u64),
            None => None,
        }
    }

    fn from_text(s: &str) -> (out: Option<u64>) {
        parse_unsigned(s, u64::MAX)
    }
}

impl FromText for bool {
    open spec fn parsed(s: Seq<char>) -> Option<bool> {
        bool_of(s)
    }

    fn from_text(s: &str) -> (out: Option<bool>) {
        let v = chars_of(s);
        if v.len() == 4 && v[0] == 't' && v[1] == 'r' && v[2] == 'u' && v[3] == 'e' {
            assert(v@ =~= seq!['t', 'r', 'u', 'e']);
            Some(true)
        } else if v.len() == 5 && v[0] == 'f' && v[1] == 'a' && v[2] == 'l' && v[3] == 's' && v[4]
            == 'e' {
            assert(v@ =~= seq!['f', 'a', 'l', 's', 'e']);
            Some(false)
        } else {
            assert(seq!['t', 'r', 'u', 'e'].len() == 4);
            assert(seq!['f', 'a', 'l', 's', 'e'].len() == 5);
            None
        }
    }
}

} // verus!
