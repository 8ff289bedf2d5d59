//! Decimal integers as ASCII text.
//!
//! Positions, user ids, collab kinds and flag sets all travel as decimal
//! text. This module defines what such text denotes, and provides the
//! executable parser and formatter together with the proof that formatting
//! followed by parsing gives the number back.
//!
//! The accepted grammar is an optional sign (`+`, and `-` for signed
//! numbers) followed by one or more ASCII digits. Leading zeros are
//! accepted; surrounding whitespace is not.

use vstd::prelude::*;

verus! {

/// The byte is one of `'0'..='9'`.
pub open spec fn is_digit(b: u8) -> bool {
    48 <= b && b <= 57
}

/// Every byte of `s` is a decimal digit.
pub open spec fn all_digits(s: Seq<u8>) -> bool {
    forall|i: int| 0 <= i < s.len() ==> is_digit(#[trigger] s[i])
}

/// The number that a run of decimal digits denotes, most significant first.
pub open spec fn digits_value(s: Seq<u8>) -> nat
    decreases s.len(),
{
    if s.len() == 0 {
        0
    } else {
        digits_value(s.drop_last()) * 10 + (s.last() - 48) as nat
    }
}

/// What a sign-less run of digits denotes when the result must not exceed
/// `max`: nothing if the run is empty, holds a non-digit, or is too large.
pub open spec fn unsigned_of(body: Seq<u8>, max: nat) -> Option<nat> {
    if body.len() > 0 && all_digits(body) && digits_value(body) <= max {
        Some(digits_value(body))
    } else {
        None
    }
}

/// What the text denotes as an unsigned number no larger than `max`.
/// One leading `+` is allowed.
pub open spec fn unsigned_text(s: Seq<u8>, max: nat) -> Option<nat> {
    if s.len() > 0 && s[0] == 43 {
        unsigned_of(s.skip(1), max)
    } else {
        unsigned_of(s, max)
    }
}

/// What the text denotes as a signed number within `min..=max`
/// (`min <= 0 <= max`). One leading `+` or `-` is allowed.
pub open spec fn signed_text(s: Seq<u8>, min: int, max: int) -> Option<int> {
    if s.len() > 0 && s[0] == 45 {
        match unsigned_of(s.skip(1), (-min) as nat) {
            Some(m) => Some(-(m as int)),
            None => None,
        }
    } else {
        match unsigned_text(s, max as nat) {
            Some(m) => Some(m as int),
            None => None,
        }
    }
}

/// The canonical decimal text of `n`: no sign, no leading zeros, `"0"` for
/// zero.
pub open spec fn decimal(n: nat) -> Seq<u8>
    decreases n,
{
    if n < 10 {
        seq![(48 + n) as u8]
    } else {
        decimal(n / 10).push((48 + n % 10) as u8)
    }
}

/// The canonical decimal text of a signed number: `-` in front of the
/// magnitude for negative numbers, no sign otherwise.
pub open spec fn signed_decimal(v: int) -> Seq<u8> {
    if v < 0 {
        seq![45u8] + decimal((-v) as nat)
    } else {
        decimal(v as nat)
    }
}

/// A prefix of a digit run never denotes more than the whole run.
pub proof fn lemma_prefix_value_le(s: Seq<u8>, k: int)
    requires
        all_digits(s),
        0 <= k <= s.len(),
    ensures
        digits_value(s.take(k)) <= digits_value(s),
    decreases s.len(),
{
    if k == s.len() {
        assert(s.take(k) =~= s);
    } else {
        let init = s.drop_last();
        assert(all_digits(init)) by {
            assert forall|i: int| 0 <= i < init.len() implies is_digit(#[trigger] init[i]) by {
                assert(init[i] == s[i]);
            }
        }
        lemma_prefix_value_le(init, k);
        assert(init.take(k) =~= s.take(k));
        assert(is_digit(s[s.len() - 1]));
    }
}

/// The canonical text of `n` is a non-empty digit run that denotes `n`.
pub proof fn lemma_decimal_denotes(n: nat)
    ensures
        decimal(n).len() > 0,
        all_digits(decimal(n)),
        digits_value(decimal(n)) == n,
    decreases n,
{
    if n < 10 {
        let s = decimal(n);
        assert(s.len() == 1);
        assert(s.drop_last().len() == 0);
        assert(digits_value(s) == digits_value(s.drop_last()) * 10 + (s.last() - 48) as nat);
    } else {
        lemma_decimal_denotes(n / 10);
        let head = decimal(n / 10);
        let s = decimal(n);
        assert(s == head.push((48 + n % 10) as u8));
        assert(s.drop_last() =~= head);
        assert(s.last() == (48 + n % 10) as u8);
        assert forall|i: int| 0 <= i < s.len() implies is_digit(#[trigger] s[i]) by {
            if i < head.len() {
                assert(s[i] == head[i]);
            }
        }
    }
}

/// Reading back the canonical text of an unsigned number gives the number.
pub proof fn lemma_unsigned_roundtrip(n: nat, max: nat)
    requires
        n <= max,
    ensures
        unsigned_text(decimal(n), max) == Some(n),
{
    lemma_decimal_denotes(n);
    assert(is_digit(decimal(n)[0]));
}

/// Reading back the canonical text of a signed number gives the number.
pub proof fn lemma_signed_roundtrip(v: int, min: int, max: int)
    requires
        min <= 0 <= max,
        min <= v <= max,
    ensures
        signed_text(signed_decimal(v), min, max) == Some(v),
{
    if v < 0 {
        let m = (-v) as nat;
        lemma_decimal_denotes(m);
        let s = signed_decimal(v);
        assert(s[0] == 45);
        assert(s.skip(1) =~= decimal(m));
    } else {
        lemma_unsigned_roundtrip(v as nat, max as nat);
    }
}

/// Parses the digit run `bytes[start..end]` as a number no larger than
/// `max`.
pub fn parse_digits(bytes: &[u8], start: usize, end: usize, max: u64) -> (r: Option<u64>)
    requires
        start <= end <= bytes@.len(),
    ensures
        match r {
            Some(v) => unsigned_of(bytes@.subrange(start as int, end as int), max as nat) == Some(
                v as nat,
            ),
            None => unsigned_of(bytes@.subrange(start as int, end as int), max as nat) is None,
        },
{
    let ghost body = bytes@.subrange(start as int, end as int);
    if start == end {
        return None;
    }
    let mut acc: u64 = 0;
    let mut i: usize = start;
    proof {
        assert(bytes@.subrange(start as int, start as int) =~= Seq::<u8>::empty());
    }
    while i < end
        invariant
            start <= i <= end <= bytes@.len(),
            body == bytes@.subrange(start as int, end as int),
            all_digits(bytes@.subrange(start as int, i as int)),
            acc as nat == digits_value(bytes@.subrange(start as int, i as int)),
            acc <= max,
        decreases end - i,
    {
        let b: u8 = bytes[i];
        let ghost before = bytes@.subrange(start as int, i as int);
        let ghost upto = bytes@.subrange(start as int, i as int + 1);
        proof {
            assert(upto.drop_last() =~= before);
            assert(upto.last() == b);
            assert(body.take(i as int + 1 - start as int) =~= upto);
            assert(body[i as int - start as int] == b);
        }
        if b < 48 || b > 57 {
            return None;
        }
        let d: u64 = (b - 48) as u64;
        if d > max || acc > (max - d) / 10 {
            proof {
                assert(acc * 10 + d > max);
                if all_digits(body) {
                    lemma_prefix_value_le(body, i as int + 1 - start as int);
                }
            }
            return None;
        }
        acc = acc * 10 + d;
        proof {
            assert forall|j: int| 0 <= j < upto.len() implies is_digit(#[trigger] upto[j]) by {
                if j < before.len() {
                    assert(upto[j] == before[j]);
                }
            }
        }
        i = i + 1;
    }
    Some(acc)
}

/// Parses the whole of `bytes[start..end]` as an unsigned number no larger
/// than `max`, with an optional leading `+`.
pub fn parse_unsigned(bytes: &[u8], start: usize, end: usize, max: u64) -> (r: Option<u64>)
    requires
        start <= end <= bytes@.len(),
    ensures
        match r {
            Some(v) => unsigned_text(bytes@.subrange(start as int, end as int), max as nat)
                == Some(v as nat),
            None => unsigned_text(bytes@.subrange(start as int, end as int), max as nat) is None,
        },
{
    let ghost s = bytes@.subrange(start as int, end as int);
    if start < end && bytes[start] == 43 {
        proof {
            assert(s[0] == bytes@[start as int]);
            assert(s.skip(1) =~= bytes@.subrange(start as int + 1, end as int));
        }
        parse_digits(bytes, start + 1, end, max)
    } else {
        proof {
            if start < end {
                assert(s[0] == bytes@[start as int]);
            }
        }
        parse_digits(bytes, start, end, max)
    }
}

/// Parses the whole of `bytes[start..end]` as a signed 64-bit number.
pub fn parse_i64(bytes: &[u8], start: usize, end: usize) -> (r: Option<i64>)
    requires
        start <= end <= bytes@.len(),
    ensures
        match r {
            Some(v) => signed_text(
                bytes@.subrange(start as int, end as int),
                i64::MIN as int,
                i64::MAX as int,
            ) == Some(v as int),
            None => signed_text(
                bytes@.subrange(start as int, end as int),
                i64::MIN as int,
                i64::MAX as int,
            ) is None,
        },
{
    let ghost s = bytes@.subrange(start as int, end as int);
    if start < end && bytes[start] == 45 {
        proof {
            assert(s[0] == bytes@[start as int]);
            assert(s.skip(1) =~= bytes@.subrange(start as int + 1, end as int));
        }
        match parse_digits(bytes, start + 1, end, 0x8000_0000_0000_0000u64) {
            Some(m) => {
                if m == 0x8000_0000_0000_0000u64 {
                    Some(i64::MIN)
                } else {
                    Some(0 - (m as i64))
                }
            },
            None => None,
        }
    } else {
        proof {
            if start < end {
                assert(s[0] == bytes@[start as int]);
            }
        }
        match parse_unsigned(bytes, start, end, 0x7fff_ffff_ffff_ffffu64) {
            Some(m) => Some(m as i64),
            None => None,
        }
    }
}

/// Parses the whole of `bytes[start..end]` as a signed 32-bit number.
pub fn parse_i32(bytes: &[u8], start: usize, end: usize) -> (r: Option<i32>)
    requires
        start <= end <= bytes@.len(),
    ensures
        match r {
            Some(v) => signed_text(
                bytes@.subrange(start as int, end as int),
                i32::MIN as int,
                i32::MAX as int,
            ) == Some(v as int),
            None => signed_text(
                bytes@.subrange(start as int, end as int),
                i32::MIN as int,
                i32::MAX as int,
            ) is None,
        },
{
    match parse_i64(bytes, start, end) {
        Some(v) => {
            if v < -0x8000_0000i64 || v > 0x7fff_ffffi64 {
                None
            } else {
                Some(v as i32)
            }
        },
        None => None,
    }
}

/// Appends the canonical decimal text of `n` to `out`.
pub fn push_decimal(n: u64, out: &mut Vec<u8>)
    ensures
        final(out)@ == old(out)@ + decimal(n as nat),
    decreases n,
{
    if n < 10 {
        out.push(48 + (n as u8));
        proof {
            assert(final(out)@ =~= old(out)@ + decimal(n as nat));
        }
    } else {
        push_decimal(n / 10, out);
        let d: u8 = (n % 10) as u8;
        out.push(48 + d);
        proof {
            assert(out@ =~= old(out)@ + decimal(n as nat));
        }
    }
}

/// Appends the canonical decimal text of a signed number to `out`.
pub fn push_signed_decimal(v: i64, out: &mut Vec<u8>)
    ensures
        final(out)@ == old(out)@ + signed_decimal(v as int),
{
    if v < 0 {
        out.push(45);
        let m: u64 = if v == i64::MIN {
            0x8000_0000_0000_0000u64
        } else {
            (0 - v) as u64
        };
        push_decimal(m, out);
        proof {
            assert(out@ =~= old(out)@ + signed_decimal(v as int));
        }
    } else {
        push_decimal(v as u64, out);
    }
}

} // verus!
