//! The revision clock: positions in one object's update log.
//!
//! A [`Rid`] is the position that the log store stamps on an appended
//! update, and the checkpoint that a subscriber keeps to know where to
//! resume. Positions are totally ordered, first by timestamp and then by
//! sequence number, and have the canonical text form
//! `<timestamp>-<seq_no>`, both parts in decimal.

use crate::decimal::{
    decimal, is_digit, lemma_decimal_denotes, parse_digits, push_decimal, unsigned_of,
};
use crate::text::{ascii_string, find_byte, first_index_of, is_ascii_bytes, lemma_first_index_of};
use core::cmp::Ordering;
use vstd::prelude::*;
use vstd::std_specs::cmp::PartialOrdSpecImpl;
use vstd::string::StringSliceAdditionalSpecFns;
use vstd::utf8::{decode_utf8, encode_utf8};

verus! {

/// A position in an object's update log.
#[derive(Clone, Copy, Debug, PartialEq, Eq, Structural, Hash, Ord)]
pub struct Rid {
    pub timestamp: u64,
    pub seq_no: u16,
}

/// The text is not of the form `<timestamp>-<seq_no>`.
#[derive(Clone, Copy, Debug, PartialEq, Eq, Structural)]
pub struct InvalidRid;

/// The canonical text of a position.
pub open spec fn rid_text(r: Rid) -> Seq<u8> {
    decimal(r.timestamp as nat) + seq![45u8] + decimal(r.seq_no as nat)
}

/// The position that a text denotes, if any: the digits before the first
/// `-` are a timestamp that fits 64 bits, and the digits after it are a
/// sequence number that fits 16 bits.
pub open spec fn rid_of_text(s: Seq<u8>) -> Option<Rid> {
    let k = first_index_of(s, 45);
    if k < s.len() {
        match (
            unsigned_of(s.take(k), u64::MAX as nat),
            unsigned_of(s.skip(k + 1), u16::MAX as nat),
        ) {
            (Some(t), Some(q)) => Some(Rid { timestamp: t as u64, seq_no: q as u16 }),
            _ => None,
        }
    } else {
        None
    }
}

impl Rid {
    /// `self` comes strictly before `other`.
    pub open spec fn precedes(self, other: Rid) -> bool {
        self.timestamp < other.timestamp || (self.timestamp == other.timestamp && self.seq_no
            < other.seq_no)
    }

    /// `self` comes before `other` or is the same position.
    pub open spec fn at_most(self, other: Rid) -> bool {
        self.precedes(other) || self == other
    }

    pub fn new(timestamp: u64, seq_no: u16) -> (r: Rid)
        ensures
            r.timestamp == timestamp,
            r.seq_no == seq_no,
    {
        Rid { timestamp, seq_no }
    }

    /// Whether `self` comes strictly before `other`.
    pub fn is_before(&self, other: &Rid) -> (r: bool)
        ensures
            r == self.precedes(*other),
    {
        self.timestamp < other.timestamp || (self.timestamp == other.timestamp && self.seq_no
            < other.seq_no)
    }

    /// Whether `self` comes before `other` or equals it.
    pub fn is_at_most(&self, other: &Rid) -> (r: bool)
        ensures
            r == self.at_most(*other),
    {
        self.timestamp < other.timestamp || (self.timestamp == other.timestamp && self.seq_no
            <= other.seq_no)
    }

    /// Reads a position from its text form.
    pub fn parse(bytes: &[u8]) -> (r: Option<Rid>)
        ensures
            r == rid_of_text(bytes@),
    {
        let n: usize = bytes.len();
        let k: usize = find_byte(bytes, 0, n, 45);
        proof {
            assert(bytes@.subrange(0, n as int) =~= bytes@);
        }
        if k >= n {
            return None;
        }
        proof {
            assert(bytes@.take(k as int) =~= bytes@.subrange(0, k as int));
            assert(bytes@.skip(k as int + 1) =~= bytes@.subrange(k as int + 1, n as int));
        }
        let timestamp = parse_digits(bytes, 0, k, u64::MAX);
        let seq_no = parse_digits(bytes, k + 1, n, 65535);
        match (timestamp, seq_no) {
            (Some(t), Some(q)) => Some(Rid { timestamp: t, seq_no: q as u16 }),
            _ => None,
        }
    }

    /// Reads a position from its text form.
    pub fn from_str(s: &str) -> (r: Result<Rid, InvalidRid>)
        ensures
            match r {
                Ok(rid) => rid_of_text(s.spec_bytes()) == Some(rid),
                Err(_) => rid_of_text(s.spec_bytes()) is None,
            },
    {
        match Rid::parse(s.as_bytes()) {
            Some(rid) => Ok(rid),
            None => Err(InvalidRid),
        }
    }

    /// Writes the canonical text of the position.
    pub fn to_bytes(&self) -> (out: Vec<u8>)
        ensures
            out@ == rid_text(*self),
    {
        let mut out: Vec<u8> = Vec::new();
        push_decimal(self.timestamp, &mut out);
        out.push(45);
        push_decimal(self.seq_no as u64, &mut out);
        proof {
            assert(out@ =~= rid_text(*self));
        }
        out
    }

    /// The canonical text of the position as a string.
    pub fn to_string(&self) -> (s: String)
        ensures
            encode_utf8(s@) == rid_text(*self),
            s@ == decode_utf8(rid_text(*self)),
    {
        let bytes = self.to_bytes();
        proof {
            lemma_rid_text_is_ascii(*self);
        }
        ascii_string(bytes)
    }
}

impl PartialOrd for Rid {
    fn partial_cmp(&self, other: &Rid) -> (r: Option<Ordering>) {
        if self.timestamp < other.timestamp {
            Some(Ordering::Less)
        } else if self.timestamp > other.timestamp {
            Some(Ordering::Greater)
        } else if self.seq_no < other.seq_no {
            Some(Ordering::Less)
        } else if self.seq_no > other.seq_no {
            Some(Ordering::Greater)
        } else {
            Some(Ordering::Equal)
        }
    }
}

impl PartialOrdSpecImpl for Rid {
    open spec fn obeys_partial_cmp_spec() -> bool {
        true
    }

    open spec fn partial_cmp_spec(&self, other: &Rid) -> Option<Ordering> {
        if self.precedes(*other) {
            Some(Ordering::Less)
        } else if other.precedes(*self) {
            Some(Ordering::Greater)
        } else {
            Some(Ordering::Equal)
        }
    }
}

/// The canonical text holds ASCII only.
pub proof fn lemma_rid_text_is_ascii(r: Rid)
    ensures
        is_ascii_bytes(rid_text(r)),
{
    let a = decimal(r.timestamp as nat);
    let b = decimal(r.seq_no as nat);
    lemma_decimal_denotes(r.timestamp as nat);
    lemma_decimal_denotes(r.seq_no as nat);
    let s = rid_text(r);
    assert forall|i: int| 0 <= i < s.len() implies #[trigger] s[i] < 128 by {
        if i < a.len() {
            assert(s[i] == a[i]);
            assert(is_digit(a[i]));
        } else if i == a.len() {
        } else {
            assert(s[i] == b[i - a.len() - 1]);
            assert(is_digit(b[i - a.len() - 1]));
        }
    }
}

/// Reading back the canonical text of a position gives the position.
pub proof fn lemma_rid_roundtrip(r: Rid)
    ensures
        rid_of_text(rid_text(r)) == Some(r),
{
    let a = decimal(r.timestamp as nat);
    let b = decimal(r.seq_no as nat);
    lemma_decimal_denotes(r.timestamp as nat);
    lemma_decimal_denotes(r.seq_no as nat);
    let s = rid_text(r);
    let k = a.len() as int;
    assert forall|i: int| 0 <= i < k implies s[i] != 45 by {
        assert(s[i] == a[i]);
        assert(is_digit(a[i]));
    }
    assert(s[k] == 45);
    lemma_first_index_of(s, 45, k);
    assert(s.take(k) =~= a);
    assert(s.skip(k + 1) =~= b);
}

/// Different positions have different canonical texts.
pub proof fn lemma_rid_text_injective(a: Rid, b: Rid)
    requires
        rid_text(a) == rid_text(b),
    ensures
        a == b,
{
    lemma_rid_roundtrip(a);
    lemma_rid_roundtrip(b);
}

/// Positions are totally ordered: exactly one of `a` before `b`, `a == b`,
/// `b` before `a` holds, and `precedes` is transitive.
pub proof fn lemma_rid_total_order(a: Rid, b: Rid, c: Rid)
    ensures
        !a.precedes(a),
        a.precedes(b) || a == b || b.precedes(a),
        !(a.precedes(b) && b.precedes(a)),
        a.precedes(b) && b.precedes(c) ==> a.precedes(c),
        a.at_most(b) <==> !b.precedes(a),
{
}

} // verus!
