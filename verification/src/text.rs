//! Byte-level helpers for the textual wire forms: searching for a
//! delimiter, matching a fixed prefix, copying a range, and moving between
//! byte vectors and `String`.

use vstd::prelude::*;
use vstd::utf8::{
    decode_utf8, encode_utf8, partial_valid_utf8, partial_valid_utf8_extend_ascii_block, valid_utf8,
};

verus! {

/// The index of the first occurrence of `b` in `s`, or `s.len()` if there
/// is none.
pub open spec fn first_index_of(s: Seq<u8>, b: u8) -> int
    decreases s.len(),
{
    if s.len() == 0 {
        0
    } else if s[0] == b {
        0
    } else {
        1 + first_index_of(s.skip(1), b)
    }
}

/// `first_index_of` is the one index `k` such that `b` does not occur
/// before `k` and either occurs at `k` or `k` is the end.
pub proof fn lemma_first_index_of(s: Seq<u8>, b: u8, k: int)
    requires
        0 <= k <= s.len(),
        forall|i: int| 0 <= i < k ==> s[i] != b,
        k < s.len() ==> s[k] == b,
    ensures
        first_index_of(s, b) == k,
    decreases s.len(),
{
    if s.len() == 0 {
    } else if k == 0 {
    } else {
        let rest = s.skip(1);
        assert forall|i: int| 0 <= i < k - 1 implies rest[i] != b by {
            assert(rest[i] == s[i + 1]);
        }
        lemma_first_index_of(rest, b, k - 1);
    }
}

/// Every byte is below 128.
pub open spec fn is_ascii_bytes(s: Seq<u8>) -> bool {
    forall|i: int| 0 <= i < s.len() ==> #[trigger] s[i] < 128
}

/// ASCII bytes are valid UTF-8.
pub proof fn lemma_ascii_is_utf8(s: Seq<u8>)
    requires
        is_ascii_bytes(s),
    ensures
        valid_utf8(s),
{
    assert(s.subrange(0, 0) =~= Seq::<u8>::empty());
    assert(partial_valid_utf8(s, 0));
    assert forall|i: int| 0 <= i < s.len() implies #[trigger] vstd::utf8::is_leading_byte_width_1(
        s[i],
    ) by {
        let x = s[i];
        assert(x < 128);
        assert(x & 0x80 == 0) by (bit_vector)
            requires
                x < 128,
        ;
    }
    partial_valid_utf8_extend_ascii_block(s, 0, s.len() as int);
    assert(s.subrange(0, s.len() as int) =~= s);
}

/// Finds the first occurrence of `b` in `bytes[start..end]`; the result is
/// `end` if there is none.
pub fn find_byte(bytes: &[u8], start: usize, end: usize, b: u8) -> (k: usize)
    requires
        start <= end <= bytes@.len(),
    ensures
        start <= k <= end,
        k - start == first_index_of(bytes@.subrange(start as int, end as int), b),
{
    let ghost s = bytes@.subrange(start as int, end as int);
    let mut k: usize = start;
    while k < end && bytes[k] != b
        invariant
            start <= k <= end <= bytes@.len(),
            s == bytes@.subrange(start as int, end as int),
            forall|i: int| 0 <= i < k - start ==> s[i] != b,
        decreases end - k,
    {
        proof {
            assert(s[k as int - start as int] == bytes@[k as int]);
        }
        k = k + 1;
    }
    proof {
        if k < end {
            assert(s[k as int - start as int] == bytes@[k as int]);
        }
        lemma_first_index_of(s, b, k as int - start as int);
    }
    k
}

/// Whether `bytes[start..]` begins with `prefix`.
pub fn has_prefix(bytes: &[u8], start: usize, prefix: &[u8]) -> (r: bool)
    requires
        start <= bytes@.len(),
    ensures
        r == (start + prefix@.len() <= bytes@.len() && bytes@.subrange(
            start as int,
            start + prefix@.len(),
        ) == prefix@),
{
    let n: usize = prefix.len();
    if bytes.len() - start < n {
        return false;
    }
    let ghost window = bytes@.subrange(start as int, start + n);
    let mut i: usize = 0;
    while i < n
        invariant
            i <= n,
            n == prefix@.len(),
            start + n <= bytes@.len() <= usize::MAX,
            window == bytes@.subrange(start as int, start + n),
            forall|j: int| 0 <= j < i ==> window[j] == prefix@[j],
        decreases n - i,
    {
        if bytes[start + i] != prefix[i] {
            proof {
                assert(window[i as int] == bytes@[start + i]);
            }
            return false;
        }
        proof {
            assert(window[i as int] == bytes@[start + i]);
        }
        i = i + 1;
    }
    proof {
        assert(window =~= prefix@);
    }
    true
}

/// Whether two byte strings are the same.
pub fn bytes_equal(a: &[u8], b: &[u8]) -> (r: bool)
    ensures
        r == (a@ == b@),
{
    if a.len() != b.len() {
        return false;
    }
    let r = has_prefix(a, 0, b);
    proof {
        assert(a@.subrange(0, a@.len() as int) =~= a@);
    }
    r
}

/// Copies `bytes[start..end]` into a new vector.
pub fn copy_range(bytes: &[u8], start: usize, end: usize) -> (out: Vec<u8>)
    requires
        start <= end <= bytes@.len(),
    ensures
        out@ == bytes@.subrange(start as int, end as int),
{
    let mut out: Vec<u8> = Vec::new();
    let mut i: usize = start;
    while i < end
        invariant
            start <= i <= end <= bytes@.len(),
            out@ == bytes@.subrange(start as int, i as int),
        decreases end - i,
    {
        out.push(bytes[i]);
        proof {
            assert(out@ =~= bytes@.subrange(start as int, i as int + 1));
        }
        i = i + 1;
    }
    out
}

/// Appends all of `more` to `out`.
pub fn push_all(out: &mut Vec<u8>, more: &[u8])
    ensures
        final(out)@ == old(out)@ + more@,
{
    let mut i: usize = 0;
    while i < more.len()
        invariant
            i <= more@.len(),
            out@ == old(out)@ + more@.subrange(0, i as int),
        decreases more@.len() - i,
    {
        out.push(more[i]);
        proof {
            assert(out@ =~= old(out)@ + more@.subrange(0, i as int + 1));
        }
        i = i + 1;
    }
    proof {
        assert(more@.subrange(0, more@.len() as int) =~= more@);
    }
}

/// `String::from_utf8` of the standard library: the bytes become a string
/// exactly when they are valid UTF-8, and the string then holds the
/// characters that the bytes encode.
#[verifier::external_body]
pub(crate) fn string_from_utf8(bytes: Vec<u8>) -> (r: Option<String>)
    ensures
        match r {
            Some(s) => valid_utf8(bytes@) && s@ == decode_utf8(bytes@),
            None => !valid_utf8(bytes@),
        },
{
    match String::from_utf8(bytes) {
        Ok(s) => Some(s),
        Err(_) => None,
    }
}

/// Turns ASCII bytes into the string that they spell.
pub fn ascii_string(bytes: Vec<u8>) -> (s: String)
    requires
        is_ascii_bytes(bytes@),
    ensures
        s@ == decode_utf8(bytes@),
        encode_utf8(s@) == bytes@,
{
    proof {
        lemma_ascii_is_utf8(bytes@);
        vstd::utf8::decode_utf8_encode_utf8(bytes@);
    }
    match string_from_utf8(bytes) {
        Some(s) => s,
        None => String::new(),
    }
}

} // verus!
