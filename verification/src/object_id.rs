//! Object and workspace identifiers.
//!
//! An identifier is a 128-bit value. On the wire it is the sixteen bytes of
//! that value, most significant byte first.

use vstd::prelude::*;

verus! {

/// The number that a byte string denotes, most significant byte first.
pub open spec fn be_value(s: Seq<u8>) -> nat
    decreases s.len(),
{
    if s.len() == 0 {
        0
    } else {
        be_value(s.drop_last()) * 256 + s.last() as nat
    }
}

/// The `n` low-order bytes of `v`, most significant byte first.
pub open spec fn be_bytes(v: nat, n: nat) -> Seq<u8>
    decreases n,
{
    if n == 0 {
        Seq::empty()
    } else {
        be_bytes(v / 256, (n - 1) as nat).push((v % 256) as u8)
    }
}

/// `256` to the power `n`.
pub open spec fn pow256(n: nat) -> nat
    decreases n,
{
    if n == 0 {
        1
    } else {
        256 * pow256((n - 1) as nat)
    }
}

/// A byte string of length `n` denotes a number below `256^n`.
pub proof fn lemma_be_value_bound(s: Seq<u8>)
    ensures
        be_value(s) < pow256(s.len()),
    decreases s.len(),
{
    if s.len() > 0 {
        lemma_be_value_bound(s.drop_last());
    }
}

/// `be_bytes` gives `n` bytes.
pub proof fn lemma_be_bytes_len(v: nat, n: nat)
    ensures
        be_bytes(v, n).len() == n,
    decreases n,
{
    if n > 0 {
        lemma_be_bytes_len(v / 256, (n - 1) as nat);
    }
}

/// Reading back the `n` bytes of a number below `256^n` gives the number.
pub proof fn lemma_be_value_of_bytes(v: nat, n: nat)
    requires
        v < pow256(n),
    ensures
        be_value(be_bytes(v, n)) == v,
    decreases n,
{
    if n > 0 {
        let m = (n - 1) as nat;
        lemma_be_bytes_len(v / 256, m);
        lemma_be_value_of_bytes(v / 256, m);
        let s = be_bytes(v, n);
        assert(s.drop_last() =~= be_bytes(v / 256, m));
        assert(s.last() == (v % 256) as u8);
    }
}

/// Writing the number that a byte string denotes gives the byte string.
pub proof fn lemma_be_bytes_of_value(s: Seq<u8>)
    ensures
        be_bytes(be_value(s), s.len()) == s,
    decreases s.len(),
{
    if s.len() > 0 {
        let init = s.drop_last();
        lemma_be_bytes_of_value(init);
        let v = be_value(s);
        assert(v / 256 == be_value(init));
        assert(v % 256 == s.last() as nat);
        assert(be_bytes(v, s.len()) =~= s);
    }
}

/// `256^16` is `2^128`.
pub proof fn lemma_pow256_16()
    ensures
        pow256(16) == 0x1_0000_0000_0000_0000_0000_0000_0000_0000,
        forall|i: nat| i <= 15 ==> #[trigger] pow256(i) * 256 <= pow256(16),
{
    reveal_with_fuel(pow256, 17);
    assert(pow256(8) == 0x1_0000_0000_0000_0000);
    assert(pow256(16) == 0x1_0000_0000_0000_0000_0000_0000_0000_0000);
    assert forall|i: nat| i <= 15 implies #[trigger] pow256(i) * 256 <= pow256(16) by {
        lemma_pow256_monotone(i + 1, 16);
    }
}

/// `pow256` grows with its argument.
pub proof fn lemma_pow256_monotone(a: nat, b: nat)
    requires
        a <= b,
    ensures
        pow256(a) <= pow256(b),
        pow256(a) >= 1,
    decreases b,
{
    if a < b {
        lemma_pow256_monotone(a, (b - 1) as nat);
    } else if a > 0 {
        lemma_pow256_monotone((a - 1) as nat, (a - 1) as nat);
    }
}

/// The identifier of a collaborative object.
#[derive(Clone, Copy, Debug, PartialEq, Eq, Structural, Hash, PartialOrd, Ord)]
pub struct ObjectId {
    pub value: u128,
}

/// The identifier of a workspace.
pub type WorkspaceId = ObjectId;

/// The sixteen wire bytes of an identifier.
pub open spec fn object_id_bytes(id: ObjectId) -> Seq<u8> {
    be_bytes(id.value as nat, 16)
}

/// The identifier that wire bytes denote: any sixteen bytes do, nothing
/// else does.
pub open spec fn object_id_of_bytes(s: Seq<u8>) -> Option<ObjectId> {
    if s.len() == 16 {
        Some(ObjectId { value: be_value(s) as u128 })
    } else {
        None
    }
}

/// Appends the `n` low-order bytes of `v`, most significant first.
fn push_be(v: u128, n: usize, out: &mut Vec<u8>)
    ensures
        final(out)@ == old(out)@ + be_bytes(v as nat, n as nat),
    decreases n,
{
    if n > 0 {
        push_be(v / 256, n - 1, out);
        out.push((v % 256) as u8);
        proof {
            assert(out@ =~= old(out)@ + be_bytes(v as nat, n as nat));
        }
    } else {
        proof {
            assert(out@ =~= old(out)@ + be_bytes(v as nat, n as nat));
        }
    }
}

impl ObjectId {
    pub fn from_u128(value: u128) -> (id: ObjectId)
        ensures
            id.value == value,
    {
        ObjectId { value }
    }

    pub fn as_u128(&self) -> (v: u128)
        ensures
            v == self.value,
    {
        self.value
    }

    /// Reads an identifier from its wire bytes.
    pub fn from_slice(bytes: &[u8]) -> (r: Option<ObjectId>)
        ensures
            r == object_id_of_bytes(bytes@),
    {
        if bytes.len() != 16 {
            return None;
        }
        let mut acc: u128 = 0;
        let mut i: usize = 0;
        proof {
            assert(bytes@.take(0) =~= Seq::<u8>::empty());
            lemma_pow256_16();
        }
        while i < 16
            invariant
                i <= 16,
                bytes@.len() == 16,
                acc as nat == be_value(bytes@.take(i as int)),
                pow256(16) == 0x1_0000_0000_0000_0000_0000_0000_0000_0000,
                forall|k: nat| k <= 15 ==> #[trigger] pow256(k) * 256 <= pow256(16),
            decreases 16 - i,
        {
            let b: u8 = bytes[i];
            proof {
                lemma_be_value_bound(bytes@.take(i as int));
                assert(bytes@.take(i as int + 1).drop_last() =~= bytes@.take(i as int));
                assert(bytes@.take(i as int + 1).last() == b);
                assert(pow256(i as nat) * 256 <= pow256(16));
                assert(acc * 256 + 255 < pow256(16)) by (nonlinear_arith)
                    requires
                        acc < pow256(i as nat),
                        pow256(i as nat) * 256 <= pow256(16),
                ;
            }
            acc = acc * 256 + (b as u128);
            i = i + 1;
        }
        proof {
            assert(bytes@.take(16) =~= bytes@);
        }
        Some(ObjectId { value: acc })
    }

    /// Writes the sixteen wire bytes of the identifier.
    pub fn to_bytes(&self) -> (out: Vec<u8>)
        ensures
            out@ == object_id_bytes(*self),
    {
        let mut out: Vec<u8> = Vec::new();
        push_be(self.value, 16, &mut out);
        proof {
            assert(out@ =~= object_id_bytes(*self));
        }
        out
    }
}

/// Reading back the wire bytes of an identifier gives the identifier.
pub proof fn lemma_object_id_roundtrip(id: ObjectId)
    ensures
        object_id_of_bytes(object_id_bytes(id)) == Some(id),
{
    lemma_pow256_16();
    lemma_be_bytes_len(id.value as nat, 16);
    lemma_be_value_of_bytes(id.value as nat, 16);
}

/// Writing the identifier that sixteen bytes denote gives the bytes back.
pub proof fn lemma_object_id_bytes_roundtrip(s: Seq<u8>)
    requires
        s.len() == 16,
    ensures
        object_id_bytes(object_id_of_bytes(s).unwrap()) == s,
{
    lemma_pow256_16();
    lemma_be_value_bound(s);
    lemma_be_bytes_of_value(s);
}


/// The lower-case hexadecimal digit for a number below sixteen.
pub open spec fn lower_hex_digit(n: int) -> char {
    if n < 10 {
        ((48 + n) as u8) as char
    } else {
        ((87 + n) as u8) as char
    }
}

/// The text of the identifier with this value: the thirty-two lower-case
/// hexadecimal digits of its sixteen bytes, most significant first, with
/// a `-` after the eighth, twelfth, sixteenth and twentieth digit.
pub open spec fn uuid_text(value: u128) -> Seq<char> {
    let bytes = be_bytes(value as nat, 16);
    Seq::new(
        36,
        |i: int|
            if i == 8 || i == 13 || i == 18 || i == 23 {
                '-'
            } else {
                let d = i - (if i > 8 {
                    1int
                } else {
                    0int
                }) - (if i > 13 {
                    1int
                } else {
                    0int
                }) - (if i > 18 {
                    1int
                } else {
                    0int
                }) - (if i > 23 {
                    1int
                } else {
                    0int
                });
                let byte = bytes[d / 2] as int;
                lower_hex_digit(
                    if d % 2 == 0 {
                        byte / 16
                    } else {
                        byte % 16
                    },
                )
            },
    )
}

/// The value of the identifier that the `uuid` crate reads a text as, if
/// it reads it as one.
pub uninterp spec fn uuid_of_text(text: Seq<char>) -> Option<u128>;

/// `Uuid`'s `Display` from the `uuid` crate, on the identifier made by
/// `Uuid::from_u128`: the hyphenated lower-case form of the value's
/// sixteen big-endian bytes.
#[verifier::external_body]
fn uuid_to_string(value: u128) -> (s: String)
    ensures
        s@ == uuid_text(value),
{
    uuid::Uuid::from_u128(value).to_string()
}

/// `Uuid::parse_str` from the `uuid` crate, with the identifier handed
/// back by its value (`Uuid::as_u128`): whether a text is read, and as
/// what, depends on the text alone.
#[verifier::external_body]
fn uuid_parse_str(text: &str) -> (r: Option<u128>)
    ensures
        r == uuid_of_text(text@),
{
    match uuid::Uuid::parse_str(text) {
        Ok(id) => Some(id.as_u128()),
        Err(_) => None,
    }
}

impl ObjectId {
    /// The identifier as text.
    pub fn to_string(&self) -> (s: String)
        ensures
            s@ == uuid_text(self.value),
    {
        uuid_to_string(self.value)
    }

    /// Reads an identifier from text.
    pub fn parse_str(text: &str) -> (r: Option<ObjectId>)
        ensures
            r == match uuid_of_text(text@) {
                Some(value) => Some(ObjectId { value }),
                None => None,
            },
    {
        match uuid_parse_str(text) {
            Some(value) => Some(ObjectId { value }),
            None => None,
        }
    }
}

} // verus!
