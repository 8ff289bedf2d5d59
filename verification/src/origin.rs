//! Who authored an update.
//!
//! An origin is empty (no provenance, as when replaying from storage), the
//! server, or a client: a user on one device. On the wire an origin is
//! text:
//!
//! | origin | text |
//! |---|---|
//! | empty | the empty text |
//! | server | `server` |
//! | client | `[uid:<uid>|device_id:<device id>]` |
//!
//! The user id is a signed decimal number; the device id is any UTF-8 text
//! and runs up to the closing bracket that ends the whole text.

use crate::decimal::{
    decimal, is_digit, lemma_decimal_denotes, lemma_signed_roundtrip, parse_i64,
    push_signed_decimal, signed_decimal, signed_text,
};
use crate::text::{
    bytes_equal, copy_range, find_byte, first_index_of, has_prefix, lemma_first_index_of,
    push_all, string_from_utf8,
};
use vstd::prelude::*;
use vstd::string::StringSliceAdditionalSpecFns;
use vstd::utf8::{decode_utf8, encode_utf8, valid_utf8};

verus! {

/// A user on one device.
#[derive(Debug, Clone, PartialEq, Eq, Hash)]
pub struct CollabClient {
    pub uid: i64,
    pub device_id: String,
}

/// The author of an update.
#[derive(Debug, Clone, PartialEq, Eq, Hash)]
pub enum CollabOrigin {
    Client(CollabClient),
    Server,
    Empty,
}

/// The mathematical value of an origin.
pub enum OriginView {
    Client { uid: int, device_id: Seq<char> },
    Server,
    Empty,
}

impl View for CollabOrigin {
    type V = OriginView;

    open spec fn view(&self) -> OriginView {
        match self {
            CollabOrigin::Client(c) => OriginView::Client { uid: c.uid as int, device_id: c.device_id@ },
            CollabOrigin::Server => OriginView::Server,
            CollabOrigin::Empty => OriginView::Empty,
        }
    }
}

impl OriginView {
    /// The user id fits the 64 bits that a client holds.
    pub open spec fn wf(self) -> bool {
        match self {
            OriginView::Client { uid, device_id } => i64::MIN <= uid <= i64::MAX,
            _ => true,
        }
    }
}

/// The text `[uid:`.
pub open spec fn uid_tag() -> Seq<u8> {
    seq![91u8, 117u8, 105u8, 100u8, 58u8]
}

/// The text `|device_id:`.
pub open spec fn device_tag() -> Seq<u8> {
    seq![124u8, 100u8, 101u8, 118u8, 105u8, 99u8, 101u8, 95u8, 105u8, 100u8, 58u8]
}

/// The text `server`.
pub open spec fn server_text() -> Seq<u8> {
    seq![115u8, 101u8, 114u8, 118u8, 101u8, 114u8]
}

/// The wire text of an origin.
pub open spec fn origin_text(o: OriginView) -> Seq<u8> {
    match o {
        OriginView::Empty => Seq::empty(),
        OriginView::Server => server_text(),
        OriginView::Client { uid, device_id } => uid_tag() + signed_decimal(uid) + device_tag()
            + encode_utf8(device_id) + seq![93u8],
    }
}

/// The origin that a wire text denotes, if any.
pub open spec fn origin_of_text(s: Seq<u8>) -> Option<OriginView> {
    if s.len() == 0 {
        Some(OriginView::Empty)
    } else if s == server_text() {
        Some(OriginView::Server)
    } else if s.len() >= 5 && s.take(5) == uid_tag() {
        let bar = 5 + first_index_of(s.skip(5), 124);
        if bar + 12 <= s.len() && s.subrange(bar, bar + 11) == device_tag() && s.last() == 93 {
            let device = s.subrange(bar + 11, s.len() - 1);
            match signed_text(s.subrange(5, bar), i64::MIN as int, i64::MAX as int) {
                Some(uid) => if valid_utf8(device) {
                    Some(OriginView::Client { uid, device_id: decode_utf8(device) })
                } else {
                    None
                },
                None => None,
            }
        } else {
            None
        }
    } else {
        None
    }
}

impl CollabClient {
    pub fn new(uid: i64, device_id: String) -> (c: CollabClient)
        ensures
            c.uid == uid,
            c.device_id@ == device_id@,
    {
        CollabClient { uid, device_id }
    }
}

impl CollabOrigin {
    /// Whether two origins are the same author.
    pub fn same_as(&self, other: &CollabOrigin) -> (r: bool)
        ensures
            r == (self@ == other@),
    {
        match (self, other) {
            (CollabOrigin::Empty, CollabOrigin::Empty) => true,
            (CollabOrigin::Server, CollabOrigin::Server) => true,
            (CollabOrigin::Client(a), CollabOrigin::Client(b)) => a.uid == b.uid && a.device_id
                == b.device_id,
            _ => false,
        }
    }

    /// Reads an origin from its wire text.
    pub fn parse(bytes: &[u8]) -> (r: Option<CollabOrigin>)
        ensures
            match r {
                Some(o) => origin_of_text(bytes@) == Some(o@),
                None => origin_of_text(bytes@) is None,
            },
    {
        let n: usize = bytes.len();
        if n == 0 {
            return Some(CollabOrigin::Empty);
        }
        let server: Vec<u8> = vec![115u8, 101u8, 114u8, 118u8, 101u8, 114u8];
        proof {
            assert(server@ =~= server_text());
        }
        if bytes_equal(bytes, server.as_slice()) {
            return Some(CollabOrigin::Server);
        }
        let tag: Vec<u8> = vec![91u8, 117u8, 105u8, 100u8, 58u8];
        proof {
            assert(tag@ =~= uid_tag());
            if n >= 5 {
                assert(bytes@.take(5) =~= bytes@.subrange(0, 5));
            }
        }
        if !has_prefix(bytes, 0, tag.as_slice()) {
            return None;
        }
        let bar: usize = find_byte(bytes, 5, n, 124);
        proof {
            assert(bytes@.skip(5) =~= bytes@.subrange(5, n as int));
        }
        let device_tag_bytes: Vec<u8> = vec![
            124u8,
            100u8,
            101u8,
            118u8,
            105u8,
            99u8,
            101u8,
            95u8,
            105u8,
            100u8,
            58u8,
        ];
        proof {
            assert(device_tag_bytes@ =~= device_tag());
        }
        if n - bar < 12 {
            return None;
        }
        if !has_prefix(bytes, bar, device_tag_bytes.as_slice()) {
            return None;
        }
        if bytes[n - 1] != 93 {
            return None;
        }
        let uid = match parse_i64(bytes, 5, bar) {
            Some(uid) => uid,
            None => {
                return None;
            },
        };
        let device = copy_range(bytes, bar + 11, n - 1);
        match string_from_utf8(device) {
            Some(device_id) => Some(CollabOrigin::Client(CollabClient { uid, device_id })),
            None => None,
        }
    }

    /// Reads an origin from its wire text.
    pub fn from_str(s: &str) -> (r: Option<CollabOrigin>)
        ensures
            match r {
                Some(o) => origin_of_text(s.spec_bytes()) == Some(o@),
                None => origin_of_text(s.spec_bytes()) is None,
            },
    {
        CollabOrigin::parse(s.as_bytes())
    }

    /// Writes the wire text of the origin.
    pub fn to_bytes(&self) -> (out: Vec<u8>)
        ensures
            out@ == origin_text(self@),
    {
        match self {
            CollabOrigin::Empty => Vec::new(),
            CollabOrigin::Server => {
                let out: Vec<u8> = vec![115u8, 101u8, 114u8, 118u8, 101u8, 114u8];
                proof {
                    assert(out@ =~= server_text());
                }
                out
            },
            CollabOrigin::Client(c) => {
                let mut out: Vec<u8> = vec![91u8, 117u8, 105u8, 100u8, 58u8];
                proof {
                    assert(out@ =~= uid_tag());
                }
                push_signed_decimal(c.uid, &mut out);
                let device_tag_bytes: Vec<u8> = vec![
                    124u8,
                    100u8,
                    101u8,
                    118u8,
                    105u8,
                    99u8,
                    101u8,
                    95u8,
                    105u8,
                    100u8,
                    58u8,
                ];
                proof {
                    assert(device_tag_bytes@ =~= device_tag());
                }
                push_all(&mut out, device_tag_bytes.as_slice());
                push_all(&mut out, c.device_id.as_str().as_bytes());
                out.push(93);
                proof {
                    assert(out@ =~= origin_text(self@));
                }
                out
            },
        }
    }
}

/// The text of a signed number holds no `|`.
proof fn lemma_signed_decimal_has_no_bar(v: int)
    ensures
        forall|i: int| 0 <= i < signed_decimal(v).len() ==> signed_decimal(v)[i] != 124,
{
    let s = signed_decimal(v);
    if v < 0 {
        let d = decimal((-v) as nat);
        lemma_decimal_denotes((-v) as nat);
        assert forall|i: int| 0 <= i < s.len() implies s[i] != 124 by {
            if i > 0 {
                assert(s[i] == d[i - 1]);
                assert(is_digit(d[i - 1]));
            }
        }
    } else {
        lemma_decimal_denotes(v as nat);
        assert forall|i: int| 0 <= i < s.len() implies s[i] != 124 by {
            assert(is_digit(s[i]));
        }
    }
}

/// Reading back the wire text of an origin gives the origin.
pub proof fn lemma_origin_roundtrip(o: OriginView)
    requires
        o.wf(),
    ensures
        origin_of_text(origin_text(o)) == Some(o),
{
    match o {
        OriginView::Empty => {},
        OriginView::Server => {},
        OriginView::Client { uid, device_id } => {
            let u = signed_decimal(uid);
            let d = encode_utf8(device_id);
            let s = origin_text(o);
            assert(s == uid_tag() + u + device_tag() + d + seq![93u8]);
            assert(s[0] == 91);
            assert(s != server_text()) by {
                assert(server_text()[0] == 115);
            }
            assert(s.take(5) =~= uid_tag());
            let rest = s.skip(5);
            assert(rest =~= u + device_tag() + d + seq![93u8]);
            lemma_signed_decimal_has_no_bar(uid);
            assert forall|i: int| 0 <= i < u.len() implies rest[i] != 124 by {
                assert(rest[i] == u[i]);
            }
            assert(rest[u.len() as int] == device_tag()[0]);
            lemma_first_index_of(rest, 124, u.len() as int);
            let bar = 5 + u.len() as int;
            assert(s.subrange(bar, bar + 11) =~= device_tag());
            assert(s.last() == 93);
            assert(s.subrange(5, bar) =~= u);
            assert(s.subrange(bar + 11, s.len() - 1) =~= d);
            lemma_signed_roundtrip(uid, i64::MIN as int, i64::MAX as int);
            vstd::utf8::encode_utf8_valid_utf8(device_id);
            vstd::utf8::encode_utf8_decode_utf8(device_id);
        },
    }
}

} // verus!
