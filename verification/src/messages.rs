//! The update message codec: one record of an object's append-only log,
//! read into a typed update and written back.
//!
//! A record is the position that the log assigned to it, as text, and a set
//! of named byte-string fields:
//!
//! | field | holds | |
//! |---|---|---|
//! | `oid` | the object id, sixteen bytes | required |
//! | `ct` | the collab kind, a decimal code | required |
//! | `sender` | the origin, as text | required |
//! | `flags` | the flag set, a decimal byte | optional |
//! | `data` | the payload | required |
//!
//! Reading fails on the first field, in the order position, `oid`, `ct`,
//! `sender`, `data`, that is missing or cannot be read. A missing or
//! unreadable `flags` field reads as the empty flag set.

use crate::collab_type::{
    collab_type_code, collab_type_of, lemma_collab_type_roundtrip, CollabType,
};
use crate::decimal::{
    decimal, lemma_signed_roundtrip, lemma_unsigned_roundtrip, parse_i32, parse_unsigned,
    push_decimal, push_signed_decimal, signed_decimal, signed_text, unsigned_text,
};
use crate::object_id::{
    lemma_object_id_roundtrip, object_id_bytes, object_id_of_bytes, ObjectId,
};
use crate::origin::{
    lemma_origin_roundtrip, origin_of_text, origin_text, CollabOrigin, OriginView,
};
use crate::rid::{lemma_rid_roundtrip, rid_of_text, rid_text, Rid};
use crate::text::copy_range;
use vstd::prelude::*;
use vstd::utf8::encode_utf8;

verus! {

/// Auxiliary semantics of an update, as a set of up to eight flags.
#[derive(Clone, Copy, Debug, PartialEq, Eq, Structural, Hash)]
pub struct UpdateFlags {
    pub bits: u8,
}

impl UpdateFlags {
    /// The empty flag set.
    pub fn empty() -> (f: UpdateFlags)
        ensures
            f.bits == 0,
    {
        UpdateFlags { bits: 0 }
    }

    pub fn from_bits(bits: u8) -> (f: UpdateFlags)
        ensures
            f.bits == bits,
    {
        UpdateFlags { bits }
    }

    pub fn bits(&self) -> (bits: u8)
        ensures
            bits == self.bits,
    {
        self.bits
    }

    pub fn is_empty(&self) -> (r: bool)
        ensures
            r == (self.bits == 0),
    {
        self.bits == 0
    }

    /// Whether every flag of `other` is set in `self`.
    pub fn contains(&self, other: UpdateFlags) -> (r: bool)
        ensures
            r == (self.bits & other.bits == other.bits),
    {
        self.bits & other.bits == other.bits
    }

    /// The flags that are set in `self` or in `other`.
    pub fn union(&self, other: UpdateFlags) -> (f: UpdateFlags)
        ensures
            f.bits == self.bits | other.bits,
    {
        UpdateFlags { bits: self.bits | other.bits }
    }
}

impl Default for UpdateFlags {
    fn default() -> (f: UpdateFlags)
        ensures
            f.bits == 0,
    {
        UpdateFlags { bits: 0 }
    }
}

/// One named field of a record.
pub struct RecordField {
    pub name: String,
    pub value: Vec<u8>,
}

/// The named fields of a record. A name has at most one value: writing a
/// name again replaces its value.
pub struct RedisMap {
    entries: Vec<RecordField>,
}

/// The map that a list of fields denotes: later entries win.
pub open spec fn fields_map(entries: Seq<RecordField>) -> Map<Seq<char>, Seq<u8>>
    decreases entries.len(),
{
    if entries.len() == 0 {
        Map::empty()
    } else {
        fields_map(entries.drop_last()).insert(entries.last().name@, entries.last().value@)
    }
}

/// A name that none of the entries from `i` on carries has the value that
/// the entries before `i` give it.
proof fn lemma_fields_map_skips(entries: Seq<RecordField>, key: Seq<char>, i: int)
    requires
        0 <= i <= entries.len(),
        forall|j: int| i <= j < entries.len() ==> entries[j].name@ != key,
    ensures
        fields_map(entries).contains_key(key) == fields_map(entries.take(i)).contains_key(key),
        fields_map(entries).contains_key(key) ==> fields_map(entries)[key] == fields_map(
            entries.take(i),
        )[key],
    decreases entries.len(),
{
    if i == entries.len() {
        assert(entries.take(i) =~= entries);
    } else {
        let init = entries.drop_last();
        assert forall|j: int| i <= j < init.len() implies init[j].name@ != key by {
            assert(init[j] == entries[j]);
        }
        lemma_fields_map_skips(init, key, i);
        assert(init.take(i) =~= entries.take(i));
        assert(entries.last() == entries[entries.len() - 1]);
    }
}

impl View for RedisMap {
    type V = Map<Seq<char>, Seq<u8>>;

    closed spec fn view(&self) -> Map<Seq<char>, Seq<u8>> {
        fields_map(self.entries@)
    }
}

impl RedisMap {
    /// A record without fields.
    pub fn new() -> (m: RedisMap)
        ensures
            m@ == Map::<Seq<char>, Seq<u8>>::empty(),
    {
        RedisMap { entries: Vec::new() }
    }

    /// Sets the value of a field.
    pub fn insert(&mut self, key: &str, value: Vec<u8>)
        ensures
            final(self)@ == old(self)@.insert(key@, value@),
    {
        let ghost before = self.entries@;
        self.entries.push(RecordField { name: key.to_owned(), value });
        proof {
            assert(self.entries@.drop_last() =~= before);
        }
    }

    /// The value of a field, if the record has it.
    pub fn get(&self, key: &str) -> (r: Option<&Vec<u8>>)
        ensures
            match r {
                Some(v) => self@.contains_key(key@) && self@[key@] == v@,
                None => !self@.contains_key(key@),
            },
    {
        let wanted: String = key.to_owned();
        let mut i: usize = self.entries.len();
        while i > 0
            invariant
                i <= self.entries@.len(),
                wanted@ == key@,
                forall|j: int| i <= j < self.entries@.len() ==> self.entries@[j].name@ != key@,
            decreases i,
        {
            if self.entries[i - 1].name == wanted {
                proof {
                    lemma_fields_map_skips(self.entries@, key@, i as int);
                    let upto = self.entries@.take(i as int);
                    assert(upto.last() == self.entries@[i - 1]);
                }
                return Some(&self.entries[i - 1].value);
            }
            i = i - 1;
        }
        proof {
            lemma_fields_map_skips(self.entries@, key@, 0);
            assert(self.entries@.take(0) =~= Seq::<RecordField>::empty());
        }
        None
    }
}

/// A part of a record.
#[derive(Clone, Copy, Debug, PartialEq, Eq, Structural)]
pub enum RecordPart {
    /// The position that the log assigned to the record.
    Position,
    /// The field `oid`.
    ObjectId,
    /// The field `ct`.
    CollabType,
    /// The field `sender`.
    Sender,
    /// The field `data`.
    Data,
}

/// What is wrong with a part of a record.
#[derive(Clone, Copy, Debug, PartialEq, Eq, Structural)]
pub enum Fault {
    /// The record does not have the field.
    Missing,
    /// The part is there but cannot be read.
    Invalid,
}

/// Why a record could not be read.
#[derive(Clone, Copy, Debug, PartialEq, Eq, Structural)]
pub enum DecodeError {
    MalformedRecord { part: RecordPart, fault: Fault },
}

/// One update of an object: the unit of propagation.
#[derive(Debug, PartialEq)]
pub struct UpdateStreamMessage {
    pub last_message_id: Rid,
    pub sender: CollabOrigin,
    pub object_id: ObjectId,
    pub collab_type: CollabType,
    pub update_flags: UpdateFlags,
    pub update: Vec<u8>,
}

/// The mathematical value of an update.
pub struct MessageView {
    pub position: Rid,
    pub sender: OriginView,
    pub object_id: ObjectId,
    pub kind: CollabType,
    pub flags: UpdateFlags,
    pub payload: Seq<u8>,
}

impl View for UpdateStreamMessage {
    type V = MessageView;

    open spec fn view(&self) -> MessageView {
        MessageView {
            position: self.last_message_id,
            sender: self.sender@,
            object_id: self.object_id,
            kind: self.collab_type,
            flags: self.update_flags,
            payload: self.update@,
        }
    }
}

/// The flag set that a record carries: empty unless the field `flags` is
/// there and is a decimal byte.
pub open spec fn flags_of_record(fields: Map<Seq<char>, Seq<u8>>) -> UpdateFlags {
    if fields.contains_key("flags"@) {
        match unsigned_text(fields["flags"@], 255) {
            Some(bits) => UpdateFlags { bits: bits as u8 },
            None => UpdateFlags { bits: 0 },
        }
    } else {
        UpdateFlags { bits: 0 }
    }
}

/// A malformed-record error.
pub open spec fn malformed(part: RecordPart, fault: Fault) -> DecodeError {
    DecodeError::MalformedRecord { part, fault }
}

/// What a record reads as.
pub open spec fn decode_record(id: Seq<u8>, fields: Map<Seq<char>, Seq<u8>>) -> Result<
    MessageView,
    DecodeError,
> {
    if rid_of_text(id) is None {
        Err(malformed(RecordPart::Position, Fault::Invalid))
    } else if !fields.contains_key("oid"@) {
        Err(malformed(RecordPart::ObjectId, Fault::Missing))
    } else if object_id_of_bytes(fields["oid"@]) is None {
        Err(malformed(RecordPart::ObjectId, Fault::Invalid))
    } else if !fields.contains_key("ct"@) {
        Err(malformed(RecordPart::CollabType, Fault::Missing))
    } else if signed_text(fields["ct"@], i32::MIN as int, i32::MAX as int) is None {
        Err(malformed(RecordPart::CollabType, Fault::Invalid))
    } else if !fields.contains_key("sender"@) {
        Err(malformed(RecordPart::Sender, Fault::Missing))
    } else if origin_of_text(fields["sender"@]) is None {
        Err(malformed(RecordPart::Sender, Fault::Invalid))
    } else if !fields.contains_key("data"@) {
        Err(malformed(RecordPart::Data, Fault::Missing))
    } else {
        Ok(
            MessageView {
                position: rid_of_text(id).unwrap(),
                sender: origin_of_text(fields["sender"@]).unwrap(),
                object_id: object_id_of_bytes(fields["oid"@]).unwrap(),
                kind: collab_type_of(
                    signed_text(fields["ct"@], i32::MIN as int, i32::MAX as int).unwrap(),
                ),
                flags: flags_of_record(fields),
                payload: fields["data"@],
            },
        )
    }
}

/// The fields that an update is written as.
pub open spec fn encode_fields(m: MessageView) -> Map<Seq<char>, Seq<u8>> {
    Map::<Seq<char>, Seq<u8>>::empty().insert("oid"@, object_id_bytes(m.object_id)).insert(
        "ct"@,
        signed_decimal(collab_type_code(m.kind)),
    ).insert("sender"@, origin_text(m.sender)).insert("flags"@, decimal(m.flags.bits as nat)).insert(
        "data"@,
        m.payload,
    )
}

impl UpdateStreamMessage {
    /// Reads one record of the log.
    pub fn from_redis_stream(msg_id: String, fields: RedisMap) -> (r: Result<
        UpdateStreamMessage,
        DecodeError,
    >)
        ensures
            match r {
                Ok(m) => decode_record(encode_utf8(msg_id@), fields@) == Ok::<
                    MessageView,
                    DecodeError,
                >(m@),
                Err(e) => decode_record(encode_utf8(msg_id@), fields@) == Err::<
                    MessageView,
                    DecodeError,
                >(e),
            },
    {
        let last_message_id = match Rid::parse(msg_id.as_str().as_bytes()) {
            Some(position) => position,
            None => {
                return Err(
                    DecodeError::MalformedRecord {
                        part: RecordPart::Position,
                        fault: Fault::Invalid,
                    },
                );
            },
        };
        let oid = match fields.get("oid") {
            Some(v) => v,
            None => {
                return Err(
                    DecodeError::MalformedRecord {
                        part: RecordPart::ObjectId,
                        fault: Fault::Missing,
                    },
                );
            },
        };
        let object_id = match ObjectId::from_slice(oid.as_slice()) {
            Some(id) => id,
            None => {
                return Err(
                    DecodeError::MalformedRecord {
                        part: RecordPart::ObjectId,
                        fault: Fault::Invalid,
                    },
                );
            },
        };
        let ct = match fields.get("ct") {
            Some(v) => v,
            None => {
                return Err(
                    DecodeError::MalformedRecord {
                        part: RecordPart::CollabType,
                        fault: Fault::Missing,
                    },
                );
            },
        };
        proof {
            assert(ct@.subrange(0, ct@.len() as int) =~= ct@);
        }
        let collab_type = match parse_i32(ct.as_slice(), 0, ct.len()) {
            Some(code) => CollabType::from(code),
            None => {
                return Err(
                    DecodeError::MalformedRecord {
                        part: RecordPart::CollabType,
                        fault: Fault::Invalid,
                    },
                );
            },
        };
        let sender_text = match fields.get("sender") {
            Some(v) => v,
            None => {
                return Err(
                    DecodeError::MalformedRecord {
                        part: RecordPart::Sender,
                        fault: Fault::Missing,
                    },
                );
            },
        };
        let sender = match CollabOrigin::parse(sender_text.as_slice()) {
            Some(origin) => origin,
            None => {
                return Err(
                    DecodeError::MalformedRecord {
                        part: RecordPart::Sender,
                        fault: Fault::Invalid,
                    },
                );
            },
        };
        let update_flags = match fields.get("flags") {
            None => UpdateFlags::default(),
            Some(text) => {
                proof {
                    assert(text@.subrange(0, text@.len() as int) =~= text@);
                }
                match parse_unsigned(text.as_slice(), 0, text.len(), 255) {
                    Some(bits) => UpdateFlags::from_bits(bits as u8),
                    None => UpdateFlags::from_bits(0),
                }
            },
        };
        let update = match fields.get("data") {
            Some(data) => {
                proof {
                    assert(data@.subrange(0, data@.len() as int) =~= data@);
                }
                copy_range(data.as_slice(), 0, data.len())
            },
            None => {
                return Err(
                    DecodeError::MalformedRecord { part: RecordPart::Data, fault: Fault::Missing },
                );
            },
        };
        Ok(
            UpdateStreamMessage {
                last_message_id,
                sender,
                object_id,
                collab_type,
                update_flags,
                update,
            },
        )
    }

    /// Writes the update as a record: the text of its position and its
    /// fields.
    pub fn to_redis_stream(&self) -> (r: (String, RedisMap))
        ensures
            encode_utf8(r.0@) == rid_text(self.last_message_id),
            r.1@ == encode_fields(self@),
    {
        let msg_id = self.last_message_id.to_string();
        let mut fields = RedisMap::new();
        fields.insert("oid", self.object_id.to_bytes());
        let mut ct: Vec<u8> = Vec::new();
        push_signed_decimal(self.collab_type.value() as i64, &mut ct);
        proof {
            assert(ct@ =~= signed_decimal(collab_type_code(self.collab_type)));
        }
        fields.insert("ct", ct);
        fields.insert("sender", self.sender.to_bytes());
        let mut flags: Vec<u8> = Vec::new();
        push_decimal(self.update_flags.bits as u64, &mut flags);
        proof {
            assert(flags@ =~= decimal(self.update_flags.bits as nat));
        }
        fields.insert("flags", flags);
        proof {
            assert(self.update@.subrange(0, self.update@.len() as int) =~= self.update@);
        }
        fields.insert("data", copy_range(self.update.as_slice(), 0, self.update.len()));
        (msg_id, fields)
    }
}

/// The five field names are pairwise different.
pub proof fn lemma_field_names_differ()
    ensures
        "oid"@ != "ct"@,
        "oid"@ != "sender"@,
        "oid"@ != "flags"@,
        "oid"@ != "data"@,
        "ct"@ != "sender"@,
        "ct"@ != "flags"@,
        "ct"@ != "data"@,
        "sender"@ != "flags"@,
        "sender"@ != "data"@,
        "flags"@ != "data"@,
{
    reveal_strlit("oid");
    reveal_strlit("ct");
    reveal_strlit("sender");
    reveal_strlit("flags");
    reveal_strlit("data");
    assert("oid"@.len() == 3);
    assert("ct"@.len() == 2);
    assert("sender"@.len() == 6);
    assert("flags"@.len() == 5);
    assert("data"@.len() == 4);
}

/// Writing an update and reading the record back gives the update: the
/// position, object id, kind, sender, flags and payload all survive.
pub proof fn lemma_encode_then_decode(m: MessageView)
    requires
        m.sender.wf(),
    ensures
        decode_record(rid_text(m.position), encode_fields(m)) == Ok::<MessageView, DecodeError>(m),
{
    lemma_field_names_differ();
    let fields = encode_fields(m);
    lemma_rid_roundtrip(m.position);
    lemma_object_id_roundtrip(m.object_id);
    lemma_collab_type_roundtrip(m.kind);
    lemma_signed_roundtrip(collab_type_code(m.kind), i32::MIN as int, i32::MAX as int);
    lemma_origin_roundtrip(m.sender);
    lemma_unsigned_roundtrip(m.flags.bits as nat, 255);
    assert(fields["oid"@] == object_id_bytes(m.object_id));
    assert(fields["ct"@] == signed_decimal(collab_type_code(m.kind)));
    assert(fields["sender"@] == origin_text(m.sender));
    assert(fields["flags"@] == decimal(m.flags.bits as nat));
    assert(fields["data"@] == m.payload);
    assert(flags_of_record(fields) == m.flags);
}

/// Whatever a record reads as can be written and read again without
/// change.
pub proof fn lemma_decode_then_encode(id: Seq<u8>, fields: Map<Seq<char>, Seq<u8>>)
    requires
        decode_record(id, fields) is Ok,
    ensures
        ({
            let m = decode_record(id, fields).unwrap();
            decode_record(rid_text(m.position), encode_fields(m)) == Ok::<MessageView, DecodeError>(
                m,
            )
        }),
{
    let m = decode_record(id, fields).unwrap();
    lemma_origin_of_text_wf(fields["sender"@]);
    lemma_encode_then_decode(m);
}

/// A record without the field `flags` reads with the empty flag set.
pub proof fn lemma_absent_flags_read_empty(id: Seq<u8>, fields: Map<Seq<char>, Seq<u8>>)
    requires
        !fields.contains_key("flags"@),
        decode_record(id, fields) is Ok,
    ensures
        decode_record(id, fields).unwrap().flags.bits == 0,
{
}

/// An origin read from text holds a user id of 64 bits.
pub proof fn lemma_origin_of_text_wf(s: Seq<u8>)
    ensures
        origin_of_text(s) is Some ==> origin_of_text(s).unwrap().wf(),
{
}


impl DecodeError {
    /// What the error says.
    pub open spec fn message_text(self) -> Seq<char> {
        match self {
            DecodeError::MalformedRecord { part: RecordPart::Position, fault } => "invalid message id"@,
            DecodeError::MalformedRecord { part: RecordPart::ObjectId, fault: Fault::Missing } => "expecting field `oid`"@,
            DecodeError::MalformedRecord { part: RecordPart::ObjectId, fault: Fault::Invalid } => "invalid field `oid`"@,
            DecodeError::MalformedRecord { part: RecordPart::CollabType, fault: Fault::Missing } => "expecting field `ct`"@,
            DecodeError::MalformedRecord { part: RecordPart::CollabType, fault: Fault::Invalid } => "invalid field `ct`"@,
            DecodeError::MalformedRecord { part: RecordPart::Sender, fault: Fault::Missing } => "expecting field `sender`"@,
            DecodeError::MalformedRecord { part: RecordPart::Sender, fault: Fault::Invalid } => "invalid field `sender`"@,
            DecodeError::MalformedRecord { part: RecordPart::Data, fault: Fault::Missing } => "expecting field `data`"@,
            DecodeError::MalformedRecord { part: RecordPart::Data, fault: Fault::Invalid } => "invalid field `data`"@,
        }
    }

    /// The part of the record that the error names.
    pub fn part(&self) -> (part: RecordPart)
        ensures
            self == (DecodeError::MalformedRecord { part, fault: self->fault }),
    {
        match self {
            DecodeError::MalformedRecord { part, fault: _ } => *part,
        }
    }

    /// The error as text.
    pub fn message(&self) -> (s: String)
        ensures
            s@ == self.message_text(),
    {
        let text: &str = match self {
            DecodeError::MalformedRecord { part: RecordPart::Position, fault: _ } => "invalid message id",
            DecodeError::MalformedRecord { part: RecordPart::ObjectId, fault: Fault::Missing } => "expecting field `oid`",
            DecodeError::MalformedRecord { part: RecordPart::ObjectId, fault: Fault::Invalid } => "invalid field `oid`",
            DecodeError::MalformedRecord { part: RecordPart::CollabType, fault: Fault::Missing } => "expecting field `ct`",
            DecodeError::MalformedRecord { part: RecordPart::CollabType, fault: Fault::Invalid } => "invalid field `ct`",
            DecodeError::MalformedRecord { part: RecordPart::Sender, fault: Fault::Missing } => "expecting field `sender`",
            DecodeError::MalformedRecord { part: RecordPart::Sender, fault: Fault::Invalid } => "invalid field `sender`",
            DecodeError::MalformedRecord { part: RecordPart::Data, fault: Fault::Missing } => "expecting field `data`",
            DecodeError::MalformedRecord { part: RecordPart::Data, fault: Fault::Invalid } => "invalid field `data`",
        };
        text.to_owned()
    }
}

} // verus!
