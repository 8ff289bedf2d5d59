use collab_sync::collab_type::{partition_key_from_collab_type, CollabType};
use collab_sync::decimal::{parse_digits, parse_i32, parse_i64, parse_unsigned, push_decimal, push_signed_decimal};
use collab_sync::messages::{DecodeError, Fault, RecordPart, RedisMap, UpdateFlags, UpdateStreamMessage};
use collab_sync::object_id::ObjectId;
use collab_sync::origin::{CollabClient, CollabOrigin};
use collab_sync::rid::{InvalidRid, Rid};
use collab_sync::text::{ascii_string, bytes_equal, copy_range, find_byte, has_prefix};

fn oid_bytes(n: u128) -> Vec<u8> {
    n.to_be_bytes().to_vec()
}

fn record(oid: u128, ct: &str, sender: &str, flags: Option<&str>, data: &[u8]) -> RedisMap {
    let mut fields = RedisMap::new();
    fields.insert("oid", oid_bytes(oid));
    fields.insert("ct", ct.as_bytes().to_vec());
    fields.insert("sender", sender.as_bytes().to_vec());
    if let Some(flags) = flags {
        fields.insert("flags", flags.as_bytes().to_vec());
    }
    fields.insert("data", data.to_vec());
    fields
}

fn malformed(part: RecordPart, fault: Fault) -> DecodeError {
    DecodeError::MalformedRecord { part, fault }
}

#[test]
fn decimal_parses_what_rust_parses() {
    let cases = ["0", "7", "+7", "-7", "007", "2147483647", "-2147483648", "2147483648", "-2147483649", "", "+", "-", " 1", "1 ", "1a", "--1", "99999999999999999999"];
    for text in cases {
        let bytes = text.as_bytes();
        assert_eq!(parse_i32(bytes, 0, bytes.len()), text.parse::<i32>().ok(), "i32 {text:?}");
        assert_eq!(parse_i64(bytes, 0, bytes.len()), text.parse::<i64>().ok(), "i64 {text:?}");
        assert_eq!(parse_unsigned(bytes, 0, bytes.len(), 255), text.parse::<u8>().ok().map(u64::from), "u8 {text:?}");
    }
    assert_eq!(parse_i64(b"-9223372036854775808", 0, 20), Some(i64::MIN));
    assert_eq!(parse_i64(b"9223372036854775807", 0, 19), Some(i64::MAX));
    assert_eq!(parse_i64(b"9223372036854775808", 0, 19), None);
}

#[test]
fn decimal_parses_a_range_of_the_text() {
    assert_eq!(parse_digits(b"ab123cd", 2, 5, u64::MAX), Some(123));
    assert_eq!(parse_digits(b"ab123cd", 2, 6, u64::MAX), None);
    assert_eq!(parse_digits(b"123", 1, 1, u64::MAX), None);
    assert_eq!(parse_digits(b"256", 0, 3, 255), None);
    assert_eq!(parse_digits(b"255", 0, 3, 255), Some(255));
    assert_eq!(parse_digits(b"18446744073709551615", 0, 20, u64::MAX), Some(u64::MAX));
    assert_eq!(parse_digits(b"18446744073709551616", 0, 20, u64::MAX), None);
}

#[test]
fn decimal_writes_canonical_text() {
    for n in [0u64, 9, 10, 99, 100, 65535, u64::MAX] {
        let mut out = b"x".to_vec();
        push_decimal(n, &mut out);
        assert_eq!(out, format!("x{n}").into_bytes());
    }
    for v in [0i64, -1, 1, i64::MIN, i64::MAX, -1000] {
        let mut out = Vec::new();
        push_signed_decimal(v, &mut out);
        assert_eq!(out, v.to_string().into_bytes());
    }
}

#[test]
fn text_helpers() {
    assert_eq!(find_byte(b"12-34", 0, 5, b'-'), 2);
    assert_eq!(find_byte(b"12-34", 3, 5, b'-'), 5);
    assert_eq!(find_byte(b"--", 1, 2, b'-'), 1);
    assert!(has_prefix(b"[uid:1", 0, b"[uid:"));
    assert!(has_prefix(b"x[uid:1", 1, b"[uid:"));
    assert!(!has_prefix(b"[uid", 0, b"[uid:"));
    assert!(has_prefix(b"abc", 3, b""));
    assert!(bytes_equal(b"server", b"server"));
    assert!(!bytes_equal(b"server", b"serve"));
    assert!(!bytes_equal(b"server", b"servex"));
    assert_eq!(copy_range(b"hello", 1, 4), b"ell".to_vec());
    assert_eq!(ascii_string(b"12-3".to_vec()), "12-3");
}

#[test]
fn rid_reads_and_writes_its_text() {
    let rid = Rid::from_str("1526919030474-55").unwrap();
    assert_eq!(rid, Rid::new(1526919030474, 55));
    assert_eq!(rid.to_string(), "1526919030474-55");
    assert_eq!(rid.to_bytes(), b"1526919030474-55".to_vec());
    assert_eq!(Rid::parse(b"0-0"), Some(Rid::new(0, 0)));
    assert_eq!(Rid::parse(b"18446744073709551615-65535"), Some(Rid::new(u64::MAX, u16::MAX)));
    assert_eq!(Rid::new(u64::MAX, u16::MAX).to_string(), "18446744073709551615-65535");
    assert_eq!(Rid::parse(b"007-01"), Some(Rid::new(7, 1)));
}

#[test]
fn rid_refuses_other_text() {
    for text in ["", "-", "1", "1-", "-1", "1-2-3", "1--2", "a-1", "1-b", "+1-2", "1-+2", " 1-2", "18446744073709551616-0", "1-65536", "1_2"] {
        assert_eq!(Rid::from_str(text), Err(InvalidRid), "{text:?}");
    }
}

#[test]
fn rid_round_trips() {
    for (t, q) in [(0u64, 0u16), (1, 0), (0, 1), (1700000000000, 12), (u64::MAX, u16::MAX)] {
        let rid = Rid::new(t, q);
        assert_eq!(Rid::parse(&rid.to_bytes()), Some(rid));
        assert_eq!(Rid::from_str(&rid.to_string()), Ok(rid));
    }
}

#[test]
fn rid_is_ordered_by_timestamp_then_sequence() {
    let a = Rid::new(5, 9);
    let b = Rid::new(6, 0);
    let c = Rid::new(6, 1);
    assert!(a.is_before(&b) && b.is_before(&c) && a.is_before(&c));
    assert!(!b.is_before(&a) && !a.is_before(&a));
    assert!(a.is_at_most(&a) && a.is_at_most(&b) && !c.is_at_most(&b));
    assert!(a < b && b < c && a <= a && c > a);
    assert_eq!(a.partial_cmp(&b), Some(std::cmp::Ordering::Less));
    assert_eq!(c.partial_cmp(&b), Some(std::cmp::Ordering::Greater));
    assert_eq!(b.partial_cmp(&b), Some(std::cmp::Ordering::Equal));
    assert_eq!(a.cmp(&b), std::cmp::Ordering::Less);
    let mut all = vec![c, a, b];
    all.sort();
    assert_eq!(all, vec![a, b, c]);
}

#[test]
fn object_id_wire_bytes_are_those_of_uuid() {
    let uuid = uuid::Uuid::parse_str("a1a2a3a4-b1b2-c1c2-d1d2-d3d4d5d6d7d8").unwrap();
    let id = ObjectId::from_u128(uuid.as_u128());
    assert_eq!(id.as_u128(), 0xa1a2a3a4b1b2c1c2d1d2d3d4d5d6d7d8u128);
    assert_eq!(id.to_bytes(), uuid.as_bytes().to_vec());
    assert_eq!(ObjectId::from_slice(uuid.as_bytes()), Some(id));
    assert_eq!(ObjectId::from_slice(&[0u8; 16]), Some(ObjectId::from_u128(0)));
    assert_eq!(ObjectId::from_slice(&[255u8; 16]), Some(ObjectId::from_u128(u128::MAX)));
    assert_eq!(ObjectId::from_slice(&[1u8; 15]), None);
    assert_eq!(ObjectId::from_slice(&[1u8; 17]), None);
    assert_eq!(ObjectId::from_slice(&[]), None);
}

#[test]
fn object_id_text_is_that_of_uuid() {
    let id = ObjectId::from_u128(0xa1a2a3a4b1b2c1c2d1d2d3d4d5d6d7d8u128);
    assert_eq!(id.to_string(), "a1a2a3a4-b1b2-c1c2-d1d2-d3d4d5d6d7d8");
    assert_eq!(ObjectId::parse_str("a1a2a3a4-b1b2-c1c2-d1d2-d3d4d5d6d7d8"), Some(id));
    assert_eq!(ObjectId::parse_str("A1A2A3A4B1B2C1C2D1D2D3D4D5D6D7D8"), Some(id));
    assert_eq!(ObjectId::parse_str("not an id"), None);
    assert_eq!(ObjectId::parse_str(""), None);
}

#[test]
fn collab_type_codes() {
    let kinds = [
        (CollabType::Document, 0),
        (CollabType::Database, 1),
        (CollabType::WorkspaceDatabase, 2),
        (CollabType::Folder, 3),
        (CollabType::UserAwareness, 5),
        (CollabType::Unknown, 6),
    ];
    for (kind, code) in kinds {
        assert_eq!(kind.value(), code);
        assert_eq!(partition_key_from_collab_type(&kind), code);
        assert_eq!(CollabType::from(code), kind);
    }
    for code in [4, 7, -1, i32::MIN, i32::MAX] {
        assert_eq!(CollabType::from(code), CollabType::Unknown);
    }
}

#[test]
fn origin_reads_and_writes_its_text() {
    let client = CollabOrigin::Client(CollabClient::new(42, "device-1".to_string()));
    assert_eq!(client.to_bytes(), b"[uid:42|device_id:device-1]".to_vec());
    assert_eq!(CollabOrigin::from_str("[uid:42|device_id:device-1]"), Some(client));
    assert_eq!(CollabOrigin::Server.to_bytes(), b"server".to_vec());
    assert_eq!(CollabOrigin::from_str("server"), Some(CollabOrigin::Server));
    assert_eq!(CollabOrigin::Empty.to_bytes(), Vec::<u8>::new());
    assert_eq!(CollabOrigin::from_str(""), Some(CollabOrigin::Empty));
    let odd = CollabOrigin::Client(CollabClient::new(i64::MIN, "a|b]c\u{e9}".to_string()));
    assert_eq!(CollabOrigin::parse(&odd.to_bytes()), Some(odd));
    let blank = CollabOrigin::Client(CollabClient::new(0, String::new()));
    assert_eq!(blank.to_bytes(), b"[uid:0|device_id:]".to_vec());
    assert_eq!(CollabOrigin::parse(b"[uid:0|device_id:]"), Some(blank));
}

#[test]
fn origin_refuses_other_text() {
    for text in ["Server", "server ", "empty", "[uid:1]", "[uid:|device_id:x]", "[uid:x|device_id:x]", "[uid:1|device:x]", "[uid:1|device_id:x", "uid:1|device_id:x", "[uid:9223372036854775808|device_id:x]", "[uid:1|device_id"] {
        assert_eq!(CollabOrigin::from_str(text), None, "{text:?}");
    }
    assert_eq!(CollabOrigin::parse(b"[uid:1|device_id:\xff]"), None);
}

#[test]
fn origin_same_as_compares_authors() {
    let a = CollabOrigin::Client(CollabClient::new(1, "d".to_string()));
    let b = CollabOrigin::Client(CollabClient::new(1, "d".to_string()));
    let c = CollabOrigin::Client(CollabClient::new(1, "e".to_string()));
    let d = CollabOrigin::Client(CollabClient::new(2, "d".to_string()));
    assert!(a.same_as(&b));
    assert!(!a.same_as(&c) && !a.same_as(&d) && !a.same_as(&CollabOrigin::Server));
    assert!(CollabOrigin::Server.same_as(&CollabOrigin::Server));
    assert!(!CollabOrigin::Server.same_as(&CollabOrigin::Empty));
    assert!(CollabOrigin::Empty.same_as(&CollabOrigin::Empty));
}

#[test]
fn flags_are_a_bit_set() {
    assert!(UpdateFlags::empty().is_empty());
    assert_eq!(UpdateFlags::default(), UpdateFlags::empty());
    let a = UpdateFlags::from_bits(0b0101);
    assert_eq!(a.bits(), 5);
    assert!(a.contains(UpdateFlags::from_bits(0b0100)));
    assert!(a.contains(UpdateFlags::empty()));
    assert!(!a.contains(UpdateFlags::from_bits(0b0110)));
    assert_eq!(a.union(UpdateFlags::from_bits(0b0010)).bits(), 0b0111);
}

#[test]
fn redis_map_keeps_the_last_value_of_a_name() {
    let mut fields = RedisMap::new();
    assert_eq!(fields.get("ct"), None);
    fields.insert("ct", b"1".to_vec());
    fields.insert("oid", b"x".to_vec());
    assert_eq!(fields.get("ct"), Some(&b"1".to_vec()));
    fields.insert("ct", b"2".to_vec());
    assert_eq!(fields.get("ct"), Some(&b"2".to_vec()));
    assert_eq!(fields.get("oid"), Some(&b"x".to_vec()));
    assert_eq!(fields.get("c"), None);
}

#[test]
fn record_is_read() {
    let fields = record(7, "3", "[uid:12|device_id:phone]", Some("1"), &[1, 2, 3]);
    let message = UpdateStreamMessage::from_redis_stream("1700000000000-4".to_string(), fields).unwrap();
    assert_eq!(
        message,
        UpdateStreamMessage {
            last_message_id: Rid::new(1700000000000, 4),
            sender: CollabOrigin::Client(CollabClient::new(12, "phone".to_string())),
            object_id: ObjectId::from_u128(7),
            collab_type: CollabType::Folder,
            update_flags: UpdateFlags::from_bits(1),
            update: vec![1, 2, 3],
        }
    );
}

#[test]
fn record_without_flags_reads_with_the_empty_set() {
    let fields = record(7, "0", "server", None, &[]);
    let message = UpdateStreamMessage::from_redis_stream("1-0".to_string(), fields).unwrap();
    assert!(message.update_flags.is_empty());
    assert_eq!(message.sender, CollabOrigin::Server);
    assert_eq!(message.collab_type, CollabType::Document);
    assert_eq!(message.update, Vec::<u8>::new());
    for unreadable in ["", "x", "256", "-1"] {
        let fields = record(7, "0", "", Some(unreadable), &[9]);
        let message = UpdateStreamMessage::from_redis_stream("1-0".to_string(), fields).unwrap();
        assert!(message.update_flags.is_empty(), "{unreadable:?}");
        assert_eq!(message.sender, CollabOrigin::Empty);
    }
    let fields = record(7, "0", "", Some("255"), &[9]);
    assert_eq!(UpdateStreamMessage::from_redis_stream("1-0".to_string(), fields).unwrap().update_flags.bits(), 255);
}

#[test]
fn record_with_an_unknown_kind_reads_as_unknown() {
    for code in ["4", "6", "99", "-3"] {
        let fields = record(7, code, "server", None, &[]);
        let message = UpdateStreamMessage::from_redis_stream("1-0".to_string(), fields).unwrap();
        assert_eq!(message.collab_type, CollabType::Unknown);
    }
}

#[test]
fn record_missing_a_field_is_malformed() {
    let full = || {
        vec![
            ("oid", oid_bytes(1)),
            ("ct", b"1".to_vec()),
            ("sender", b"server".to_vec()),
            ("flags", b"0".to_vec()),
            ("data", b"d".to_vec()),
        ]
    };
    let cases = [
        ("oid", RecordPart::ObjectId, "expecting field `oid`"),
        ("ct", RecordPart::CollabType, "expecting field `ct`"),
        ("sender", RecordPart::Sender, "expecting field `sender`"),
        ("data", RecordPart::Data, "expecting field `data`"),
    ];
    for (left_out, part, text) in cases {
        let mut fields = RedisMap::new();
        for (name, value) in full() {
            if name != left_out {
                fields.insert(name, value);
            }
        }
        let error = UpdateStreamMessage::from_redis_stream("1-0".to_string(), fields).unwrap_err();
        assert_eq!(error, malformed(part, Fault::Missing));
        assert_eq!(error.part(), part);
        assert_eq!(error.message(), text);
    }
    let error = UpdateStreamMessage::from_redis_stream("1-0".to_string(), RedisMap::new()).unwrap_err();
    assert_eq!(error, malformed(RecordPart::ObjectId, Fault::Missing));
    assert!(error.message().contains("`oid`"));
}

#[test]
fn record_with_an_unreadable_part_is_malformed() {
    let error = UpdateStreamMessage::from_redis_stream("nope".to_string(), record(1, "1", "server", None, &[])).unwrap_err();
    assert_eq!(error, malformed(RecordPart::Position, Fault::Invalid));
    assert_eq!(error.message(), "invalid message id");
    let mut fields = record(1, "1", "server", None, &[]);
    fields.insert("oid", vec![1, 2, 3]);
    let error = UpdateStreamMessage::from_redis_stream("1-0".to_string(), fields).unwrap_err();
    assert_eq!(error, malformed(RecordPart::ObjectId, Fault::Invalid));
    assert_eq!(error.message(), "invalid field `oid`");
    let error = UpdateStreamMessage::from_redis_stream("1-0".to_string(), record(1, "one", "server", None, &[])).unwrap_err();
    assert_eq!(error, malformed(RecordPart::CollabType, Fault::Invalid));
    assert_eq!(error.message(), "invalid field `ct`");
    let error = UpdateStreamMessage::from_redis_stream("1-0".to_string(), record(1, "1", "someone", None, &[])).unwrap_err();
    assert_eq!(error, malformed(RecordPart::Sender, Fault::Invalid));
    assert_eq!(error.message(), "invalid field `sender`");
    assert_eq!(malformed(RecordPart::Data, Fault::Invalid).message(), "invalid field `data`");
}

#[test]
fn record_round_trips() {
    let senders = [
        CollabOrigin::Empty,
        CollabOrigin::Server,
        CollabOrigin::Client(CollabClient::new(-5, "laptop|2]".to_string())),
    ];
    let kinds = [CollabType::Document, CollabType::Database, CollabType::WorkspaceDatabase, CollabType::Folder, CollabType::UserAwareness, CollabType::Unknown];
    let mut n: u128 = 1;
    for sender in senders {
        for kind in kinds {
            n = n.wrapping_mul(0x9e3779b97f4a7c15f39cc0605cedc835).wrapping_add(17);
            let message = UpdateStreamMessage {
                last_message_id: Rid::new(n as u64, (n >> 64) as u16),
                sender: sender.clone(),
                object_id: ObjectId::from_u128(n),
                collab_type: kind,
                update_flags: UpdateFlags::from_bits((n >> 80) as u8),
                update: n.to_le_bytes().to_vec(),
            };
            let (msg_id, fields) = message.to_redis_stream();
            assert_eq!(msg_id, message.last_message_id.to_string());
            assert_eq!(fields.get("oid"), Some(&n.to_be_bytes().to_vec()));
            assert_eq!(fields.get("ct"), Some(&kind.value().to_string().into_bytes()));
            assert_eq!(fields.get("flags"), Some(&message.update_flags.bits().to_string().into_bytes()));
            assert_eq!(fields.get("data"), Some(&message.update));
            assert_eq!(UpdateStreamMessage::from_redis_stream(msg_id, fields), Ok(message));
        }
    }
}

#[test]
fn record_read_then_written_keeps_its_meaning() {
    let fields = record(0xfeed, "+3", "[uid:+12|device_id:phone]", Some("+001"), &[0, 255]);
    let first = UpdateStreamMessage::from_redis_stream("0017-004".to_string(), fields).unwrap();
    let (msg_id, fields) = first.to_redis_stream();
    assert_eq!(msg_id, "17-4");
    assert_eq!(fields.get("ct"), Some(&b"3".to_vec()));
    assert_eq!(fields.get("sender"), Some(&b"[uid:12|device_id:phone]".to_vec()));
    assert_eq!(fields.get("flags"), Some(&b"1".to_vec()));
    let second = UpdateStreamMessage::from_redis_stream(msg_id, fields).unwrap();
    assert_eq!(first, second);
}
