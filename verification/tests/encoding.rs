//! The byte formats.

use raft_rust::encoding::bincode::{put_bytes, put_text, put_u64, Reader};
use raft_rust::encoding::bytes::{from_be, from_le, to_be, to_le, u64_to_be};
use raft_rust::encoding::keycode::{deserialize, serialize, Deserializer, Serializer};
use raft_rust::encoding::keycode::prefix_range;
use raft_rust::kv::{self, Command, Kv};
use raft_rust::raft::membership::{Membership, MembershipEntry};
use raft_rust::storage::engine::Bound;
use raft_rust::{Entry, Error, Key, State};

fn outside<T: bincode::Encode>(value: T) -> Vec<u8> {
    bincode::encode_to_vec(value, bincode::config::standard()).unwrap()
}

#[test]
fn numbers_are_encoded_as_the_format_says() {
    for value in [0, 1, 250, 251, 65535, 65536, u32::MAX as u64, u32::MAX as u64 + 1, u64::MAX] {
        let mut out = Vec::new();
        put_u64(&mut out, value);
        assert_eq!(out, outside(value));
        let mut reader = Reader::new(&out);
        assert_eq!(reader.u64(), Ok(value));
        assert!(reader.byte().is_err());
    }
    let mut out = Vec::new();
    put_u64(&mut out, 251);
    assert_eq!(out, vec![251, 251, 0]);
}

#[test]
fn byte_strings_and_texts_are_read_back() {
    let mut out = Vec::new();
    put_bytes(&mut out, b"abc");
    put_text(&mut out, "gr\u{fc}n");
    assert_eq!(out, outside((b"abc".to_vec(), "gr\u{fc}n".to_string())));
    let mut reader = Reader::new(&out);
    assert_eq!(reader.byte_string(), Ok(b"abc".to_vec()));
    assert_eq!(reader.text(), Ok("gr\u{fc}n".to_string()));
    // A text must be encoded as one.
    let mut out = Vec::new();
    put_bytes(&mut out, &[0xff, 0xfe]);
    assert!(matches!(Reader::new(&out).text(), Err(Error::InvalidData(_))));
    // A length that goes past the end.
    assert!(matches!(Reader::new(&[9, 1]).byte_string(), Err(Error::InvalidData(_))));
    // A variant is a smaller number.
    assert_eq!(Reader::new(&outside(7u32)).variant(), Ok(7));
    assert!(Reader::new(&outside(u64::MAX)).variant().is_err());
}

#[test]
fn commands_and_responses_are_read_back() {
    let put = Command::Put { key: "k".into(), value: "v".into() };
    assert_eq!(kv::encode(&put), outside((1u32, "k", "v")));
    assert_eq!(kv::encode(&Command::Get { key: "k".into() }), outside((0u32, "k")));
    assert_eq!(kv::encode(&Command::Scan), outside(2u32));
    for command in [put, Command::Get { key: "".into() }, Command::Scan] {
        assert_eq!(kv::decode::<Command>(&kv::encode(&command)), Ok(command));
    }
    for response in [
        kv::Response::Get(None),
        kv::Response::Get(Some("x".into())),
        kv::Response::Put(300),
    ] {
        assert_eq!(kv::decode::<kv::Response>(&kv::encode(&response)), Ok(response));
    }
    let text = "OtherString(\"invalid value: integer `9`, expected variant index 0 <= i < 3\")";
    assert_eq!(kv::decode::<Command>(&[9]), Err(Error::InvalidData(text.into())));
    assert!(matches!(kv::decode::<Command>(&[]), Err(Error::InvalidData(_))));
}

#[test]
fn entries_are_read_back() {
    let plain = Entry { index: 3, term: 2, command: Some(vec![1, 2]), membership: None };
    assert_eq!(plain.encode(), outside((3u64, 2u64, Some(vec![1u8, 2]), None::<u8>)));
    let change = MembershipEntry::Joint {
        old: Membership::from_iter(&[1, 2]),
        new: Membership::from_iter(&[3, 2]),
    };
    let joint = Entry { index: 4, term: 2, command: None, membership: Some(change) };
    for entry in [plain, joint] {
        assert_eq!(Entry::decode(&entry.encode()), Ok(entry));
    }
    assert!(matches!(Entry::decode(&[1]), Err(Error::InvalidData(_))));
    let config = bincode::config::standard();
    let text = bincode::serde::decode_from_slice::<Option<u8>, _>(&[7], config).unwrap_err();
    assert_eq!(Entry::decode(&[1, 1, 7]), Err(Error::InvalidData(text.to_string())));
}

#[test]
fn keys_of_the_log_sort_by_index() {
    assert!(Key::Entry(1).encode() < Key::Entry(2).encode());
    assert!(Key::Entry(255).encode() < Key::Entry(256).encode());
    assert!(Key::Entry(u64::MAX).encode() < Key::TermVote.encode());
    assert_eq!(Key::Entry(5).encode(), vec![0, 0, 0, 0, 0, 0, 0, 0, 5]);
    let others = [Key::TermVote, Key::CommitIndex, Key::SnapshotMeta, Key::SnapshotData];
    let lengths: Vec<_> = others.iter().map(|key| key.encode().len()).collect();
    assert_eq!(lengths, vec![1, 1, 1, 1]);
}

#[test]
fn whole_numbers_keep_their_order_as_keys() {
    assert_eq!(serialize(&1u64), vec![0, 0, 0, 0, 0, 0, 0, 1]);
    assert_eq!(serialize(&0i64), vec![0x80, 0, 0, 0, 0, 0, 0, 0]);
    assert_eq!(serialize(&-1i64), vec![0x7f, 0xff, 0xff, 0xff, 0xff, 0xff, 0xff, 0xff]);
    let numbers = [i64::MIN, -2, -1, 0, 1, i64::MAX];
    for pair in numbers.windows(2) {
        assert!(serialize(&pair[0]) < serialize(&pair[1]));
    }
    for number in numbers {
        assert_eq!(deserialize::<i64>(&serialize(&number)), Ok(number));
    }
    assert!(serialize(&false) < serialize(&true));
    assert_eq!(deserialize::<bool>(&[1]), Ok(true));
    assert!(matches!(deserialize::<bool>(&[2]), Err(Error::InvalidData(_))));
    assert!(matches!(deserialize::<u64>(&[0; 7]), Err(Error::InvalidData(_))));
    assert!(matches!(deserialize::<u64>(&[0; 9]), Err(Error::InvalidData(_))));
}

#[test]
fn floats_keep_their_order_as_keys() {
    let numbers = [f64::NEG_INFINITY, -1.5, -0.0, 0.0, 1e-300, 2.5, f64::INFINITY];
    let encode = |x: f64| {
        let mut out = Serializer::new();
        out.serialize_f64(x.to_bits());
        out.output
    };
    for pair in numbers.windows(2) {
        assert!(encode(pair[0]) < encode(pair[1]), "{pair:?}");
    }
    for number in numbers {
        let bytes = encode(number);
        let bits = Deserializer::from_bytes(&bytes).deserialize_f64().unwrap();
        assert_eq!(bits, number.to_bits());
    }
}

#[test]
fn byte_strings_keep_their_order_as_keys() {
    assert_eq!(serialize(&b"a\x00b".to_vec()), b"a\x00\xffb\x00\x00".to_vec());
    let strings: [&[u8]; 6] = [b"", b"\x00", b"\x00\x00", b"\x00\x01", b"a", b"ab"];
    for pair in strings.windows(2) {
        assert!(serialize(&pair[0].to_vec()) < serialize(&pair[1].to_vec()));
    }
    for string in strings {
        assert_eq!(deserialize::<Vec<u8>>(&serialize(&string.to_vec())), Ok(string.to_vec()));
    }
    // No end, and an escape that there is not.
    assert!(matches!(deserialize::<Vec<u8>>(b"a"), Err(Error::InvalidData(_))));
    assert!(matches!(deserialize::<Vec<u8>>(b"a\x00\x07"), Err(Error::InvalidData(_))));
    assert_eq!(deserialize::<String>(&serialize(&"\u{e9}".to_string())), Ok("\u{e9}".into()));
    assert!(matches!(deserialize::<String>(b"\xff\x00\x00"), Err(Error::InvalidData(_))));
}

#[test]
fn parts_of_a_key_follow_one_another() {
    let mut out = Serializer::new();
    out.serialize_variant(3).unwrap();
    out.serialize_str("a");
    out.serialize_bool(true);
    out.serialize_u64(9);
    assert_eq!(out.output, b"\x03a\x00\x00\x01\x00\x00\x00\x00\x00\x00\x00\x09".to_vec());
    let mut input = Deserializer::from_bytes(&out.output);
    assert_eq!(input.deserialize_variant(), Ok(3));
    assert_eq!(input.deserialize_string(), Ok("a".into()));
    assert_eq!(input.deserialize_bool(), Ok(true));
    assert!(input.finish().is_err());
    assert_eq!(input.deserialize_u64(), Ok(9));
    assert!(input.finish().is_ok());
    assert!(out.serialize_variant(256).is_err());
}

#[test]
fn prefix_ranges_hold_what_has_the_prefix() {
    let range = prefix_range(b"ab");
    assert_eq!(range.start, Bound::Included(b"ab".to_vec()));
    assert_eq!(range.end, Bound::Excluded(b"ac".to_vec()));
    assert_eq!(prefix_range(b"a\xff").end, Bound::Excluded(b"b".to_vec()));
    assert_eq!(prefix_range(b"\xff\xff").end, Bound::Unbounded);
    assert_eq!(prefix_range(b"").end, Bound::Unbounded);
}

#[test]
fn fixed_width_numbers() {
    assert_eq!(to_be(0x0102, 4), vec![0, 0, 1, 2]);
    assert_eq!(u64_to_be(258), vec![0, 0, 0, 0, 0, 0, 1, 2]);
    assert_eq!(from_be(&[1, 2, 3]), 0x010203);
    assert_eq!(to_le(0x0102, 3), vec![2, 1, 0]);
    assert_eq!(from_le(&[2, 1]), 0x0102);
}

#[test]
fn a_snapshot_of_the_store_is_restored() {
    let mut store = Kv::new();
    for (index, key) in [(1, "b"), (2, "a")] {
        let put = Command::Put { key: key.into(), value: format!("{index}") };
        let entry = Entry { index, term: 1, command: Some(kv::encode(&put)), membership: None };
        let answer = store.apply(entry).unwrap();
        assert_eq!(kv::decode::<kv::Response>(&answer), Ok(kv::Response::Put(index)));
    }
    let empty = Entry { index: 3, term: 1, command: None, membership: None };
    assert_eq!(store.apply(empty), Ok(vec![]));
    assert_eq!(store.get_applied_index(), 3);
    let snapshot = store.snapshot().unwrap();
    let mut other = Kv::new();
    other.restore(&snapshot, 3).unwrap();
    assert_eq!(other.get_applied_index(), 3);
    assert_eq!(other.data(), store.data());
    assert_eq!(other.data().get(b"a"), Some(&"2".to_string()));
    let scan = other.read(kv::encode(&Command::Scan)).unwrap();
    match kv::decode::<kv::Response>(&scan).unwrap() {
        kv::Response::Scan(table) => assert_eq!(table.len(), 2),
        other => panic!("{other:?}"),
    }
    assert!(matches!(other.restore(&[0xff], 4), Err(Error::InvalidData(_))));
    assert!(Kv::accepts_read(&kv::encode(&Command::Scan)));
    assert!(!Kv::accepts_write(&kv::encode(&Command::Scan)));
}

#[test]
fn texts_of_commands_and_responses() {
    assert_eq!(Command::Get { key: "k".into() }.text(), "get k");
    assert_eq!(Command::Put { key: "k".into(), value: "v".into() }.text(), "put k=v");
    assert_eq!(Command::Scan.text(), "scan");
    assert_eq!(kv::Response::Get(None).text(), "None");
    assert_eq!(kv::Response::Get(Some("x".into())).text(), "x");
    assert_eq!(kv::Response::Put(12).text(), "12");
}
