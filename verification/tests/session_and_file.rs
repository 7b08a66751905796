//! Client sessions, and the storage engine over a file's contents.

use std::collections::HashSet;

use raft_rust::kv::{self, Command, Kv};
use raft_rust::raft::session::{decode_session, encode_session};
use raft_rust::storage::bitcask::{build_keydir, encode_record};
use raft_rust::storage::engine::{Bound, KeyRange};
use raft_rust::storage::Memory;
use raft_rust::{
    BitCask, Engine, Entry, Envelope, Log, Message, Node, Options, Request, Response,
    SessionState, State,
};
use uuid::Uuid;

fn put(key: &str, value: &str) -> Vec<u8> {
    kv::encode(&Command::Put { key: key.into(), value: value.into() })
}

fn get(key: &str) -> Vec<u8> {
    kv::encode(&Command::Get { key: key.into() })
}

#[test]
fn session_dedup_same_seq() {
    let mut state = SessionState::new(Kv::new());
    let cid = Uuid::new_v4().as_u128();
    let cmd1 = encode_session(cid, 1, put("k", "v1"));
    let e1 = Entry { index: 1, term: 1, command: Some(cmd1), membership: None };
    let r1 = state.apply(e1).unwrap();
    let cmd2 = encode_session(cid, 1, put("k", "v2"));
    let e2 = Entry { index: 2, term: 1, command: Some(cmd2), membership: None };
    let r2 = state.apply(e2).unwrap();
    assert_eq!(r1, r2);
    let get = state.read(get("k")).unwrap();
    let resp: kv::Response = kv::decode(&get).unwrap();
    assert_eq!(resp, kv::Response::Get(Some("v1".into())));
}

#[test]
fn session_stale_seq_does_not_return_newer_cache() {
    let mut state = SessionState::new(Kv::new());
    let cid = Uuid::new_v4().as_u128();
    let e1 = Entry {
        index: 1,
        term: 1,
        command: Some(encode_session(cid, 1, put("a", "1"))),
        membership: None,
    };
    let _ = state.apply(e1).unwrap();
    let e2 = Entry {
        index: 2,
        term: 1,
        command: Some(encode_session(cid, 2, put("b", "2"))),
        membership: None,
    };
    let r2 = state.apply(e2).unwrap();
    let e_stale = Entry {
        index: 3,
        term: 1,
        command: Some(encode_session(cid, 1, put("a", "x"))),
        membership: None,
    };
    let r_stale = state.apply(e_stale).unwrap();
    assert_ne!(r_stale, r2);
    assert!(r_stale.is_empty());
    let get_b = state.read(get("b")).unwrap();
    assert_eq!(
        kv::decode::<kv::Response>(&get_b).unwrap(),
        kv::Response::Get(Some("2".into()))
    );
    let get_a = state.read(get("a")).unwrap();
    assert_eq!(
        kv::decode::<kv::Response>(&get_a).unwrap(),
        kv::Response::Get(Some("1".into()))
    );
}

#[test]
fn bitcask_roundtrip() {
    let stored = {
        let mut eng = BitCask::new(Vec::new());
        eng.set(b"a", b"1".to_vec()).unwrap();
        eng.set(b"b", b"2".to_vec()).unwrap();
        eng.flush().unwrap();
        eng.into_log()
    };
    let mut eng = BitCask::new(stored);
    assert_eq!(eng.get(b"a").unwrap(), Some(b"1".to_vec()));
    eng.delete(b"a").unwrap();
    eng.flush().unwrap();
    let mut eng = BitCask::new(eng.into_log());
    assert_eq!(eng.get(b"a").unwrap(), None);
    assert_eq!(eng.get(b"b").unwrap(), Some(b"2".to_vec()));
}

#[test]
fn single_node_write_session() {
    let log = Log::new(BitCask::new(Vec::new())).unwrap();
    let node = Node::new(
        1,
        HashSet::new(),
        log,
        SessionState::new(Kv::new()),
        Options::default(),
    )
    .unwrap();
    let id = Uuid::new_v4().as_u128();
    let cid = Uuid::new_v4().as_u128();
    let cmd = put("x", "y");
    let term = node.term();
    let mut node = node
        .step(Envelope {
            from: 1,
            to: 1,
            term,
            message: Message::ClientRequest {
                id,
                request: Request::WriteSession { client_id: cid, seq: 1, command: cmd },
            },
        })
        .unwrap();
    let mut got = false;
    for msg in node.take_messages() {
        if let Message::ClientResponse { id: rid, response } = msg.message {
            if rid == id {
                assert!(matches!(response.unwrap(), Response::Write(_)));
                got = true;
            }
        }
    }
    assert!(got);
}

#[test]
fn session_commands_decode() {
    let bytes = encode_session(5, 9, vec![1, 2, 3]);
    assert_eq!(&bytes[..4], b"SESS");
    let command = decode_session(&bytes).unwrap();
    assert_eq!(command.client_id, 5);
    assert_eq!(command.seq, 9);
    assert_eq!(command.payload, vec![1, 2, 3]);
    assert!(decode_session(&put("k", "v")).is_none());
    assert!(decode_session(b"SESS").is_none());
}

#[test]
fn sessions_survive_a_snapshot() {
    let mut state = SessionState::new(Kv::new());
    for (index, client, seq) in [(1, 1u128, 1), (2, 2, 5), (3, 1, 2)] {
        let command = encode_session(client, seq, put("k", &format!("{client}-{seq}")));
        let entry = Entry { index, term: 1, command: Some(command), membership: None };
        state.apply(entry).unwrap();
    }
    let snapshot = state.snapshot().unwrap();
    let mut other = SessionState::new(Kv::new());
    other.restore(&snapshot, 3).unwrap();
    assert_eq!(other.get_applied_index(), 3);
    // A repeated write gets the answer that it got first.
    let again = encode_session(1, 2, put("k", "again"));
    let entry = Entry { index: 4, term: 1, command: Some(again), membership: None };
    let answer = other.apply(entry).unwrap();
    assert_eq!(kv::decode::<kv::Response>(&answer).unwrap(), kv::Response::Put(3));
    let read = other.read(get("k")).unwrap();
    assert_eq!(
        kv::decode::<kv::Response>(&read).unwrap(),
        kv::Response::Get(Some("1-2".into()))
    );
    // What is not a snapshot is refused.
    assert!(other.restore(&[0xff; 3], 9).is_err());
}

#[test]
fn records_have_a_fixed_layout() {
    let record = encode_record(b"key", Some(b"value"));
    assert_eq!(record, b"\x00\x00\x00\x03\x00\x00\x00\x05keyvalue".to_vec());
    let gone = encode_record(b"key", None);
    assert_eq!(gone, b"\x00\x00\x00\x03\xff\xff\xff\xffkey".to_vec());
}

#[test]
fn an_incomplete_record_at_the_end_is_dropped() {
    let mut log = encode_record(b"a", Some(b"1"));
    let whole = log.len();
    let more = encode_record(b"b", Some(b"2"));
    log.extend_from_slice(&more[..more.len() - 1]);
    let (keydir, end) = build_keydir(&log);
    assert_eq!(end, whole);
    assert_eq!(keydir.len(), 1);
    assert!(keydir.contains_key(b"a"));
    assert!(!keydir.contains_key(b"b"));
    let mut engine = BitCask::new(log);
    assert_eq!(engine.get(b"b").unwrap(), None);
    assert_eq!(engine.into_log().len(), whole);
}

#[test]
fn compaction_keeps_contents_and_drops_garbage() {
    let mut engine = BitCask::new(Vec::new());
    for i in 0..10u8 {
        engine.set(b"k", vec![i]).unwrap();
    }
    engine.set(b"gone", vec![1, 2, 3]).unwrap();
    engine.delete(b"gone").unwrap();
    let before = engine.status().unwrap();
    assert_eq!(before.name, "bitcask");
    assert_eq!(before.keys, 1);
    assert_eq!(before.size, 2);
    assert_eq!(before.live_disk_size, 10);
    assert_eq!(before.disk_size, 10 * 10 + 15 + 12);
    assert_eq!(before.garbage_disk_size(), before.disk_size - 10);
    engine.compact();
    let after = engine.status().unwrap();
    assert_eq!(after.disk_size, 10);
    assert_eq!(after.garbage_disk_size(), 0);
    assert_eq!(engine.get(b"k").unwrap(), Some(vec![9]));
    assert_eq!(engine.get(b"gone").unwrap(), None);
}

#[test]
fn scans_are_in_key_order_and_within_their_range() {
    let mut disk = BitCask::new(Vec::new());
    let mut memory = Memory::new();
    for key in [&b"b"[..], b"a", b"ab", b"c", b"\xff\xff"] {
        disk.set(key, key.to_vec()).unwrap();
        memory.set(key, key.to_vec()).unwrap();
    }
    let range = KeyRange {
        start: Bound::Excluded(b"a".to_vec()),
        end: Bound::Included(b"c".to_vec()),
    };
    let expected = vec![b"ab".to_vec(), b"b".to_vec(), b"c".to_vec()];
    let keys: Vec<_> = disk.scan(&range).into_iter().map(|r| r.unwrap().0).collect();
    assert_eq!(keys, expected);
    let keys: Vec<_> = memory.scan(&range).into_iter().map(|r| r.unwrap().0).collect();
    assert_eq!(keys, expected);

    let keys: Vec<_> = disk.scan_prefix(b"a").into_iter().map(|r| r.unwrap().0).collect();
    assert_eq!(keys, vec![b"a".to_vec(), b"ab".to_vec()]);
    let keys: Vec<_> = disk.scan_prefix(b"\xff").into_iter().map(|r| r.unwrap().0).collect();
    assert_eq!(keys, vec![b"\xff\xff".to_vec()]);
    let keys: Vec<_> = memory.scan_prefix(b"").into_iter().map(|r| r.unwrap().0).collect();
    assert_eq!(keys.len(), 5);
    let status = memory.status().unwrap();
    assert_eq!(status.name, "memory");
    assert_eq!(status.keys, 5);
    assert_eq!(status.size, 14);
}
