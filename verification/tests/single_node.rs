//! A node on its own, and the log below it.

use std::collections::HashSet;

use raft_rust::kv::{self, Kv};
use raft_rust::raft::log::IndexBound;
use raft_rust::storage::engine::{Bound, KeyRange};
use raft_rust::{
    BitCask, Engine, Envelope, Error, Log, Message, Node, Options, Request, Response, Result,
};
use uuid::Uuid;

fn make_node() -> Result<Node<BitCask, Kv>> {
    let log = Log::new(BitCask::new(Vec::new()))?;
    Node::new(1, HashSet::new(), log, Kv::new(), Options::default())
}

fn take_response(node: &mut Node<BitCask, Kv>, want: u128) -> Result<Response> {
    for msg in node.take_messages() {
        if let Message::ClientResponse { id, response } = msg.message {
            if id == want {
                return response;
            }
        }
    }
    panic!("missing ClientResponse for {want}");
}

fn request(node: &Node<BitCask, Kv>, id: u128, request: Request) -> Envelope {
    Envelope {
        from: 1,
        to: 1,
        term: node.term(),
        message: Message::ClientRequest { id, request },
    }
}

#[test]
fn single_node_becomes_leader_and_serves_kv() -> Result<()> {
    let mut node = make_node()?;
    assert_eq!(node.id(), 1);
    assert!(matches!(node, Node::Leader(_)));

    let put_id = Uuid::new_v4().as_u128();
    let put_cmd = kv::Command::Put { key: "hello".into(), value: "world".into() };
    let msg = request(&node, put_id, Request::Write(kv::encode(&put_cmd)));
    node = node.step(msg)?;
    match take_response(&mut node, put_id)? {
        Response::Write(bytes) => {
            assert!(matches!(kv::decode::<kv::Response>(&bytes)?, kv::Response::Put(_)));
        }
        other => panic!("expected Write, got {other:?}"),
    }

    let get_id = Uuid::new_v4().as_u128();
    let get_cmd = kv::Command::Get { key: "hello".into() };
    let msg = request(&node, get_id, Request::Read(kv::encode(&get_cmd)));
    node = node.step(msg)?;
    match take_response(&mut node, get_id)? {
        Response::Read(bytes) => {
            assert_eq!(
                kv::decode::<kv::Response>(&bytes)?,
                kv::Response::Get(Some("world".into()))
            );
        }
        other => panic!("expected Read, got {other:?}"),
    }

    let status_id = Uuid::new_v4().as_u128();
    let msg = request(&node, status_id, Request::Status);
    node = node.step(msg)?;
    match take_response(&mut node, status_id)? {
        Response::Status(s) => {
            assert_eq!(s.leader, 1);
            assert!(s.commit_index >= 1);
        }
        other => panic!("expected Status, got {other:?}"),
    }
    let _ = node;
    Ok(())
}

#[test]
fn bitcask_engine_roundtrip() -> Result<()> {
    let mut eng = BitCask::new(Vec::new());
    eng.set(b"a", b"1".to_vec())?;
    eng.set(b"b", b"2".to_vec())?;
    assert_eq!(eng.get(b"a")?, Some(b"1".to_vec()));
    eng.delete(b"a")?;
    assert_eq!(eng.get(b"a")?, None);
    let all = KeyRange { start: Bound::Unbounded, end: Bound::Unbounded };
    let keys: Vec<_> = eng.scan(&all).into_iter().map(|r| r.unwrap().0).collect();
    assert_eq!(keys, vec![b"b".to_vec()]);
    Ok(())
}

#[test]
fn log_append_commit_scan() -> Result<()> {
    let mut log = Log::new(BitCask::new(Vec::new()))?;
    log.set_term_vote(1, Some(1))?;
    let i1 = log.append(Some(b"one".to_vec()))?;
    let i2 = log.append(Some(b"two".to_vec()))?;
    assert_eq!((i1, i2), (1, 2));
    log.commit(2)?;
    let mut entries = Vec::new();
    let mut scan = log.scan(IndexBound::Included(1), IndexBound::Included(2));
    while let Some(entry) = scan.next() {
        entries.push(entry?.command);
    }
    assert_eq!(entries, vec![Some(b"one".to_vec()), Some(b"two".to_vec())]);
    assert_eq!(log.get_commit_index(), (2, 1));
    Ok(())
}

#[test]
fn a_node_is_not_its_own_peer() {
    let log = Log::new(BitCask::new(Vec::new())).unwrap();
    let peers: HashSet<u8> = [1, 2].into_iter().collect();
    match Node::new(1, peers, log, Kv::new(), Options::default()) {
        Err(Error::InvalidInput(text)) => assert_eq!(text, "node ID 1 can't be in peers"),
        _ => panic!("node 1 is not a peer of node 1"),
    }
}

#[test]
fn the_first_write_lands_at_index_two() -> Result<()> {
    let mut node = make_node()?;
    let put = kv::Command::Put { key: "k".into(), value: "v".into() };
    let msg = request(&node, 7, Request::Write(kv::encode(&put)));
    assert!(node.accepts(&msg)?);
    node = node.step(msg)?;
    match take_response(&mut node, 7)? {
        Response::Write(bytes) => {
            assert_eq!(kv::decode::<kv::Response>(&bytes)?, kv::Response::Put(2));
        }
        other => panic!("expected Write, got {other:?}"),
    }
    Ok(())
}

#[test]
fn a_node_refuses_what_its_state_machine_does_not_take() -> Result<()> {
    let mut node = make_node()?;
    let get = kv::Command::Get { key: "k".into() };
    let put = kv::Command::Put { key: "k".into(), value: "v".into() };
    let as_write = request(&node, 1, Request::Write(kv::encode(&get)));
    let as_read = request(&node, 2, Request::Read(kv::encode(&put)));
    assert!(!node.accepts(&as_write)?);
    assert!(!node.accepts(&as_read)?);
    // A message for another node.
    let mut elsewhere = request(&node, 3, Request::Status);
    elsewhere.to = 2;
    assert!(!node.accepts(&elsewhere)?);
    Ok(())
}
