//! Nodes that start again from what their storage kept.

use std::collections::HashSet;

use raft_rust::kv::{self, Command, Kv};
use raft_rust::raft::runtime::{launch, recover, Launched};
use raft_rust::{
    BitCask, Engine, Envelope, Key, Log, Message, Node, Options, Request, Response, SessionState,
    State, TICK_INTERVAL,
};
use uuid::Uuid;

type Single = Node<BitCask, SessionState<Kv>>;

fn take_write_response(node: &mut Single, want: u128) -> Response {
    for msg in node.take_messages() {
        if let Message::ClientResponse { id, response } = msg.message {
            if id == want {
                return response.expect("response ok");
            }
        }
    }
    panic!("missing response for {want}");
}

fn ask(node: Single, request: Request) -> (Single, Response) {
    let id = Uuid::new_v4().as_u128();
    let term = node.term();
    let mut node = node
        .step(Envelope { from: 1, to: 1, term, message: Message::ClientRequest { id, request } })
        .unwrap();
    let response = take_write_response(&mut node, id);
    (node, response)
}

fn put(node: Single, key: &str, value: &str) -> Single {
    let cmd = Command::Put { key: key.into(), value: value.into() };
    ask(node, Request::Write(kv::encode(&cmd))).0
}

fn get(node: Single, key: &str) -> (Single, kv::Response) {
    let cmd = Command::Get { key: key.into() };
    match ask(node, Request::Read(kv::encode(&cmd))) {
        (node, Response::Read(bytes)) => (node, kv::decode(&bytes).unwrap()),
        (_, other) => panic!("expected Read, got {other:?}"),
    }
}

/// What the storage of a node kept.
fn kept(node: Single) -> Vec<u8> {
    match node {
        Node::Leader(raw) => raw.log.into_engine().into_log(),
        _ => panic!("a node on its own leads"),
    }
}

#[test]
fn restart_replays_log_and_restores_kv() {
    let stored = {
        let log = Log::new(BitCask::new(Vec::new())).unwrap();
        let mut node = Node::new(
            1,
            HashSet::new(),
            log,
            SessionState::new(Kv::new()),
            Options { snapshot_threshold: 0, ..Options::default() },
        )
        .unwrap();
        assert!(matches!(node, Node::Leader(_)));
        node = put(node, "persist", "yes");
        node = put(node, "k2", "v2");
        kept(node)
    };
    {
        let log = Log::new(BitCask::new(stored)).unwrap();
        let node = Node::new(
            1,
            HashSet::new(),
            log,
            SessionState::new(Kv::new()),
            Options { snapshot_threshold: 0, ..Options::default() },
        )
        .unwrap();
        let (node, r) = get(node, "persist");
        assert_eq!(r, kv::Response::Get(Some("yes".into())));
        let (_, r) = get(node, "k2");
        assert_eq!(r, kv::Response::Get(Some("v2".into())));
    }
}

#[test]
fn snapshot_compact_then_restart() {
    let stored = {
        let log = Log::new(BitCask::new(Vec::new())).unwrap();
        let mut node = Node::new(
            1,
            HashSet::new(),
            log,
            SessionState::new(Kv::new()),
            Options { snapshot_threshold: 3, ..Options::default() },
        )
        .unwrap();
        for i in 0..8 {
            node = put(node, &format!("k{i}"), &format!("v{i}"));
        }
        let (node, response) = ask(node, Request::Status);
        match response {
            Response::Status(st) => {
                assert!(st.applied_index >= 8);
            }
            other => panic!("{other:?}"),
        }
        kept(node)
    };
    {
        let mut engine = BitCask::new(stored);
        let snap = engine.get(&Key::SnapshotData.encode()).unwrap();
        let log = Log::new(engine).unwrap();
        let mut state = SessionState::new(Kv::new());
        if let Some(bytes) = snap {
            let (idx, _) = log.get_snapshot_meta();
            if idx > 0 {
                state.restore(&bytes, idx).unwrap();
            }
        }
        let mut node = Node::new(
            1,
            HashSet::new(),
            log,
            state,
            Options { snapshot_threshold: 0, ..Options::default() },
        )
        .unwrap();
        for i in 0..8 {
            let (next, r) = get(node, &format!("k{i}"));
            assert_eq!(r, kv::Response::Get(Some(format!("v{i}"))), "key k{i}");
            node = next;
        }
        let _ = node;
        let _ = TICK_INTERVAL;
    }
}

#[test]
fn a_snapshot_drops_the_entries_that_it_covers() {
    let log = Log::new(BitCask::new(Vec::new())).unwrap();
    let opts = Options { snapshot_threshold: 3, ..Options::default() };
    let mut node =
        Node::new(1, HashSet::new(), log, SessionState::new(Kv::new()), opts).unwrap();
    for i in 0..8 {
        node = put(node, &format!("k{i}"), &format!("v{i}"));
    }
    let mut log = Log::new(BitCask::new(kept(node))).unwrap();
    // Nine entries, the empty one of the new leader first; a snapshot after every
    // third of them.
    assert_eq!(log.get_last_index(), (9, 1));
    assert_eq!(log.get_commit_index(), (9, 1));
    assert_eq!(log.get_snapshot_meta(), (9, 1));
    assert_eq!(log.get_first_index(), 10);
    assert!(log.get_snapshot().unwrap().is_some());
    assert!(log.get(9).unwrap().is_none());
    assert!(log.has(9, 1).unwrap());

    let mut state = SessionState::new(Kv::new());
    recover(&mut log, &mut state).unwrap();
    assert_eq!(state.get_applied_index(), 9);
}

#[test]
fn launching_restores_the_snapshot() {
    let log = Log::new(BitCask::new(Vec::new())).unwrap();
    let opts = Options { snapshot_threshold: 2, ..Options::default() };
    let started = launch(1, HashSet::new(), log, SessionState::new(Kv::new()), opts);
    let mut node = match started {
        Launched::Started(node) => node,
        _ => panic!("an empty log is fit to start from"),
    };
    for i in 0..5 {
        node = put(node, &format!("k{i}"), &format!("v{i}"));
    }
    let log = Log::new(BitCask::new(kept(node))).unwrap();
    let started =
        launch(1, HashSet::new(), log, SessionState::new(Kv::new()), Options::default());
    let mut node = match started {
        Launched::Started(node) => node,
        _ => panic!("the log is fit to start from"),
    };
    for i in 0..5 {
        let (next, r) = get(node, &format!("k{i}"));
        assert_eq!(r, kv::Response::Get(Some(format!("v{i}"))));
        node = next;
    }
}

#[test]
fn launching_refuses_options_without_a_timeout() {
    let log = Log::new(BitCask::new(Vec::new())).unwrap();
    let opts = Options {
        election_timeout_range: std::ops::Range { start: 5, end: 5 },
        ..Options::default()
    };
    let started = launch(1, HashSet::new(), log, Kv::new(), opts);
    assert!(matches!(started, Launched::Refused));
}

#[test]
fn term_and_vote_survive_a_restart() {
    let mut log = Log::new(BitCask::new(Vec::new())).unwrap();
    log.set_term_vote(7, Some(3)).unwrap();
    let log = Log::new(BitCask::new(log.into_engine().into_log())).unwrap();
    assert_eq!(log.get_term_vote(), (7, Some(3)));
}
