//! What a log makes durable, and what it keeps.

use std::collections::HashSet;
use std::ops::Range;

use raft_rust::kv::{self, Command, Kv};
use raft_rust::raft::runtime::{handle, launch, Event, Handled, Launched};
use raft_rust::storage::engine::{prefix_range, Bound};
use raft_rust::storage::Memory;
use raft_rust::{
    BitCask, Engine, Entry, Envelope, Log, Membership, MembershipEntry, Message, Node, NodeID,
    Options, State,
};

fn is_flushed(log: &Log<BitCask>) -> bool {
    let engine = log.engine();
    engine.flushed() == engine.bytes().len()
}

fn empty() -> Log<BitCask> {
    Log::new(BitCask::new(Vec::new())).unwrap()
}

fn entry(index: u64, term: u64) -> Entry {
    Entry { index, term, command: Some(vec![index as u8]), membership: None }
}

/// A log with the entries 1 to 5 of term 1, of which 3 are committed.
fn filled() -> Log<BitCask> {
    let mut log = empty();
    log.set_term_vote(1, Some(2)).unwrap();
    for index in 1..=5 {
        assert_eq!(log.append(Some(vec![index])), Ok(index as u64));
    }
    log.commit(3).unwrap();
    log
}

/// Everything that a log tells of itself.
fn told(log: &mut Log<BitCask>) -> String {
    let entries: Vec<_> = (0..10).map(|index| log.get(index).unwrap()).collect();
    let positions = (
        log.get_term_vote(),
        log.get_first_index(),
        log.get_snapshot_meta(),
        log.get_commit_index(),
        log.get_last_index(),
    );
    format!("{positions:?} {entries:?}")
}

#[test]
fn the_term_and_the_vote_are_flushed_whatever_the_setting() {
    let mut log = empty();
    log.enable_fsync(false);
    log.set_term_vote(1, None).unwrap();
    assert!(is_flushed(&log));
    log.append(Some(vec![1])).unwrap();
    assert!(!is_flushed(&log));
    log.set_term_vote(1, Some(2)).unwrap();
    assert!(is_flushed(&log));
    // What changes nothing writes nothing.
    let length = log.engine().bytes().len();
    log.set_term_vote(1, Some(2)).unwrap();
    assert_eq!(log.engine().bytes().len(), length);
}

#[test]
fn entries_are_flushed_unless_that_is_turned_off() {
    let mut log = empty();
    log.set_term_vote(2, None).unwrap();
    log.append(Some(vec![1])).unwrap();
    assert!(is_flushed(&log));
    log.append_membership(MembershipEntry::Simple(Membership::from_iter(&[1, 2]))).unwrap();
    assert!(is_flushed(&log));
    log.splice(vec![entry(3, 2), entry(4, 2)]).unwrap();
    assert!(is_flushed(&log));
    // The commit index is not flushed.
    log.commit(3).unwrap();
    assert!(!is_flushed(&log));
    // Nor is what a splice finds in the log already.
    log.splice(vec![entry(3, 2), entry(4, 2)]).unwrap();
    assert!(!is_flushed(&log));
    log.compact_to(2, 2).unwrap();
    assert!(is_flushed(&log));
    log.commit(4).unwrap();
    log.reset_with_snapshot(6, 2).unwrap();
    assert!(is_flushed(&log));
    log.enable_fsync(false);
    log.append(None).unwrap();
    assert!(!is_flushed(&log));
    log.enable_fsync(true);
    log.append(None).unwrap();
    assert!(is_flushed(&log));
}

#[test]
fn flushing_makes_up_for_what_was_not_flushed() {
    let mut engine = BitCask::new(Vec::new());
    assert_eq!(engine.flushed(), 0);
    engine.set(b"a", vec![1]).unwrap();
    assert_eq!(engine.flushed(), 0);
    engine.flush().unwrap();
    assert_eq!(engine.flushed(), engine.bytes().len());
    engine.delete(b"a").unwrap();
    assert!(engine.flushed() < engine.bytes().len());
    engine.compact();
    assert_eq!(engine.flushed(), 0);
}

#[test]
fn a_log_opened_again_is_the_same_log() {
    let mut log = filled();
    let again = |log: Log<BitCask>| Log::new(BitCask::new(log.into_engine().into_log())).unwrap();
    let before = told(&mut log);
    let mut log = again(log);
    assert_eq!(told(&mut log), before);
    log.set_term_vote(3, None).unwrap();
    log.splice(vec![entry(5, 2), entry(6, 3)]).unwrap();
    log.compact_to(2, 1).unwrap();
    let before = told(&mut log);
    let mut log = again(log);
    assert_eq!(told(&mut log), before);
    log.reset_with_snapshot(8, 3).unwrap();
    let before = told(&mut log);
    let mut log = again(log);
    assert_eq!(told(&mut log), before);
}

#[test]
fn compacting_gives_up_nothing_else() {
    let mut log = filled();
    log.compact_to(2, 1).unwrap();
    assert_eq!(log.get_first_index(), 3);
    assert_eq!(log.get_snapshot_meta(), (2, 1));
    assert_eq!(log.get_last_index(), (5, 1));
    assert_eq!(log.get_commit_index(), (3, 1));
    assert_eq!(log.get_term_vote(), (1, Some(2)));
    for index in 0..=2 {
        assert_eq!(log.get(index), Ok(None));
    }
    for index in 3..=5 {
        assert_eq!(log.get(index), Ok(Some(entry(index, 1))));
    }
    // To no later an index, nothing happens, whatever the term.
    let before = told(&mut log);
    log.compact_to(1, 9).unwrap();
    log.compact_to(2, 9).unwrap();
    assert_eq!(told(&mut log), before);
}

#[test]
fn a_log_compacted_whole_under_another_term() {
    let mut log = filled();
    log.commit(5).unwrap();
    log.compact_to(5, 4).unwrap();
    assert_eq!(log.get_first_index(), 6);
    assert_eq!(log.get_snapshot_meta(), (5, 4));
    for index in 0..=6 {
        assert_eq!(log.get(index), Ok(None));
    }
    assert_eq!(log.get_last_index(), (5, 1));
    assert!(log.is_sound().unwrap());
    assert!(!log.has(5, 1).unwrap());
    assert!(log.has(5, 4).unwrap());
    log.compact_to(5, 7).unwrap();
    log.compact_to(2, 7).unwrap();
    assert_eq!(log.get_snapshot_meta(), (5, 4));
    let mut again = Log::new(log.into_engine()).unwrap();
    assert_eq!(again.get_last_index(), (5, 4));
    assert!(again.is_sound().unwrap());
    again.set_term_vote(5, None).unwrap();
    assert_eq!(again.append(None), Ok(6));
    assert_eq!(again.get_last_index(), (6, 5));
}

#[test]
fn a_log_compacted_at_its_start() {
    let mut log = Log::new(Memory::new()).unwrap();
    log.compact_to(0, 4).unwrap();
    assert_eq!(log.get_last_index(), (0, 0));
    assert_eq!(log.get_snapshot_meta(), (0, 0));
    assert!(log.is_sound().unwrap());
    let mut again = Log::new(log.into_engine()).unwrap();
    assert_eq!(again.get_last_index(), (0, 0));
    assert!(again.is_sound().unwrap());
}

#[test]
fn a_compacted_log_loses_its_start_to_a_snapshot_at_zero() {
    let mut log = filled();
    log.compact_to(2, 1).unwrap();
    log.compact_to(0, 0).unwrap();
    assert_eq!(log.get_first_index(), 1);
    assert_eq!(log.get_last_index(), (5, 1));
    assert_eq!(log.get_commit_index(), (3, 1));
    assert_eq!(log.get(1), Ok(None));
    assert_eq!(log.get(3), Ok(Some(entry(3, 1))));
    assert!(!log.is_sound().unwrap());
}

#[test]
fn a_splice_keeps_what_is_committed() {
    let mut log = filled();
    log.set_term_vote(2, None).unwrap();
    log.splice(vec![entry(4, 2)]).unwrap();
    assert_eq!(log.get_last_index(), (4, 2));
    for index in 1..=3 {
        assert_eq!(log.get(index), Ok(Some(entry(index, 1))));
    }
    assert_eq!(log.get_commit_index(), (3, 1));
    assert_eq!(log.get_term_vote(), (2, None));
}

#[test]
fn the_range_of_a_prefix() {
    let range = prefix_range(&[0x61, 0xff]);
    assert_eq!(range.start, Bound::Included(vec![0x61, 0xff]));
    assert_eq!(range.end, Bound::Excluded(vec![0x62]));
    let range = prefix_range(b"ab");
    assert_eq!(range.start, Bound::Included(b"ab".to_vec()));
    assert_eq!(range.end, Bound::Excluded(b"ac".to_vec()));
    let range = prefix_range(&[0xff, 0xff]);
    assert_eq!(range.start, Bound::Included(vec![0xff, 0xff]));
    assert_eq!(range.end, Bound::Unbounded);
    let range = prefix_range(&[]);
    assert_eq!(range.start, Bound::Included(vec![]));
    assert_eq!(range.end, Bound::Unbounded);
}

fn opts() -> Options {
    Options {
        heartbeat_interval: 2,
        election_timeout_range: Range { start: 5, end: 6 },
        max_append_entries: 100,
        pre_vote: true,
        check_quorum: false,
        snapshot_threshold: 3,
    }
}

fn started(log: Log<Memory>) -> Node<Memory, Kv> {
    match launch(1, HashSet::from([2, 3]), log, Kv::new(), opts()) {
        Launched::Started(node) => node,
        Launched::Refused => panic!("the node is refused"),
        Launched::Failed(e) => panic!("{e:?}"),
    }
}

fn taking(node: Node<Memory, Kv>, event: Event) -> Node<Memory, Kv> {
    match handle(node, event) {
        Handled::Done(node, _) => node,
        Handled::Refused(_) => panic!("the event is refused"),
        Handled::Failed(e) => panic!("{e:?}"),
    }
}

fn sent(from: NodeID, term: u64, message: Message) -> Event {
    Event::Message(Envelope { from, to: 1, term, message })
}

#[test]
fn a_state_ahead_of_its_snapshot_starts_and_leads() {
    // A state that has come further than the point of the snapshot that carries it.
    let mut kv = Kv::new();
    for index in 1..=15 {
        let command = Command::Put { key: "k".into(), value: index.to_string() };
        let entry =
            Entry { index, term: 1, command: Some(kv::encode(&command)), membership: None };
        kv.apply(entry).unwrap();
    }
    let install = Message::InstallSnapshot {
        last_included_index: 10,
        last_included_term: 1,
        data: kv.snapshot().unwrap(),
        membership: MembershipEntry::Simple(Membership::from_iter(&[1, 2, 3])),
    };
    let node = started(Log::new(Memory::new()).unwrap());
    let node = taking(node, sent(2, 1, install));
    let raw = match node {
        Node::Follower(raw) => raw,
        _ => panic!("a follower"),
    };
    assert_eq!(raw.log.get_commit_index(), (10, 1));
    assert_eq!(raw.state.get_applied_index(), 15);
    // The node starts again on what it kept.
    let mut node = started(Log::new(raw.log.into_engine()).unwrap());
    match &node {
        Node::Follower(raw) => assert_eq!(raw.state.get_applied_index(), 15),
        _ => panic!("a follower"),
    }
    // It runs for an election and wins it.
    for _ in 0..5 {
        node = taking(node, Event::Tick);
    }
    let node = taking(node, sent(2, 2, Message::PreCampaignResponse { vote: true }));
    let node = taking(node, sent(2, 2, Message::CampaignResponse { vote: true }));
    assert!(matches!(node, Node::Leader(_)));
}

#[test]
fn votes_and_entries_are_durable_before_they_are_answered() {
    let follower = |fsync: bool| {
        let mut log = empty();
        log.enable_fsync(fsync);
        Node::new_with(1, HashSet::from([2, 3]), log, Kv::new(), opts(), 5).unwrap()
    };
    let durable = |node: &Node<BitCask, Kv>| match node {
        Node::Candidate(raw) => is_flushed(&raw.log),
        Node::Follower(raw) => is_flushed(&raw.log),
        Node::Leader(raw) => is_flushed(&raw.log),
    };
    let campaign = Message::Campaign { last_index: 0, last_term: 0 };
    let ask = Envelope { from: 2, to: 1, term: 1, message: campaign };
    let node = follower(false).step_with(ask, 5).unwrap();
    assert!(durable(&node));
    let append = |index: u64| Envelope {
        from: 2,
        to: 1,
        term: 1,
        message: Message::Append {
            base_index: index - 1,
            base_term: if index == 1 { 0 } else { 1 },
            entries: vec![Entry { index, term: 1, command: None, membership: None }],
        },
    };
    // The new term is flushed; the entry that comes with it is not.
    let node = node.step_with(append(1), 5).unwrap();
    assert!(!durable(&node));
    let node = follower(true).step_with(append(1), 5).unwrap();
    assert!(durable(&node));
    let mut node = node.step_with(append(2), 5).unwrap();
    assert!(durable(&node));
    // The term of an election is flushed before votes are asked for.
    let mut node = {
        for _ in 0..5 {
            node = node.tick_with(5).unwrap();
        }
        node
    };
    let term = node.term();
    let support = Message::PreCampaignResponse { vote: true };
    node = node.step_with(Envelope { from: 2, to: 1, term, message: support }, 5).unwrap();
    assert_eq!(node.term(), term + 1);
    assert!(durable(&node));
}
