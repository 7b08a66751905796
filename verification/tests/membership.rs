//! Configurations, quorums, and the log.

use std::collections::{BTreeSet, HashSet};

use raft_rust::raft::ids::{ids_of, ordered, set_of, unordered};
use raft_rust::raft::log::IndexBound;
use raft_rust::raft::membership::{Membership, MembershipEntry, MembershipState};
use raft_rust::raft::order::requests_of;
use raft_rust::storage::Memory;
use raft_rust::{Engine, Entry, Key, Log};

fn ids(list: &[u8]) -> BTreeSet<u8> {
    list.iter().copied().collect()
}

fn entry(index: u64, term: u64, text: &str) -> Entry {
    Entry { index, term, command: Some(text.as_bytes().to_vec()), membership: None }
}

#[test]
fn a_quorum_is_more_than_half() {
    let four = Membership::from_iter(&[1, 2, 3, 4]);
    assert_eq!(four.len(), 4);
    assert_eq!(four.quorum_size(), 3);
    assert!(four.has_quorum(&ids(&[1, 2, 3])));
    assert!(!four.has_quorum(&ids(&[1, 2])));
    // Others do not count.
    assert!(!four.has_quorum(&ids(&[1, 2, 9])));
    assert_eq!(Membership::from_iter(&[7]).quorum_size(), 1);
    assert!(Membership::from_iter(&[]).is_empty());
}

#[test]
fn a_joint_configuration_needs_both_majorities() {
    let joint = MembershipEntry::Joint {
        old: Membership::from_iter(&[1, 2, 3]),
        new: Membership::from_iter(&[3, 4, 5]),
    };
    assert!(joint.is_joint());
    assert_eq!(joint.all_voters(), ids(&[1, 2, 3, 4, 5]));
    assert_eq!(joint.target(), &Membership::from_iter(&[3, 4, 5]));
    assert!(!joint.has_quorum(&ids(&[1, 2, 3])));
    assert!(!joint.has_quorum(&ids(&[3, 4, 5])));
    assert!(joint.has_quorum(&ids(&[2, 3, 4])));
}

#[test]
fn one_change_is_pending_until_its_second_part_commits() {
    let mut state = MembershipState::bootstrap(1, ids(&[2, 3]));
    assert_eq!(state.all_voters(), ids(&[1, 2, 3]));
    assert_eq!(state.peers_of(1), ids(&[2, 3]));
    assert!(!state.change_pending);
    let joint = MembershipEntry::Joint {
        old: Membership::from_iter(&[1, 2, 3]),
        new: Membership::from_iter(&[1, 2]),
    };
    state.apply_entry(&joint);
    assert!(state.change_pending);
    assert!(state.has_quorum(&ids(&[1, 2])));
    state.on_commit(&joint);
    assert!(state.change_pending);
    let simple = MembershipEntry::Simple(Membership::from_iter(&[1, 2]));
    state.apply_entry(&simple);
    assert!(state.change_pending);
    state.on_commit(&simple);
    assert!(!state.change_pending);
    assert_eq!(state.all_voters(), ids(&[1, 2]));
}

#[test]
fn identifiers_are_put_in_order() {
    let hashed = HashSet::from([9, 3, 200, 1]);
    assert_eq!(ids_of(&ordered(&hashed)), vec![1, 3, 9, 200]);
    assert_eq!(unordered(&ordered(&hashed)), hashed);
    assert_eq!(set_of(&[3, 1, 3]), ids(&[1, 3]));
    let requests = HashSet::from([5u128, 1 << 90, 2]);
    assert_eq!(requests_of(&requests), vec![2, 5, 1 << 90]);
}

#[test]
fn splicing_replaces_what_conflicts() {
    let mut log = Log::new(Memory::new()).unwrap();
    log.set_term_vote(1, None).unwrap();
    for text in ["a", "b", "c"] {
        log.append(Some(text.as_bytes().to_vec())).unwrap();
    }
    log.commit(1).unwrap();
    log.set_term_vote(2, None).unwrap();
    // What is there already stays.
    let known = vec![entry(2, 1, "b")];
    assert!(log.is_spliceable(2, &known).unwrap());
    assert_eq!(log.splice(known).unwrap(), 3);
    // From the first conflict on, everything is replaced.
    let newer = vec![entry(2, 1, "b"), entry(3, 2, "x"), entry(4, 2, "y")];
    assert!(log.is_spliceable(2, &newer).unwrap());
    assert_eq!(log.splice(newer).unwrap(), 4);
    assert_eq!(log.get_last_index(), (4, 2));
    assert_eq!(log.get(3).unwrap().unwrap().command, Some(b"x".to_vec()));
    let shorter = vec![entry(3, 2, "x")];
    assert_eq!(log.splice(shorter).unwrap(), 4);
    // A gap, a committed entry, a term from the future, and other contents.
    assert!(!log.is_spliceable(2, &vec![entry(6, 2, "z")]).unwrap());
    assert!(!log.is_spliceable(2, &vec![entry(1, 2, "z")]).unwrap());
    assert!(!log.is_spliceable(2, &vec![entry(5, 3, "z")]).unwrap());
    assert!(!log.is_spliceable(2, &vec![entry(4, 2, "z")]).unwrap());
    assert!(!log.is_spliceable(2, &vec![entry(4, 2, "y"), entry(6, 2, "z")]).unwrap());
    assert!(log.is_spliceable(2, &vec![]).unwrap());
}

#[test]
fn a_log_is_compacted_and_reset() {
    let mut log = Log::new(Memory::new()).unwrap();
    log.set_term_vote(1, None).unwrap();
    for text in ["a", "b", "c"] {
        log.append(Some(text.as_bytes().to_vec())).unwrap();
    }
    log.commit(3).unwrap();
    log.set_snapshot(vec![1]).unwrap();
    log.compact_to(2, 1).unwrap();
    assert_eq!(log.get_snapshot_meta(), (2, 1));
    assert_eq!(log.get_first_index(), 3);
    assert_eq!(log.get_last_index(), (3, 1));
    assert!(log.get(2).unwrap().is_none());
    let mut left = Vec::new();
    let mut scan = log.scan(IndexBound::Unbounded, IndexBound::Unbounded);
    while let Some(entry) = scan.next() {
        left.push(entry.unwrap().index);
    }
    assert_eq!(left, vec![3]);
    log.set_snapshot(vec![7]).unwrap();
    log.reset_with_snapshot(9, 4).unwrap();
    assert_eq!(log.get_snapshot_meta(), (9, 4));
    assert_eq!(log.get_last_index(), (9, 4));
    assert_eq!(log.get_commit_index(), (9, 4));
    assert_eq!(log.get_snapshot().unwrap(), Some(vec![7]));
    assert!(log.get(3).unwrap().is_none());
}

#[test]
fn the_latest_change_of_the_membership_is_found() {
    let mut log = Log::new(Memory::new()).unwrap();
    log.set_term_vote(1, None).unwrap();
    assert!(log.latest_membership().unwrap().is_none());
    let change = |list: &[u8]| MembershipEntry::Simple(Membership::from_iter(list));
    log.append_membership(change(&[1])).unwrap();
    log.append_membership(change(&[1, 2])).unwrap();
    log.append(None).unwrap();
    assert_eq!(log.latest_membership().unwrap(), Some((2, change(&[1, 2]))));
}

#[test]
fn only_the_storage_of_a_log_opens_as_one() {
    let mut log = Log::new(Memory::new()).unwrap();
    log.set_term_vote(2, Some(1)).unwrap();
    for text in ["a", "b", "c"] {
        log.append(Some(text.as_bytes().to_vec())).unwrap();
    }
    log.commit(2).unwrap();
    assert!(log.is_sound().unwrap());
    let mut log = Log::open(log.into_engine()).unwrap().unwrap();
    assert_eq!(log.get_last_index(), (3, 2));
    assert_eq!(log.get_commit_index(), (2, 2));
    assert!(log.is_sound().unwrap());
    // A gap.
    let mut engine = log.into_engine();
    engine.delete(&Key::Entry(2).encode()).unwrap();
    assert!(Log::open(engine).unwrap().is_none());
    // A commit index past the end.
    let mut log = Log::new(Memory::new()).unwrap();
    log.set_term_vote(1, None).unwrap();
    log.append(None).unwrap();
    log.commit(1).unwrap();
    let mut engine = log.into_engine();
    engine.delete(&Key::Entry(1).encode()).unwrap();
    assert!(Log::open(engine).unwrap().is_none());
    // What cannot be decoded.
    let mut engine = Memory::new();
    engine.set(&Key::TermVote.encode(), vec![]).unwrap();
    assert!(Log::open(engine).is_err());
    assert!(Log::open(Memory::new()).unwrap().is_some());
}
