//! What nodes do with single messages.

use std::collections::HashSet;
use std::ops::Range;

use raft_rust::kv::{self, Command, Kv};
use raft_rust::storage::Memory;
use raft_rust::{
    Entry, Envelope, Error, Log, Membership, MembershipEntry, Message, Node, NodeID, Options, Request,
    Response,
};

type Single = Node<Memory, Kv>;

fn opts() -> Options {
    Options {
        heartbeat_interval: 2,
        election_timeout_range: Range { start: 5, end: 8 },
        max_append_entries: 2,
        pre_vote: true,
        check_quorum: true,
        snapshot_threshold: 0,
    }
}

/// A follower in a cluster of three, which has been in term 1.
fn follower(id: NodeID) -> Single {
    let mut log = Log::new(Memory::new()).unwrap();
    log.set_term_vote(1, None).unwrap();
    let peers: HashSet<NodeID> = (1..=3).filter(|&peer| peer != id).collect();
    Node::new_with(id, peers, log, Kv::new(), opts(), 5).unwrap()
}

fn envelope(from: NodeID, to: NodeID, term: u64, message: Message) -> Envelope {
    Envelope { from, to, term, message }
}

/// Hands a message to a node and returns what it sends.
fn told(mut node: Single, msg: Envelope) -> (Single, Vec<Envelope>) {
    assert!(node.accepts(&msg).unwrap(), "{msg:?}");
    let mut node = node.step_with(msg, 5).unwrap();
    let sent = node.take_messages();
    (node, sent)
}

/// A leader in term 2, elected by node 2.
fn leader() -> Single {
    let mut node = follower(1);
    for _ in 0..5 {
        node = node.tick_with(5).unwrap();
    }
    node.take_messages();
    let (node, _) = told(node, envelope(2, 1, 2, Message::PreCampaignResponse { vote: true }));
    let (node, _) = told(node, envelope(2, 1, 2, Message::CampaignResponse { vote: true }));
    assert!(matches!(node, Node::Leader(_)));
    node
}

fn command(key: &str, value: &str) -> Vec<u8> {
    kv::encode(&Command::Put { key: key.into(), value: value.into() })
}

fn put(key: &str, value: &str) -> Request {
    Request::Write(command(key, value))
}

fn ask(node: Single, id: u128, request: Request) -> (Single, Vec<Envelope>) {
    let msg = envelope(1, 1, node.term(), Message::ClientRequest { id, request });
    told(node, msg)
}

#[test]
fn a_poll_changes_nothing() {
    let node = follower(1);
    let poll = Message::PreCampaign { last_index: 0, last_term: 0 };
    let (node, sent) = told(node, envelope(2, 1, 2, poll.clone()));
    assert_eq!(
        sent,
        vec![envelope(1, 2, 1, Message::PreCampaignResponse { vote: true })]
    );
    assert_eq!(node.term(), 1);
    // A candidate for the current term is not supported.
    let (_, sent) = told(node, envelope(2, 1, 1, poll));
    assert_eq!(
        sent,
        vec![envelope(1, 2, 1, Message::PreCampaignResponse { vote: false })]
    );
}

#[test]
fn a_node_votes_once_in_a_term() {
    let node = follower(1);
    let campaign = Message::Campaign { last_index: 0, last_term: 0 };
    let (node, sent) = told(node, envelope(2, 1, 2, campaign.clone()));
    assert_eq!(sent, vec![envelope(1, 2, 2, Message::CampaignResponse { vote: true })]);
    let (node, sent) = told(node, envelope(3, 1, 2, campaign.clone()));
    assert_eq!(sent, vec![envelope(1, 3, 2, Message::CampaignResponse { vote: false })]);
    // The vote stands when it is asked for again.
    let (node, sent) = told(node, envelope(2, 1, 2, campaign));
    assert_eq!(sent, vec![envelope(1, 2, 2, Message::CampaignResponse { vote: true })]);
    assert_eq!(node.term(), 2);
}

#[test]
fn a_node_does_not_vote_for_a_log_behind_its_own() {
    let mut log = Log::new(Memory::new()).unwrap();
    log.set_term_vote(3, None).unwrap();
    log.append(None).unwrap();
    let node = Node::new_with(1, HashSet::from([2, 3]), log, Kv::new(), opts(), 5).unwrap();
    let behind = Message::Campaign { last_index: 9, last_term: 2 };
    let (node, sent) = told(node, envelope(2, 1, 4, behind));
    assert_eq!(sent, vec![envelope(1, 2, 4, Message::CampaignResponse { vote: false })]);
    let level = Message::Campaign { last_index: 1, last_term: 3 };
    let (_, sent) = told(node, envelope(3, 1, 4, level));
    assert_eq!(sent, vec![envelope(1, 3, 4, Message::CampaignResponse { vote: true })]);
}

#[test]
fn strangers_and_past_terms_are_ignored() {
    let node = follower(1);
    let heartbeat = Message::Heartbeat { last_index: 0, commit_index: 0, read_seq: 0 };
    let (node, sent) = told(node, envelope(9, 1, 7, heartbeat.clone()));
    assert!(sent.is_empty());
    assert_eq!(node.term(), 1);
    let (node, sent) = told(node, envelope(2, 1, 0, heartbeat.clone()));
    assert!(sent.is_empty());
    // A later term is adopted.
    let (node, sent) = told(node, envelope(2, 1, 7, heartbeat));
    assert_eq!(
        sent,
        vec![envelope(1, 2, 7, Message::HeartbeatResponse { match_index: 0, read_seq: 0 })]
    );
    assert_eq!(node.term(), 7);
}

#[test]
fn a_follower_takes_entries_and_applies_what_is_committed() {
    let node = follower(1);
    let entries = vec![
        Entry { index: 1, term: 1, command: None, membership: None },
        Entry { index: 2, term: 1, command: Some(command("k", "v")), membership: None },
    ];
    let append = Message::Append { base_index: 0, base_term: 0, entries };
    let (node, sent) = told(node, envelope(2, 1, 1, append));
    assert_eq!(
        sent,
        vec![envelope(1, 2, 1, Message::AppendResponse { match_index: 2, reject_index: 0 })]
    );
    // A base that the follower does not have is refused.
    let gap = Message::Append { base_index: 7, base_term: 1, entries: vec![] };
    let (node, sent) = told(node, envelope(2, 1, 1, gap));
    assert_eq!(
        sent,
        vec![envelope(1, 2, 1, Message::AppendResponse { match_index: 0, reject_index: 3 })]
    );
    let heartbeat = Message::Heartbeat { last_index: 2, commit_index: 2, read_seq: 4 };
    let (node, sent) = told(node, envelope(2, 1, 1, heartbeat));
    assert_eq!(
        sent,
        vec![envelope(1, 2, 1, Message::HeartbeatResponse { match_index: 2, read_seq: 4 })]
    );
    match node {
        Node::Follower(raw) => {
            assert_eq!(raw.state.data().get(b"k"), Some(&"v".to_string()));
            assert_eq!(raw.log.get_commit_index(), (2, 1));
        }
        _ => panic!("a follower"),
    }
}

#[test]
fn a_follower_aborts_without_a_leader_and_forwards_with_one() {
    let node = follower(1);
    let (node, sent) = ask(node, 5, put("k", "v"));
    assert_eq!(
        sent,
        vec![envelope(
            1,
            1,
            1,
            Message::ClientResponse { id: 5, response: Err(Error::Abort) }
        )]
    );
    let heartbeat = Message::Heartbeat { last_index: 0, commit_index: 0, read_seq: 0 };
    let (node, _) = told(node, envelope(2, 1, 1, heartbeat));
    let (node, sent) = ask(node, 6, put("k", "v"));
    assert_eq!(
        sent,
        vec![envelope(1, 2, 1, Message::ClientRequest { id: 6, request: put("k", "v") })]
    );
    // The leader's answer goes to the client.
    let answer = Message::ClientResponse { id: 6, response: Ok(Response::Write(vec![1])) };
    let (_, sent) = told(node, envelope(2, 1, 1, answer.clone()));
    assert_eq!(sent, vec![envelope(1, 1, 1, answer)]);
}

#[test]
fn a_write_waits_for_a_quorum() {
    let node = leader();
    let (node, sent) = ask(node, 7, put("k", "v"));
    assert!(sent.iter().all(|msg| !matches!(msg.message, Message::ClientResponse { .. })));
    match &node {
        Node::Leader(raw) => assert_eq!(raw.log.get_commit_index(), (0, 0)),
        _ => panic!("a leader"),
    }
    // One peer and the leader itself are a quorum of three.
    let ack = Message::AppendResponse { match_index: 2, reject_index: 0 };
    let (node, sent) = told(node, envelope(3, 1, 2, ack));
    let answer = sent.iter().find_map(|msg| match &msg.message {
        Message::ClientResponse { id: 7, response } => Some(response.clone()),
        _ => None,
    });
    let bytes = match answer {
        Some(Ok(Response::Write(bytes))) => bytes,
        other => panic!("{other:?}"),
    };
    assert_eq!(kv::decode::<kv::Response>(&bytes).unwrap(), kv::Response::Put(2));
    match &node {
        Node::Leader(raw) => assert_eq!(raw.log.get_commit_index(), (2, 2)),
        _ => panic!("a leader"),
    }
}

#[test]
fn a_read_waits_until_the_leadership_is_confirmed() {
    let node = leader();
    let ack = Message::AppendResponse { match_index: 1, reject_index: 0 };
    let (node, _) = told(node, envelope(2, 1, 2, ack));
    let get = Request::Read(kv::encode(&Command::Get { key: "k".into() }));
    let (node, sent) = ask(node, 8, get);
    assert_eq!(
        sent,
        vec![
            envelope(1, 2, 2, Message::Read { seq: 1 }),
            envelope(1, 3, 2, Message::Read { seq: 1 }),
        ]
    );
    let (_, sent) = told(node, envelope(3, 1, 2, Message::ReadResponse { seq: 1 }));
    assert_eq!(
        sent,
        vec![envelope(
            1,
            1,
            2,
            Message::ClientResponse {
                id: 8,
                response: Ok(Response::Read(kv::encode(&kv::Response::Get(None))))
            }
        )]
    );
}

#[test]
fn a_rejected_append_is_tried_further_back() {
    let node = leader();
    let (node, _) = ask(node, 1, put("a", "1"));
    let (node, _) = ask(node, 2, put("b", "2"));
    let no = Message::AppendResponse { match_index: 0, reject_index: 2 };
    let (node, sent) = told(node, envelope(3, 1, 2, no));
    // A probe without entries.
    assert_eq!(
        sent,
        vec![envelope(
            1,
            3,
            2,
            Message::Append { base_index: 1, base_term: 2, entries: vec![] }
        )]
    );
    // Once the base matches, entries follow, at most two at a time.
    let yes = Message::AppendResponse { match_index: 1, reject_index: 0 };
    let (_, sent) = told(node, envelope(3, 1, 2, yes));
    assert_eq!(sent.len(), 1);
    match &sent[0].message {
        Message::Append { base_index, base_term, entries } => {
            assert_eq!((*base_index, *base_term), (1, 2));
            assert_eq!(entries.iter().map(|entry| entry.index).collect::<Vec<_>>(), vec![2, 3]);
        }
        other => panic!("{other:?}"),
    }
}

#[test]
fn one_membership_change_at_a_time() {
    let node = leader();
    let change = |voters: &[u8]| Request::ChangeMembership {
        voters: voters.iter().copied().collect(),
    };
    let refusal = |sent: Vec<Envelope>| match sent.into_iter().next().unwrap().message {
        Message::ClientResponse { response: Err(e), .. } => e,
        other => panic!("{other:?}"),
    };
    let (node, sent) = ask(node, 1, change(&[]));
    assert_eq!(refusal(sent), Error::InvalidInput("voters must not be empty".into()));
    let (node, sent) = ask(node, 2, change(&[1, 2, 3]));
    assert_eq!(refusal(sent), Error::InvalidInput("membership unchanged".into()));
    let (node, sent) = ask(node, 3, change(&[1, 2]));
    assert!(sent.iter().all(|msg| matches!(msg.message, Message::Append { .. })));
    assert_eq!(node.voters().len(), 3);
    let (_, sent) = ask(node, 4, change(&[1, 3]));
    assert_eq!(
        refusal(sent),
        Error::InvalidInput("membership change already in progress".into())
    );
}

#[test]
fn a_leader_without_a_quorum_steps_down() {
    let mut node = leader();
    let (next, _) = ask(node, 9, put("k", "v"));
    node = next;
    for _ in 0..6 {
        node = node.tick_with(5).unwrap();
        node.take_messages();
    }
    assert!(matches!(node, Node::Leader(_)));
    node = node.tick_with(5).unwrap();
    assert!(matches!(node, Node::Follower(_)));
    assert_eq!(node.term(), 2);
    // What its clients wait for is aborted.
    let sent = node.take_messages();
    assert!(sent.contains(&envelope(
        1,
        1,
        2,
        Message::ClientResponse { id: 9, response: Err(Error::Abort) }
    )));
}

#[test]
fn messages_that_break_the_protocol_are_not_accepted() {
    let mut node = leader();
    // More than the leader's own log.
    let ahead = Message::AppendResponse { match_index: 9, reject_index: 0 };
    assert!(!node.accepts(&envelope(3, 1, 2, ahead)).unwrap());
    let both = Message::AppendResponse { match_index: 1, reject_index: 1 };
    assert!(!node.accepts(&envelope(3, 1, 2, both)).unwrap());
    let unasked = Message::HeartbeatResponse { match_index: 1, read_seq: 9 };
    assert!(!node.accepts(&envelope(3, 1, 2, unasked)).unwrap());
    let mut node = follower(1);
    let beyond = Message::Heartbeat { last_index: 0, commit_index: 1, read_seq: 0 };
    assert!(!node.accepts(&envelope(2, 1, 1, beyond)).unwrap());
    let entry = Entry { index: 5, term: 1, command: None, membership: None };
    let apart = Message::Append { base_index: 0, base_term: 0, entries: vec![entry] };
    assert!(!node.accepts(&envelope(2, 1, 1, apart)).unwrap());
    assert!(node.accepts_tick());
}

#[test]
fn a_read_proposed_as_a_write_is_refused_when_it_would_be_applied() {
    let read = kv::encode(&Command::Get { key: "k".into() });
    let (mut node, _) = ask(leader(), 5, Request::Write(read.clone()));
    // The peer has the entries of the leader and the read.
    let has = |index| {
        envelope(3, 1, 2, Message::AppendResponse { match_index: index, reject_index: 0 })
    };
    assert!(node.accepts(&has(1)).unwrap());
    assert!(!node.accepts(&has(2)).unwrap());
    // A node on its own would apply it at once.
    let log = Log::new(Memory::new()).unwrap();
    let mut node = Node::new_with(1, HashSet::new(), log, Kv::new(), opts(), 5).unwrap();
    let term = node.term();
    let msg = |request| envelope(1, 1, term, Message::ClientRequest { id: 1, request });
    assert!(!node.accepts(&msg(Request::Write(read))).unwrap());
    assert!(node.accepts(&msg(put("k", "v"))).unwrap());
}

#[test]
fn a_node_that_cannot_start_is_not_started() {
    let read = kv::encode(&Command::Get { key: "k".into() });
    let mut log = Log::new(Memory::new()).unwrap();
    log.set_term_vote(1, None).unwrap();
    log.append(Some(read.clone())).unwrap();
    // What is not committed is no reason for a node that has peers.
    let node = Node::try_new_with(1, HashSet::from([2]), log, Kv::new(), opts(), 5).unwrap();
    assert!(matches!(node, Some(Node::Follower(_))));
    let mut log = Log::new(Memory::new()).unwrap();
    log.set_term_vote(1, None).unwrap();
    log.append(Some(read.clone())).unwrap();
    let alone = Node::try_new_with(1, HashSet::new(), log, Kv::new(), opts(), 5).unwrap();
    assert!(alone.is_none());
    let mut log = Log::new(Memory::new()).unwrap();
    log.set_term_vote(1, None).unwrap();
    log.append(Some(read)).unwrap();
    log.commit(1).unwrap();
    let node = Node::try_new_with(1, HashSet::from([2]), log, Kv::new(), opts(), 5).unwrap();
    assert!(node.is_none());
    let log = Log::new(Memory::new()).unwrap();
    let alone = Node::try_new_with(1, HashSet::new(), log, Kv::new(), opts(), 5).unwrap();
    assert!(matches!(alone, Some(Node::Leader(_))));
    let log = Log::new(Memory::new()).unwrap();
    let own = Node::try_new_with(1, HashSet::from([1]), log, Kv::new(), opts(), 5);
    assert!(matches!(own, Err(Error::InvalidInput(text)) if text == "node ID 1 can't be in peers"));
}

#[test]
fn an_error_is_relayed_with_its_text() {
    let heartbeat = Message::Heartbeat { last_index: 0, commit_index: 0, read_seq: 0 };
    let (node, _) = told(follower(1), envelope(2, 1, 1, heartbeat));
    let (node, sent) = ask(node, 7, put("k", "v"));
    assert_eq!(sent.len(), 1);
    assert_eq!(sent[0].to, 2);
    let response = Err(Error::IO("disk full".into()));
    let answer = Message::ClientResponse { id: 7, response };
    let (_, sent) = told(node, envelope(2, 1, 1, answer.clone()));
    assert_eq!(sent, vec![envelope(1, 1, 1, answer)]);
}

fn single(voters: &[NodeID]) -> MembershipEntry {
    MembershipEntry::Simple(Membership { voters: voters.iter().copied().collect() })
}

fn joint(old: &[NodeID], new: &[NodeID]) -> MembershipEntry {
    MembershipEntry::Joint {
        old: Membership { voters: old.iter().copied().collect() },
        new: Membership { voters: new.iter().copied().collect() },
    }
}

fn change(index: u64, term: u64, membership: MembershipEntry) -> Entry {
    Entry { index, term, command: None, membership: Some(membership) }
}

fn empty(index: u64, term: u64) -> Entry {
    Entry { index, term, command: None, membership: None }
}

/// What a follower takes for its membership, and whether a change is under way.
fn membership_of(node: &Single) -> (MembershipEntry, bool) {
    match node {
        Node::Follower(raw) => (raw.membership.active.clone(), raw.membership.change_pending),
        _ => panic!("a follower was expected"),
    }
}

#[test]
fn a_change_that_is_overwritten_is_given_up() {
    let node = follower(1);
    let adds = joint(&[1, 2, 3], &[1, 2, 3, 4]);
    let first = single(&[1, 2, 3]);
    let entries = vec![change(1, 1, first.clone()), empty(2, 1), change(3, 1, adds.clone())];
    let append = Message::Append { base_index: 0, base_term: 0, entries };
    let (node, _) = told(node, envelope(2, 1, 1, append));
    assert_eq!(membership_of(&node), (adds, true));
    // Another leader has nothing of it.
    let append = Message::Append { base_index: 2, base_term: 1, entries: vec![empty(3, 2)] };
    let (node, _) = told(node, envelope(3, 1, 2, append));
    assert_eq!(membership_of(&node), (first, true));
}

#[test]
fn an_append_that_comes_again_changes_nothing() {
    let node = follower(1);
    let first = single(&[1, 2, 3]);
    let adds = joint(&[1, 2, 3], &[1, 2, 3, 4]);
    let old = Message::Append {
        base_index: 0,
        base_term: 0,
        entries: vec![change(1, 1, first)],
    };
    let (node, _) = told(node, envelope(2, 1, 1, old.clone()));
    let append = Message::Append {
        base_index: 1,
        base_term: 1,
        entries: vec![change(2, 1, adds.clone())],
    };
    let (node, _) = told(node, envelope(2, 1, 1, append));
    let (node, sent) = told(node, envelope(2, 1, 1, old));
    assert_eq!(
        sent,
        vec![envelope(1, 2, 1, Message::AppendResponse { match_index: 1, reject_index: 0 })]
    );
    assert_eq!(membership_of(&node), (adds, true));
}

#[test]
fn a_change_is_under_way_until_the_last_one_is_committed() {
    let node = follower(1);
    let adds = joint(&[1, 2, 3], &[1, 2, 3, 4]);
    let entries = vec![change(1, 1, single(&[1, 2, 3])), change(2, 1, adds.clone())];
    let append = Message::Append { base_index: 0, base_term: 0, entries };
    let (node, _) = told(node, envelope(2, 1, 1, append));
    // An older configuration is committed under the newer one.
    let beat = Message::Heartbeat { last_index: 2, commit_index: 1, read_seq: 0 };
    let (node, _) = told(node, envelope(2, 1, 1, beat));
    assert_eq!(membership_of(&node), (adds, true));
    let done = single(&[1, 2, 3, 4]);
    let append = Message::Append {
        base_index: 2,
        base_term: 1,
        entries: vec![change(3, 1, done.clone())],
    };
    let (node, _) = told(node, envelope(2, 1, 1, append));
    let beat = Message::Heartbeat { last_index: 3, commit_index: 2, read_seq: 0 };
    let (node, _) = told(node, envelope(2, 1, 1, beat));
    assert_eq!(membership_of(&node), (done.clone(), true));
    let beat = Message::Heartbeat { last_index: 3, commit_index: 3, read_seq: 0 };
    let (node, _) = told(node, envelope(2, 1, 1, beat));
    assert_eq!(membership_of(&node), (done, false));
}
