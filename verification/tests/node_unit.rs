//! Nodes driven by hand: messages are passed between them one at a time.

use std::collections::{BTreeMap, HashSet, VecDeque};
use std::ops::Range;

use raft_rust::kv::Kv;
use raft_rust::{BitCask, Envelope, Log, Node, NodeID, Options};

struct Harness {
    nodes: BTreeMap<NodeID, Node<BitCask, Kv>>,
    mailboxes: BTreeMap<NodeID, VecDeque<Envelope>>,
}

impl Harness {
    fn new(ids: &[NodeID], opts: &dyn Fn() -> Options) -> Self {
        let mut nodes = BTreeMap::new();
        let mut mailboxes = BTreeMap::new();
        for &id in ids {
            let peers: HashSet<NodeID> = ids.iter().copied().filter(|&p| p != id).collect();
            let log = Log::new(BitCask::new(Vec::new())).unwrap();
            let node = Node::new(id, peers, log, Kv::new(), opts()).unwrap();
            nodes.insert(id, node);
            mailboxes.insert(id, VecDeque::new());
        }
        Self { nodes, mailboxes }
    }

    fn drain_outboxes(&mut self) {
        for (&id, node) in self.nodes.iter_mut() {
            for msg in node.take_messages() {
                if msg.to == id {
                    continue;
                }
                self.mailboxes.get_mut(&msg.to).unwrap().push_back(msg);
            }
        }
    }

    fn deliver_one(&mut self) -> bool {
        for id in self.mailboxes.keys().copied().collect::<Vec<_>>() {
            if let Some(msg) = self.mailboxes.get_mut(&id).unwrap().pop_front() {
                let mut node = self.nodes.remove(&id).unwrap();
                assert!(node.accepts(&msg).unwrap(), "node {id} refuses {msg:?}");
                let node = match node.step(msg) {
                    Ok(n) => n,
                    Err(e) => panic!("step error on {id}: {e:?}"),
                };
                self.nodes.insert(id, node);
                self.drain_outboxes();
                return true;
            }
        }
        false
    }

    fn deliver_all(&mut self) {
        while self.deliver_one() {}
    }

    fn tick(&mut self, id: NodeID) {
        let node = self.nodes.remove(&id).unwrap();
        assert!(node.accepts_tick());
        let node = node.tick().unwrap();
        self.nodes.insert(id, node);
        self.drain_outboxes();
        self.deliver_all();
    }

    fn tick_all(&mut self) {
        for id in self.nodes.keys().copied().collect::<Vec<_>>() {
            let node = self.nodes.remove(&id).unwrap();
            let node = node.tick().unwrap();
            self.nodes.insert(id, node);
        }
        self.drain_outboxes();
        self.deliver_all();
    }

    fn leaders(&self) -> Vec<NodeID> {
        self.nodes
            .iter()
            .filter_map(|(id, n)| match n {
                Node::Leader(_) => Some(*id),
                _ => None,
            })
            .collect()
    }

    fn role(&self, id: NodeID) -> &'static str {
        match &self.nodes[&id] {
            Node::Follower(_) => "follower",
            Node::Candidate(_) => "candidate",
            Node::Leader(_) => "leader",
        }
    }
}

fn opts(prevote: bool) -> Options {
    Options {
        heartbeat_interval: 2,
        election_timeout_range: Range { start: 5, end: 6 },
        max_append_entries: 100,
        pre_vote: prevote,
        check_quorum: false,
        snapshot_threshold: 0,
    }
}

#[test]
fn staggered_election_without_prevote() {
    let mut h = Harness::new(&[1, 2, 3], &|| opts(false));
    for _ in 0..5 {
        h.tick(1);
    }
    assert!(
        h.leaders().contains(&1),
        "node1 should be leader, roles: 1={} 2={} 3={} terms: {} {} {}",
        h.role(1),
        h.role(2),
        h.role(3),
        h.nodes[&1].term(),
        h.nodes[&2].term(),
        h.nodes[&3].term()
    );
}

#[test]
fn staggered_election_with_prevote() {
    let mut h = Harness::new(&[1, 2, 3], &|| opts(true));
    for _ in 0..5 {
        h.tick(1);
    }
    for _ in 0..5 {
        h.tick_all();
        if h.leaders().contains(&1) || !h.leaders().is_empty() {
            break;
        }
    }
    assert!(
        !h.leaders().is_empty(),
        "should elect a leader, roles: 1={} 2={} 3={} terms: {} {} {}",
        h.role(1),
        h.role(2),
        h.role(3),
        h.nodes[&1].term(),
        h.nodes[&2].term(),
        h.nodes[&3].term()
    );
}

#[test]
fn single_node_leader() {
    let single = || Options {
        pre_vote: true,
        check_quorum: true,
        snapshot_threshold: 0,
        ..Options::default()
    };
    let mut h = Harness::new(&[1], &single);
    assert_eq!(h.leaders(), vec![1]);
    h.tick(1);
    assert_eq!(h.leaders(), vec![1]);
}

#[test]
fn a_leader_in_term_one_commits_its_first_entry() {
    let mut h = Harness::new(&[1, 2, 3], &|| opts(false));
    for _ in 0..5 {
        h.tick(1);
    }
    assert_eq!(h.leaders(), vec![1]);
    for id in 1..=3 {
        assert_eq!(h.nodes[&id].term(), 1);
        assert_eq!(h.nodes[&id].voters().len(), 3);
    }
    match &h.nodes[&1] {
        Node::Leader(raw) => {
            assert_eq!(raw.log.get_last_index(), (1, 1));
            assert_eq!(raw.log.get_commit_index(), (1, 1));
        }
        _ => panic!("node 1 leads"),
    }
    // The followers learn of the commit with the next heartbeat.
    h.tick(1);
    h.tick(1);
    match &h.nodes[&2] {
        Node::Follower(raw) => assert_eq!(raw.log.get_commit_index(), (1, 1)),
        _ => panic!("node 2 follows"),
    }
}

#[test]
fn at_most_one_leader_in_a_term() {
    let mut h = Harness::new(&[1, 2, 3], &|| opts(false));
    let mut led: BTreeMap<u64, NodeID> = BTreeMap::new();
    for round in 0..60u8 {
        h.tick(round % 3 + 1);
        for id in h.leaders() {
            let term = h.nodes[&id].term();
            assert_eq!(*led.entry(term).or_insert(id), id, "two leaders in term {term}");
        }
    }
    assert!(!led.is_empty());
}
