//! Clusters whose nodes, transport and clients take turns in one thread.

use std::collections::{BTreeMap, HashSet, VecDeque};
use std::ops::Range;

use raft_rust::cluster::{
    change_answer, closed_error, get_answer, get_request, peers_of, put_answer, put_request,
    scan_answer, scan_request, status_answer, test_options, Client, Cluster,
};
use raft_rust::error::{Error, Result};
use raft_rust::kv::{self, Kv};
use raft_rust::raft::runtime::{handle, launch, Event, Handled, Launched, Routed};
use raft_rust::raft::table::Table;
use raft_rust::retry::{Heard, Retry, Step, Verdict};
use raft_rust::shown::show;
use raft_rust::{
    BitCask, Envelope, Index, Log, Node, NodeID, Options, Request, Response, Status,
};

/// How many ticks a client waits for an answer.
const PATIENCE: u32 = 2;

struct Sim {
    cluster: Cluster,
    nodes: BTreeMap<NodeID, Node<BitCask, Kv>>,
    mail: VecDeque<Envelope>,
    replies: BTreeMap<u128, Result<Response>>,
    next_id: u128,
    /// One message in this many is lost; none if it is zero.
    lossy: u64,
    seed: u64,
    /// Whether every message between the nodes is fit to be taken.
    strict: bool,
}

impl Sim {
    fn spawn(ids: &[NodeID]) -> Sim {
        Sim::with_options(ids, test_options())
    }

    fn with_options(ids: &[NodeID], opts: Options) -> Sim {
        let cluster = Cluster::spawn_with_options(ids, opts);
        let mut sim = Sim {
            cluster,
            nodes: BTreeMap::new(),
            mail: VecDeque::new(),
            replies: BTreeMap::new(),
            next_id: 1,
            lossy: 0,
            seed: 1,
            strict: true,
        };
        for &id in ids {
            let peers = peers_of(&sim.cluster.members, id);
            sim.boot(id, peers);
        }
        sim
    }

    fn boot(&mut self, id: NodeID, peers: HashSet<NodeID>) {
        let log = Log::new(BitCask::new(Vec::new())).unwrap();
        let opts = self.cluster.options().clone();
        match launch(id, peers, log, Kv::new(), opts) {
            Launched::Started(node) => self.nodes.insert(id, node),
            _ => panic!("node {id} does not start"),
        };
    }

    fn start(&mut self, id: NodeID) {
        if let Some(peers) = self.cluster.start(id) {
            self.boot(id, peers);
        }
    }

    fn stop(&mut self, id: NodeID) {
        if self.cluster.stop(id) {
            self.nodes.remove(&id);
        }
    }

    fn is_lost(&mut self) -> bool {
        self.seed = self.seed.wrapping_mul(6364136223846793005).wrapping_add(1442695040888963407);
        self.lossy > 0 && (self.seed >> 33) % self.lossy == 0
    }

    fn event(&mut self, id: NodeID, event: Event) {
        let Some(node) = self.nodes.remove(&id) else { return };
        match handle(node, event) {
            Handled::Done(node, routed) => {
                self.nodes.insert(id, node);
                for one in routed {
                    match one {
                        Routed::Reply(request, response) => {
                            self.replies.insert(request, response);
                        }
                        Routed::Peer(msg) => {
                            let lost = self.is_lost();
                            self.mail.extend(self.cluster.transport.deliver(msg, lost));
                        }
                        Routed::Nowhere => {}
                    }
                }
            }
            Handled::Refused(node) => {
                assert!(!self.strict, "node {id} refuses an event");
                self.nodes.insert(id, node);
            }
            Handled::Failed(e) => panic!("node {id} failed: {e:?}"),
        }
    }

    fn settle(&mut self) {
        while let Some(msg) = self.mail.pop_front() {
            self.event(msg.to, Event::Message(msg));
        }
    }

    fn tick(&mut self) {
        for id in self.nodes.keys().copied().collect::<Vec<_>>() {
            self.event(id, Event::Tick);
        }
        self.settle();
    }

    fn ticks(&mut self, n: u32) {
        for _ in 0..n {
            self.tick();
        }
    }

    fn submit(&mut self, id: NodeID, request: Request) -> u128 {
        let request_id = self.next_id;
        self.next_id += 1;
        self.event(id, Event::Request(request_id, request));
        request_id
    }

    fn try_on(&mut self, id: NodeID, request: Request) -> Heard {
        if !self.cluster.is_running(id) {
            return Heard::Unreachable;
        }
        let request_id = self.submit(id, request);
        self.settle();
        for _ in 0..PATIENCE {
            if let Some(answer) = self.replies.remove(&request_id) {
                return Heard::Answer(answer);
            }
            self.tick();
        }
        match self.replies.remove(&request_id) {
            Some(answer) => Heard::Answer(answer),
            None => Heard::TimedOut,
        }
    }

    fn ask(&mut self, client: &mut Client, order: Vec<NodeID>, request: Request) -> Result<Response> {
        let mut retry = Retry::new(order.len(), Client::ATTEMPTS, false);
        loop {
            match retry.next() {
                Step::Try(at) => {
                    let heard = self.try_on(order[at], request.clone());
                    if let Verdict::Settled(answer) = retry.hear(heard) {
                        if answer.is_ok() {
                            client.preferred_hint(order[at]);
                        }
                        return answer;
                    }
                }
                Step::Pause => {
                    self.tick();
                    retry.pause();
                }
                Step::Stop(e) => return Err(e),
            }
        }
    }

    fn request(&mut self, client: &mut Client, request: Request) -> Result<Response> {
        let order = client.request_order(&self.cluster.registry);
        self.ask(client, order, request)
    }

    fn request_on(&mut self, client: &mut Client, id: NodeID, request: Request) -> Result<Response> {
        client.check_registered(&self.cluster.registry, id)?;
        self.ask(client, vec![id], request)
    }

    fn put(&mut self, client: &mut Client, key: &str, value: &str) -> Result<Index> {
        put_answer(self.request(client, put_request(key.into(), value.into()))?)
    }

    fn put_on(&mut self, client: &mut Client, id: NodeID, key: &str, value: &str) -> Result<Index> {
        put_answer(self.request_on(client, id, put_request(key.into(), value.into()))?)
    }

    fn get(&mut self, client: &mut Client, key: &str) -> Result<Option<String>> {
        get_answer(self.request(client, get_request(key.into()))?)
    }

    fn scan(&mut self, client: &mut Client) -> Result<Table> {
        scan_answer(self.request(client, scan_request())?)
    }

    fn status(&mut self, client: &mut Client) -> Result<Status> {
        status_answer(self.request(client, Request::Status)?)
    }

    fn status_on(&mut self, client: &mut Client, id: NodeID) -> Result<Status> {
        status_answer(self.request_on(client, id, Request::Status)?)
    }

    fn change_membership(&mut self, client: &mut Client, voters: HashSet<NodeID>) -> Result<Index> {
        change_answer(self.request(client, Request::ChangeMembership { voters })?)
    }

    fn wait_for_leader(&mut self, client: &mut Client) -> Result<Status> {
        let mut last = Error::Abort;
        for _ in 0..100 {
            match self.status(client) {
                Ok(s) => return Ok(s),
                Err(Error::Abort) => {
                    last = Error::Abort;
                    self.tick();
                }
                Err(e) => return Err(e),
            }
        }
        Err(last)
    }

    fn heal_all(&mut self) {
        let held = self.cluster.heal_all();
        self.mail.extend(held);
    }

    fn set_reorder(&mut self, on: bool) {
        let held = self.cluster.set_reorder(on);
        self.mail.extend(held);
    }
}

#[test]
fn elects_leader() -> Result<()> {
    let mut sim = Sim::spawn(&[1, 2, 3]);
    let mut client = sim.cluster.client();
    let status = sim.wait_for_leader(&mut client)?;
    assert!((1..=3).contains(&status.leader));
    assert!(status.term >= 1);
    assert!(status.commit_index >= 1);
    assert!(status.applied_index >= 1);
    assert_eq!(status.match_index.len(), 3);
    assert_eq!(status.voters.len(), 3);
    Ok(())
}

#[test]
fn put_get_scan() -> Result<()> {
    let mut sim = Sim::spawn(&[1, 2, 3]);
    let mut client = sim.cluster.client();
    sim.wait_for_leader(&mut client)?;
    let idx = sim.put(&mut client, "hello", "world")?;
    assert!(idx >= 1);
    assert_eq!(sim.get(&mut client, "hello")?, Some("world".into()));
    assert_eq!(sim.get(&mut client, "missing")?, None);
    sim.put(&mut client, "a", "1")?;
    sim.put(&mut client, "b", "2")?;
    let all = sim.scan(&mut client)?;
    assert_eq!(all.get("hello".as_bytes()), Some(&"world".into()));
    assert_eq!(all.get("a".as_bytes()), Some(&"1".into()));
    assert_eq!(all.get("b".as_bytes()), Some(&"2".into()));
    assert_eq!(all.len(), 3);
    Ok(())
}

#[test]
fn overwrite_value() -> Result<()> {
    let mut sim = Sim::spawn(&[1, 2, 3]);
    let mut client = sim.cluster.client();
    sim.wait_for_leader(&mut client)?;
    sim.put(&mut client, "k", "v1")?;
    assert_eq!(sim.get(&mut client, "k")?, Some("v1".into()));
    sim.put(&mut client, "k", "v2")?;
    assert_eq!(sim.get(&mut client, "k")?, Some("v2".into()));
    Ok(())
}

#[test]
fn follower_forwards_write() -> Result<()> {
    let mut sim = Sim::spawn(&[1, 2, 3]);
    let mut client = sim.cluster.client();
    let status = sim.wait_for_leader(&mut client)?;
    let leader = status.leader;
    let follower = (1..=3).find(|&id| id != leader).expect("follower");
    let index = sim.put_on(&mut client, follower, "via-follower", "ok")?;
    assert!(index >= 1);
    assert_eq!(sim.get(&mut client, "via-follower")?, Some("ok".into()));
    Ok(())
}

#[test]
fn sequential_writes_commit_in_order() -> Result<()> {
    let mut sim = Sim::spawn(&[1, 2, 3]);
    let mut client = sim.cluster.client();
    sim.wait_for_leader(&mut client)?;
    let mut last = 0;
    for i in 0..10 {
        let index = sim.put(&mut client, &format!("k{i}"), &format!("v{i}"))?;
        assert!(index > last);
        last = index;
    }
    for i in 0..10 {
        assert_eq!(sim.get(&mut client, &format!("k{i}"))?, Some(format!("v{i}")));
    }
    let status = sim.status(&mut client)?;
    assert!(status.commit_index >= last);
    Ok(())
}

#[test]
fn five_node_cluster() -> Result<()> {
    let mut sim = Sim::spawn(&[1, 2, 3, 4, 5]);
    let mut client = sim.cluster.client();
    let status = sim.wait_for_leader(&mut client)?;
    assert!((1..=5).contains(&status.leader));
    assert_eq!(status.match_index.len(), 5);
    sim.put(&mut client, "x", "y")?;
    assert_eq!(sim.get(&mut client, "x")?, Some("y".into()));
    Ok(())
}

#[test]
fn change_membership_uses_hashset() -> Result<()> {
    let _ = HashSet::<u8>::from([1, 2, 3, 4]);
    Ok(())
}

#[test]
fn add_voter_joint() -> Result<()> {
    let mut sim = Sim::spawn(&[1, 2, 3]);
    let mut client = sim.cluster.client();
    sim.wait_for_leader(&mut client)?;
    sim.put(&mut client, "before", "1")?;
    sim.start(4);
    let voters: HashSet<u8> = [1, 2, 3, 4].into_iter().collect();
    let idx = sim.change_membership(&mut client, voters.clone())?;
    assert!(idx >= 1);
    for _ in 0..40 {
        if let Ok(st) = sim.status(&mut client) {
            if st.voters.len() == 4 {
                break;
            }
        }
        sim.tick();
    }
    let st = sim.status(&mut client)?;
    assert_eq!(st.voters.len(), 4, "voters={:?}", st.voters);
    sim.put(&mut client, "after", "2")?;
    assert_eq!(sim.get(&mut client, "before")?, Some("1".into()));
    assert_eq!(sim.get(&mut client, "after")?, Some("2".into()));
    Ok(())
}

#[test]
fn remove_voter_joint() -> Result<()> {
    let mut sim = Sim::spawn(&[1, 2, 3, 4]);
    let mut client = sim.cluster.client();
    sim.wait_for_leader(&mut client)?;
    sim.put(&mut client, "k", "v")?;
    let st = sim.status(&mut client)?;
    let remove = if st.leader == 4 { 3 } else { 4 };
    let mut voters: HashSet<u8> = [1, 2, 3, 4].into_iter().collect();
    voters.remove(&remove);
    let idx = sim.change_membership(&mut client, voters.clone())?;
    assert!(idx >= 1);
    for _ in 0..40 {
        if let Ok(st) = sim.status(&mut client) {
            if st.voters.len() == 3 && !st.voters.contains(&remove) {
                break;
            }
        }
        sim.tick();
    }
    let st = sim.status(&mut client)?;
    assert_eq!(st.voters.len(), 3);
    assert!(!st.voters.contains(&remove));
    assert_eq!(sim.get(&mut client, "k")?, Some("v".into()));
    sim.put(&mut client, "k2", "v2")?;
    assert_eq!(sim.get(&mut client, "k2")?, Some("v2".into()));
    Ok(())
}

#[test]
fn remove_leader_steps_down() -> Result<()> {
    let mut sim = Sim::spawn(&[1, 2, 3]);
    let mut client = sim.cluster.client();
    let st = sim.wait_for_leader(&mut client)?;
    let old_leader = st.leader;
    sim.put(&mut client, "before", "1")?;
    let voters: HashSet<u8> = (1..=3u8).filter(|&id| id != old_leader).collect();
    sim.change_membership(&mut client, voters.clone())?;
    let mut new_leader = None;
    for _ in 0..80 {
        match sim.status(&mut client) {
            Ok(s) if s.leader != old_leader && s.voters.len() == 2 => {
                new_leader = Some(s.leader);
                break;
            }
            _ => sim.tick(),
        }
    }
    let new_leader = new_leader.expect("new leader after removing old");
    assert_ne!(new_leader, old_leader);
    assert_eq!(sim.get(&mut client, "before")?, Some("1".into()));
    sim.put(&mut client, "after", "2")?;
    assert_eq!(sim.get(&mut client, "after")?, Some("2".into()));
    Ok(())
}

#[test]
fn membership_change_preserves_data() -> Result<()> {
    let mut sim = Sim::spawn(&[1, 2, 3]);
    let mut client = sim.cluster.client();
    sim.wait_for_leader(&mut client)?;
    for i in 0..5 {
        sim.put(&mut client, &format!("k{i}"), &format!("v{i}"))?;
    }
    sim.start(4);
    sim.change_membership(&mut client, [1, 2, 3, 4].into_iter().collect())?;
    sim.ticks(2);
    for i in 0..5 {
        assert_eq!(sim.get(&mut client, &format!("k{i}"))?, Some(format!("v{i}")));
    }
    Ok(())
}

#[test]
fn overlapping_change_rejected() -> Result<()> {
    let mut sim = Sim::spawn(&[1, 2, 3]);
    let mut client = sim.cluster.client();
    sim.wait_for_leader(&mut client)?;
    sim.start(4);
    sim.start(5);
    let r1 = sim.change_membership(&mut client, [1, 2, 3, 4].into_iter().collect());
    assert!(r1.is_ok(), "first change should succeed: {r1:?}");
    let r2 = sim.change_membership(&mut client, [1, 2, 3, 4, 5].into_iter().collect());
    match r2 {
        Ok(_) => {}
        Err(Error::InvalidInput(_)) | Err(Error::Abort) => {}
        Err(e) => return Err(e),
    }
    Ok(())
}

#[test]
fn leader_crash_reelects_and_keeps_data() -> Result<()> {
    let mut sim = Sim::spawn(&[1, 2, 3]);
    let mut client = sim.cluster.client();
    let st = sim.wait_for_leader(&mut client)?;
    sim.put(&mut client, "k", "v1")?;
    assert_eq!(sim.get(&mut client, "k")?, Some("v1".into()));
    let old_leader = st.leader;
    sim.stop(old_leader);
    let mut new_status = None;
    for _ in 0..80 {
        match sim.status(&mut client) {
            Ok(s) if s.leader != old_leader => {
                new_status = Some(s);
                break;
            }
            _ => sim.tick(),
        }
    }
    let st2 = new_status.expect("new leader should be elected");
    assert_ne!(st2.leader, old_leader);
    assert_eq!(sim.get(&mut client, "k")?, Some("v1".into()));
    sim.put(&mut client, "k", "v2")?;
    assert_eq!(sim.get(&mut client, "k")?, Some("v2".into()));
    Ok(())
}

#[test]
fn minority_partition_cannot_commit() -> Result<()> {
    let mut sim = Sim::spawn(&[1, 2, 3]);
    let mut client = sim.cluster.client();
    let st = sim.wait_for_leader(&mut client)?;
    sim.put(&mut client, "before", "ok")?;
    sim.cluster.partition_groups(&[1], &[2, 3]);
    let mut majority_client = client.clone();
    majority_client.preferred_hint(2);
    let mut wrote = false;
    for _ in 0..60 {
        match sim.put(&mut majority_client, "maj", "1") {
            Ok(_) => {
                wrote = true;
                break;
            }
            Err(Error::Abort) | Err(Error::IO(_)) => sim.tick(),
            Err(e) => return Err(e),
        }
    }
    assert!(wrote, "majority should commit");
    let mut minority = client.clone();
    minority.preferred_hint(1);
    let r = sim.put_on(&mut minority, 1, "min", "x");
    assert!(r.is_err(), "minority write should fail, got {r:?}");
    sim.heal_all();
    sim.ticks(3);
    let mut c = sim.cluster.client();
    sim.wait_for_leader(&mut c)?;
    assert_eq!(sim.get(&mut c, "before")?, Some("ok".into()));
    assert_eq!(sim.get(&mut c, "maj")?, Some("1".into()));
    assert_eq!(sim.get(&mut c, "min")?, None);
    let _ = st;
    Ok(())
}

#[test]
fn write_then_read_sees_value() -> Result<()> {
    let mut sim = Sim::spawn(&[1, 2, 3]);
    let mut client = sim.cluster.client();
    sim.wait_for_leader(&mut client)?;
    for i in 0..20 {
        let k = format!("k{i}");
        let v = format!("v{i}");
        sim.put(&mut client, &k, &v)?;
        assert_eq!(sim.get(&mut client, &k)?, Some(v));
    }
    Ok(())
}

#[test]
fn read_after_leader_change() -> Result<()> {
    let mut sim = Sim::spawn(&[1, 2, 3]);
    let mut client = sim.cluster.client();
    let st = sim.wait_for_leader(&mut client)?;
    sim.put(&mut client, "stable", "1")?;
    sim.stop(st.leader);
    let mut seen = None;
    for _ in 0..80 {
        match sim.get(&mut client, "stable") {
            Ok(v) => {
                seen = Some(v);
                break;
            }
            Err(_) => sim.tick(),
        }
    }
    assert_eq!(seen, Some(Some("1".into())));
    Ok(())
}

#[test]
fn election_works_with_prevote_and_check_quorum() -> Result<()> {
    let mut sim = Sim::spawn(&[1, 2, 3]);
    let mut client = sim.cluster.client();
    let st = sim.wait_for_leader(&mut client)?;
    sim.put(&mut client, "a", "1")?;
    assert_eq!(sim.get(&mut client, "a")?, Some("1".into()));
    assert!(st.term >= 1);
    Ok(())
}

#[test]
fn partitioned_node_does_not_steal_leadership() -> Result<()> {
    let mut opts = test_options();
    opts.pre_vote = true;
    opts.check_quorum = true;
    let mut sim = Sim::with_options(&[1, 2, 3], opts);
    let mut client = sim.cluster.client();
    let st = sim.wait_for_leader(&mut client)?;
    let leader = st.leader;
    let term_before = st.term;
    sim.put(&mut client, "stable", "yes")?;
    let follower = (1..=3).find(|&id| id != leader).unwrap();
    let other = (1..=3).find(|&id| id != leader && id != follower).unwrap();
    sim.cluster.partition_groups(&[follower], &[leader, other]);
    sim.ticks(8);
    let mut majority = client.clone();
    majority.preferred_hint(leader);
    let mut ok = false;
    for _ in 0..40 {
        match sim.get(&mut majority, "stable") {
            Ok(Some(v)) if v == "yes" => {
                ok = true;
                break;
            }
            Ok(_) | Err(Error::Abort) | Err(Error::IO(_)) => sim.tick(),
            Err(e) => return Err(e),
        }
    }
    assert!(ok, "majority should still serve reads");
    if let Ok(st2) = sim.status_on(&mut majority, leader) {
        assert!(
            st2.term <= term_before + 2,
            "term inflated too much: before={term_before} after={}",
            st2.term
        );
    }
    sim.heal_all();
    Ok(())
}

#[test]
fn check_quorum_isolated_leader_steps_down() -> Result<()> {
    let mut opts = test_options();
    opts.pre_vote = true;
    opts.check_quorum = true;
    opts.election_timeout_range = Range { start: 5, end: 8 };
    opts.heartbeat_interval = 2;
    let mut sim = Sim::with_options(&[1, 2, 3], opts);
    let mut client = sim.cluster.client();
    let st = sim.wait_for_leader(&mut client)?;
    let leader = st.leader;
    sim.put(&mut client, "x", "1")?;
    let others: Vec<_> = (1..=3u8).filter(|&id| id != leader).collect();
    sim.cluster.partition_groups(&[leader], &others);
    let mut majority = client.clone();
    majority.preferred_hint(others[0]);
    let mut new_leader = None;
    for _ in 0..80 {
        match sim.status(&mut majority) {
            Ok(s) if s.leader != leader => {
                new_leader = Some(s.leader);
                break;
            }
            _ => sim.tick(),
        }
    }
    assert!(new_leader.is_some(), "majority should elect new leader");
    assert_eq!(sim.get(&mut majority, "x")?, Some("1".into()));
    sim.put(&mut majority, "y", "2")?;
    assert_eq!(sim.get(&mut majority, "y")?, Some("2".into()));
    sim.heal_all();
    sim.ticks(3);
    let mut c = sim.cluster.client();
    sim.wait_for_leader(&mut c)?;
    assert_eq!(sim.get(&mut c, "y")?, Some("2".into()));
    Ok(())
}

#[test]
fn works_with_prevote_disabled() -> Result<()> {
    let opts = Options {
        heartbeat_interval: 2,
        election_timeout_range: Range { start: 5, end: 10 },
        max_append_entries: 100,
        pre_vote: false,
        check_quorum: false,
        snapshot_threshold: 0,
    };
    let mut sim = Sim::with_options(&[1, 2, 3], opts);
    let mut client = sim.cluster.client();
    sim.wait_for_leader(&mut client)?;
    sim.put(&mut client, "p", "1")?;
    assert_eq!(sim.get(&mut client, "p")?, Some("1".into()));
    Ok(())
}

#[test]
fn elects_and_writes_under_drop() -> Result<()> {
    let mut sim = Sim::spawn(&[1, 2, 3]);
    sim.lossy = 5;
    let mut client = sim.cluster.client();
    let mut ok = false;
    for _ in 0..100 {
        match sim.status(&mut client) {
            Ok(_) => {
                ok = true;
                break;
            }
            Err(Error::Abort) | Err(Error::IO(_)) => sim.tick(),
            Err(e) => return Err(e),
        }
    }
    assert!(ok, "should eventually elect under drop");
    sim.lossy = 20;
    for _ in 0..30 {
        if sim.put(&mut client, "d", "1").is_ok() {
            break;
        }
        sim.tick();
    }
    assert_eq!(sim.get(&mut client, "d")?, Some("1".into()));
    Ok(())
}

#[test]
fn elects_under_reorder() -> Result<()> {
    let mut sim = Sim::spawn(&[1, 2, 3]);
    sim.set_reorder(true);
    let mut client = sim.cluster.client();
    sim.wait_for_leader(&mut client)?;
    sim.put(&mut client, "r", "1")?;
    assert_eq!(sim.get(&mut client, "r")?, Some("1".into()));
    sim.set_reorder(false);
    Ok(())
}

#[test]
fn concurrent_puts() -> Result<()> {
    let mut sim = Sim::spawn(&[1, 2, 3]);
    let mut client = sim.cluster.client();
    sim.wait_for_leader(&mut client)?;
    for i in 0..10 {
        // Four clients hand in their requests before any of them is answered.
        let mut open: Vec<(u64, NodeID)> = Vec::new();
        for t in 0..4 {
            open.push((t, (t % 3) as NodeID + 1));
        }
        for _ in 0..30 {
            let mut waiting = Vec::new();
            for &(t, node) in &open {
                let key = format!("t{t}-k{i}");
                let val = format!("v{i}");
                waiting.push((t, node, sim.submit(node, put_request(key, val))));
            }
            sim.settle();
            sim.ticks(PATIENCE);
            open.clear();
            for (t, node, id) in waiting {
                match sim.replies.remove(&id) {
                    Some(Ok(_)) => {}
                    _ => open.push((t, node)),
                }
            }
            if open.is_empty() {
                break;
            }
        }
        assert!(open.is_empty());
    }
    let mut c = sim.cluster.client();
    for t in 0..4 {
        for i in 0..10 {
            let key = format!("t{t}-k{i}");
            assert_eq!(sim.get(&mut c, &key)?, Some(format!("v{i}")), "missing {key}");
        }
    }
    Ok(())
}

#[test]
fn a_lagging_node_catches_up_from_a_snapshot() -> Result<()> {
    let mut opts = test_options();
    opts.snapshot_threshold = 4;
    opts.max_append_entries = 2;
    let mut sim = Sim::with_options(&[1, 2, 3], opts);
    let mut client = sim.cluster.client();
    let leader = sim.wait_for_leader(&mut client)?.leader;
    let behind = (1..=3u8).find(|&id| id != leader).unwrap();
    let others: Vec<_> = (1..=3u8).filter(|&id| id != behind).collect();
    sim.cluster.partition_groups(&[behind], &others);
    for i in 0..12 {
        sim.put(&mut client, &format!("k{i}"), &format!("v{i}"))?;
    }
    sim.heal_all();
    sim.ticks(20);
    match &sim.nodes[&behind] {
        Node::Follower(raw) => {
            assert!(raw.log.get_snapshot_meta().0 > 0);
            assert!(raw.state.data().len() == 12);
        }
        _ => panic!("the node that lagged behind follows"),
    }
    Ok(())
}

#[test]
fn a_client_asks_its_preferred_node_first() {
    let mut cluster = Cluster::spawn(&[3, 1, 2]);
    let mut client = cluster.client();
    assert_eq!(client.request_order(&cluster.registry), vec![3, 1, 2]);
    client.preferred_hint(2);
    assert_eq!(client.request_order(&cluster.registry), vec![2, 1, 3]);
    client.unregister_node(&mut cluster.registry, 2);
    assert_eq!(client.request_order(&cluster.registry), vec![1, 3]);
    assert!(client.check_registered(&cluster.registry, 1).is_ok());
    assert_eq!(
        client.check_registered(&cluster.registry, 2),
        Err(Error::IO("node 2 not registered".into()))
    );
    assert_eq!(closed_error(2), Error::IO("node 2 request channel closed".into()));
}

#[test]
fn clients_share_what_they_know() {
    let mut cluster = Cluster::spawn(&[1, 2, 3]);
    let early = cluster.client();
    let mut other = early.clone();
    other.preferred_hint(2);
    cluster.stop(2);
    assert_eq!(early.request_order(&cluster.registry), vec![1, 3]);
    assert_eq!(other.request_order(&cluster.registry), vec![1, 3]);
    assert!(other.check_registered(&cluster.registry, 2).is_err());
    cluster.start(4);
    cluster.start(2);
    assert_eq!(early.request_order(&cluster.registry), vec![1, 2, 3, 4]);
    assert_eq!(other.request_order(&cluster.registry), vec![2, 1, 3, 4]);
    early.register_node(&mut cluster.registry, 5);
    assert!(other.check_registered(&cluster.registry, 5).is_ok());
    // The transport is shared too.
    let msg = raft_rust::raft::runtime::client_message(1, 1, 1, Request::Status);
    let to_two = Envelope { to: 2, ..msg };
    cluster.transport().partition_one_way(1, 2);
    assert!(cluster.transport.deliver(to_two.clone(), false).is_empty());
    cluster.heal_all();
    assert_eq!(cluster.transport().deliver(to_two, false).len(), 1);
}

#[test]
fn a_stopped_node_is_out_of_reach() {
    let mut cluster = Cluster::spawn(&[1, 2, 3]);
    assert!(cluster.stop(2));
    assert!(!cluster.stop(2));
    assert!(!cluster.is_running(2));
    assert!(cluster.members().contains(&2));
    assert_eq!(cluster.client().request_order(&cluster.registry), vec![1, 3]);
    let msg = raft_rust::raft::runtime::client_message(1, 1, 1, Request::Status);
    let mut to_two = msg.clone();
    to_two.to = 2;
    assert!(cluster.transport.deliver(to_two.clone(), false).is_empty());
    let peers = cluster.start(2).unwrap();
    assert_eq!(peers, HashSet::from([1, 3]));
    assert!(cluster.start(2).is_none());
    assert_eq!(cluster.transport.deliver(to_two, false).len(), 1);
    cluster.set_members(HashSet::from([1]));
    assert_eq!(cluster.members(), HashSet::from([1]));
    assert_eq!(Cluster::spawn(&[]).client().preferred, 1);
}

#[test]
fn faults_of_the_transport() {
    let mut cluster = Cluster::spawn(&[1, 2, 3]);
    let envelope = |from: NodeID, to: NodeID, id: u128| {
        let mut msg = raft_rust::raft::runtime::client_message(from, 1, id, Request::Status);
        msg.to = to;
        msg
    };
    // A cut link carries nothing, in either direction.
    cluster.partition(1, 2);
    assert!(cluster.transport.deliver(envelope(1, 2, 1), false).is_empty());
    assert!(cluster.transport.deliver(envelope(2, 1, 1), false).is_empty());
    assert_eq!(cluster.transport.deliver(envelope(1, 3, 1), false).len(), 1);
    cluster.transport.heal_pair(1, 2);
    assert_eq!(cluster.transport.deliver(envelope(1, 2, 1), false).len(), 1);
    cluster.transport.partition_one_way(1, 2);
    assert!(cluster.transport.deliver(envelope(1, 2, 1), false).is_empty());
    assert_eq!(cluster.transport.deliver(envelope(2, 1, 1), false).len(), 1);
    assert!(cluster.heal_all().is_empty());
    // A lost message is gone.
    assert!(cluster.transport.deliver(envelope(1, 2, 1), true).is_empty());
    // Out of order, the second message overtakes the first.
    assert!(cluster.set_reorder(true).is_empty());
    assert!(cluster.transport.deliver(envelope(1, 2, 1), false).is_empty());
    let both = cluster.transport.deliver(envelope(1, 2, 2), false);
    assert_eq!(both, vec![envelope(1, 2, 2), envelope(1, 2, 1)]);
    // What is held back comes out once order is restored.
    assert!(cluster.transport.deliver(envelope(1, 2, 3), false).is_empty());
    assert!(cluster.transport.deliver(envelope(2, 1, 4), false).is_empty());
    let held = cluster.set_reorder(false);
    assert_eq!(held, vec![envelope(2, 1, 4), envelope(1, 2, 3)]);
}

#[test]
fn answers_of_the_wrong_kind_are_refused() {
    let wrong = || Response::ChangeMembership { index: 1 };
    let text = |kind: &str| {
        Error::InvalidData(format!("expected {kind}, got ChangeMembership {{ index: 1 }}"))
    };
    assert_eq!(put_answer(wrong()), Err(text("Write")));
    assert_eq!(get_answer(wrong()), Err(text("Read")));
    assert!(matches!(scan_answer(wrong()), Err(e) if e == text("Read")));
    assert_eq!(status_answer(wrong()), Err(text("Status")));
    assert_eq!(
        change_answer(Response::Read(vec![7, 10])),
        Err(Error::InvalidData("expected ChangeMembership, got Read([7, 10])".into()))
    );
    assert_eq!(change_answer(wrong()), Ok(1));
    // A read's answer where a write's was due, and the other way round.
    let stored = kv::encode(&kv::Response::Get(Some("a\"b".into())));
    assert_eq!(
        put_answer(Response::Write(stored)),
        Err(Error::InvalidData("unexpected write response: Get(Some(\"a\\\"b\"))".into()))
    );
    let stored = kv::encode(&kv::Response::Put(3));
    assert_eq!(
        get_answer(Response::Read(stored.clone())),
        Err(Error::InvalidData("unexpected read response: Put(3)".into()))
    );
    let text = "unexpected scan response: Put(3)";
    assert!(matches!(scan_answer(Response::Read(stored)), Err(Error::InvalidData(t)) if t == text));
    assert!(matches!(put_answer(Response::Write(vec![9])), Err(Error::InvalidData(_))));
}

#[test]
fn answers_are_printed_with_their_parts() {
    let status = Status {
        leader: 1,
        term: 2,
        match_index: BTreeMap::from([(1, 4), (3, 0)]),
        commit_index: 3,
        applied_index: 3,
        storage: raft_rust::storage::Status {
            name: "bitcask".into(),
            keys: 5,
            size: 60,
            disk_size: 100,
            live_disk_size: 90,
        },
        voters: [1, 3].into_iter().collect(),
    };
    let response = Response::Status(status);
    assert_eq!(show(&response), format!("{response:?}"));
    for response in [Response::Write(vec![]), Response::Read(vec![0, 255])] {
        assert_eq!(show(&response), format!("{response:?}"));
    }
    let mut kv = Kv::new();
    for (index, key) in [(1, "b"), (2, "a")] {
        let command = kv::encode(&kv::Command::Put { key: key.into(), value: "1".into() });
        let entry =
            raft_rust::Entry { index, term: 1, command: Some(command), membership: None };
        raft_rust::State::apply(&mut kv, entry).unwrap();
    }
    let all = raft_rust::State::read(&kv, kv::encode(&kv::Command::Scan)).unwrap();
    assert_eq!(
        put_answer(Response::Write(all)),
        Err(Error::InvalidData(
            "unexpected write response: Scan({\"a\": \"1\", \"b\": \"1\"})".into()
        ))
    );
}

/// The log and the commit index of a node.
fn committed(node: &mut Node<BitCask, Kv>) -> Vec<raft_rust::Entry> {
    let log = match node {
        Node::Candidate(raw) => &mut raw.log,
        Node::Follower(raw) => &mut raw.log,
        Node::Leader(raw) => &mut raw.log,
    };
    let (commit, _) = log.get_commit_index();
    (1..=commit).map(|index| log.get(index).unwrap().unwrap()).collect()
}

#[test]
fn leaders_and_commits_agree_under_faults() -> Result<()> {
    let mut sim = Sim::spawn(&[1, 2, 3, 4, 5]);
    sim.lossy = 7;
    sim.set_reorder(true);
    sim.strict = false;
    let mut client = sim.cluster.client();
    let mut leaders: BTreeMap<u64, NodeID> = BTreeMap::new();
    let mut decided: Vec<raft_rust::Entry> = Vec::new();
    for round in 0..60u32 {
        let _ = sim.put(&mut client, "key", &format!("{round}"));
        sim.tick();
        for (id, node) in sim.nodes.iter_mut() {
            if matches!(node, Node::Leader(_)) {
                assert_eq!(leaders.entry(node.term()).or_insert(*id), id);
            }
            let entries = committed(node);
            let both = entries.len().min(decided.len());
            assert_eq!(entries[..both], decided[..both]);
            if entries.len() > decided.len() {
                decided = entries;
            }
        }
    }
    assert!(!leaders.is_empty());
    assert!(decided.len() > 1);
    Ok(())
}

#[test]
fn a_new_leader_has_what_was_committed() -> Result<()> {
    let mut sim = Sim::spawn(&[1, 2, 3]);
    let mut client = sim.cluster.client();
    sim.wait_for_leader(&mut client)?;
    for round in 0..5u32 {
        sim.put(&mut client, "key", &format!("{round}"))?;
    }
    let old = sim.status(&mut client)?;
    let before = committed(sim.nodes.get_mut(&old.leader).unwrap());
    sim.stop(old.leader);
    let mut found = false;
    for _ in 0..100 {
        sim.tick();
        for node in sim.nodes.values_mut() {
            if matches!(node, Node::Leader(_)) && node.term() > old.term {
                found = true;
                let log = match node {
                    Node::Leader(raw) => &mut raw.log,
                    _ => unreachable!(),
                };
                for entry in &before {
                    assert_eq!(log.get(entry.index)?.as_ref(), Some(entry));
                }
            }
        }
    }
    assert!(found, "should elect another leader");
    assert_eq!(sim.get(&mut client, "key")?, Some("4".into()));
    Ok(())
}

#[test]
fn safety_across_a_membership_change() -> Result<()> {
    let mut sim = Sim::spawn(&[1, 2, 3]);
    let mut client = sim.cluster.client();
    sim.wait_for_leader(&mut client)?;
    sim.put(&mut client, "a", "1")?;
    let leader = sim.status(&mut client)?.leader;
    let gone = if leader == 1 { 2 } else { 1 };
    let rest: HashSet<NodeID> = [1, 2, 3].into_iter().filter(|id| *id != gone).collect();
    sim.change_membership(&mut client, rest)?;
    sim.put(&mut client, "b", "2")?;
    sim.ticks(5);
    let logs: Vec<Vec<raft_rust::Entry>> = sim.nodes.values_mut().map(committed).collect();
    for left in &logs {
        for right in &logs {
            let both = left.len().min(right.len());
            assert_eq!(left[..both], right[..both]);
        }
    }
    assert_eq!(sim.get(&mut client, "b")?, Some("2".into()));
    Ok(())
}

#[test]
fn a_new_node_joins_from_a_snapshot() -> Result<()> {
    let mut opts = test_options();
    opts.snapshot_threshold = 4;
    opts.max_append_entries = 2;
    let mut sim = Sim::with_options(&[1, 2, 3], opts);
    let mut client = sim.cluster.client();
    sim.wait_for_leader(&mut client)?;
    for i in 0..12 {
        sim.put(&mut client, &format!("k{i}"), &format!("v{i}"))?;
    }
    sim.start(4);
    sim.change_membership(&mut client, HashSet::from([1, 2, 3, 4]))?;
    sim.ticks(20);
    match &sim.nodes[&4] {
        Node::Follower(raw) => {
            assert!(raw.log.get_snapshot_meta().0 > 0);
            assert!(raw.state.data().len() == 12);
            assert!(raw.membership.active.all_voters().contains(&4));
        }
        _ => panic!("the new node follows"),
    }
    assert_eq!(sim.get(&mut client, "k3")?, Some("v3".into()));
    Ok(())
}

#[test]
fn gets_give_the_last_value_across_snapshots_and_leaders() -> Result<()> {
    let mut opts = test_options();
    opts.snapshot_threshold = 3;
    let mut sim = Sim::with_options(&[1, 2, 3, 4, 5], opts);
    let mut client = sim.cluster.client();
    for round in 0..2 {
        let leader = sim.wait_for_leader(&mut client)?.leader;
        for i in 0..5 {
            sim.put(&mut client, "key", &format!("{round}-{i}"))?;
            assert_eq!(sim.get(&mut client, "key")?, Some(format!("{round}-{i}")));
        }
        sim.stop(leader);
        sim.ticks(20);
        let mut seen = None;
        for _ in 0..80 {
            match sim.get(&mut client, "key") {
                Ok(value) => {
                    seen = Some(value);
                    break;
                }
                Err(_) => sim.tick(),
            }
        }
        assert_eq!(seen, Some(Some(format!("{round}-4"))));
    }
    Ok(())
}
