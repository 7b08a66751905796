//! Leaders: they replicate their log, commit what a quorum has, and serve
//! clients.

use std::collections::{BTreeMap, BTreeSet, HashSet, VecDeque};

use vstd::prelude::*;

use super::candidate::Candidate;
use super::entry::{entry_views, Entry, EntryView, Index, Term};
use super::follower::Follower;
use super::ids::{
    ascending, ids_of, keys_of, lemma_ascending, lemma_take_to_set, ordered, same_ids, NodeID,
};
use super::log::{lemma_slice, reads_entries, LogView};
use super::membership::{Membership, MembershipEntry, MembershipView};
use super::message::{
    answer, Envelope, EnvelopeView, Message, MessageView, ReadSequence, Request, RequestID,
    RequestView, Response, Status,
};
use super::model::{
    answering, can_win, changes_of, concluding, error_of, got, is_binding, is_known, is_last_change,
    is_left_by, is_quiet, is_same_log, joint_count, leader_admits, leader_is_quiet, leader_receives,
    leader_step, leader_takes, leader_ticks, new_leader, new_progress, quorum_window, risks,
    stepping_down, storage_view, waiting_reads, winning, Core, LeaderView, Led, NodeView, Progress,
    ReadView, Ticks, Write,
};
use super::node::{lemma_slice_writable, Node, RawNode, Role};
use super::session::encode_session;
use super::order::{sorted_by_id, writes_of};
use super::state::State;
use crate::error::{Error, ErrorView, Result};
use crate::storage::engine::{is_report, Engine, StatusView as StorageStatusView};

verus! {

broadcast use vstd::std_specs::btree::group_btree_axioms;

/// A read that waits for a quorum to confirm the leadership.
pub struct Read {
    pub seq: ReadSequence,
    pub from: NodeID,
    pub id: RequestID,
    pub command: Vec<u8>,
}

impl View for Read {
    type V = ReadView;

    open spec fn view(&self) -> ReadView {
        ReadView { seq: self.seq, from: self.from, id: self.id, command: self.command@ }
    }
}

/// A leader of a term.
pub struct Leader {
    /// What is known of each peer's log.
    pub progress: BTreeMap<NodeID, Progress>,
    /// The writes to answer once the entry at their index is applied.
    pub writes: BTreeMap<Index, Write>,
    /// The membership changes to answer likewise.
    pub membership_writes: BTreeMap<Index, Write>,
    /// The reads to answer, in the order in which they came.
    pub reads: VecDeque<Read>,
    /// The number of the last read.
    pub read_seq: ReadSequence,
    pub since_heartbeat: Ticks,
    /// The ticks since each peer last answered.
    pub peer_seen: BTreeMap<NodeID, Ticks>,
}

impl Role for Leader {

}

/// The views of the reads that wait.
pub open spec fn read_views(reads: Seq<Read>) -> Seq<ReadView> {
    reads.map_values(|read: Read| read@)
}

impl View for Leader {
    type V = LeaderView;

    open spec fn view(&self) -> LeaderView {
        LeaderView {
            progress: self.progress@,
            writes: self.writes@,
            membership_writes: self.membership_writes@,
            reads: read_views(self.reads@),
            read_seq: self.read_seq,
            since_heartbeat: self.since_heartbeat,
            peer_seen: self.peer_seen@,
        }
    }
}

impl Progress {
    /// Notes that the follower matches up to `match_index`, and tells whether
    /// that is news.
    pub fn advance(&mut self, match_index: Index) -> (r: bool)
        requires
            match_index < u64::MAX,
        ensures
            *final(self) == old(self).advancing(match_index),
            r == (match_index > old(self).match_index),
    {
        if match_index <= self.match_index {
            return false;
        }
        self.match_index = match_index;
        if match_index + 1 > self.next_index {
            self.next_index = match_index + 1;
        }
        true
    }

    /// Notes that the follower confirmed a read, and tells whether that is news.
    pub fn advance_read(&mut self, read_seq: ReadSequence) -> (r: bool)
        ensures
            *final(self) == old(self).advancing_read(read_seq),
            r == (read_seq > old(self).read_seq),
    {
        if read_seq <= self.read_seq {
            return false;
        }
        self.read_seq = read_seq;
        true
    }

    /// Moves the next index back, but not to what matches, and tells whether it
    /// did.
    pub fn regress_next(&mut self, next_index: Index) -> (r: bool)
        requires
            old(self).match_index < u64::MAX,
        ensures
            *final(self) == old(self).regressing(next_index),
            r == old(self).regresses(next_index),
    {
        if next_index >= self.next_index || self.next_index <= self.match_index + 1 {
            return false;
        }
        self.next_index = if self.match_index + 1 > next_index {
            self.match_index + 1
        } else {
            next_index
        };
        true
    }
}

impl Leader {
    /// A new leader that knows nothing of its peers' logs yet.
    pub fn new(peers: &BTreeSet<NodeID>, last_index: Index) -> (r: Leader)
        requires
            last_index < u64::MAX,
        ensures
            r@ == new_leader(peers@, last_index as int),
    {
        let ids = ids_of(peers);
        let mut progress: BTreeMap<NodeID, Progress> = BTreeMap::new();
        let mut peer_seen: BTreeMap<NodeID, Ticks> = BTreeMap::new();
        let mut i: usize = 0;
        while i < ids.len()
            invariant
                i <= ids@.len(),
                last_index < u64::MAX,
                progress@.dom() == ids@.take(i as int).to_set(),
                peer_seen@.dom() == ids@.take(i as int).to_set(),
                forall|id: NodeID| #[trigger]
                    progress@.contains_key(id) ==> progress@[id] == new_progress(
                        last_index as int,
                    ),
                forall|id: NodeID| #[trigger] peer_seen@.contains_key(id) ==> peer_seen@[id] == 0,
            decreases ids@.len() - i,
        {
            proof {
                lemma_take_to_set(ids@, i as int);
            }
            progress.insert(
                ids[i],
                Progress { match_index: 0, next_index: last_index + 1, read_seq: 0 },
            );
            peer_seen.insert(ids[i], 0);
            assert(progress@.dom() =~= ids@.take(i + 1).to_set());
            assert(peer_seen@.dom() =~= ids@.take(i + 1).to_set());
            i = i + 1;
        }
        let leader = Leader {
            progress,
            writes: BTreeMap::new(),
            membership_writes: BTreeMap::new(),
            reads: VecDeque::new(),
            read_seq: 0,
            since_heartbeat: 0,
            peer_seen,
        };
        proof {
            lemma_ascending(peers@);
            assert(ids@.take(i as int) =~= ids@);
            let new = new_leader(peers@, last_index as int);
            assert(leader@.progress =~= new.progress);
            assert(leader@.peer_seen =~= new.peer_seen);
            assert(leader@.reads =~= new.reads);
        }
        leader
    }
}

impl<E: Engine, S: State> RawNode<Leader, E, S> {
    pub open spec fn led(&self, failed: Option<ErrorView>) -> Led<S> {
        Led { core: self.base(), role: self.role@, failed }
    }

    pub open spec fn view(&self) -> NodeView<S> {
        NodeView::Leader(self.base(), self.role@)
    }

    pub open spec fn wf(&self) -> bool {
        &&& self.sound()
        &&& self.led(None).is_settled()
    }

    /// Whether what changed of the log on the way to `next` is durable.
    pub open spec fn answers_durably(&self, next: &Node<E, S>) -> bool {
        ||| next.is_flushed()
        ||| next.is_flushed() == self.log.is_flushed() && is_same_log(
            self.base().log,
            next.view().base().log,
        )
    }

    /// The node is sound, and a leader in the middle of a step.
    pub open spec fn is_leading(&self) -> bool {
        &&& self.sound()
        &&& self.led(None).is_leading()
    }

    /// Sends a peer what it needs next, if anything.
    #[verifier::rlimit(40)]
    #[verifier::spinoff_prover]
    fn maybe_send_append(&mut self, peer: NodeID, probe: bool) -> (r: Result<()>)
        requires
            old(self).is_leading(),
        ensures
            final(self).reliable() == old(self).reliable(),
            final(self).log.is_flushed() == old(self).log.is_flushed(),
            r is Ok || old(self).reliable() ==> {
                &&& final(self).is_leading()
                &&& final(self).led(error_of(r)) == old(self).led(None).sending_append(peer, probe)
            },
            r is Err ==> final(self).led(None) == old(self).led(None),
    {
        let ghost led = self.led(None);
        let progress = match self.role.progress.get(&peer) {
            Some(progress) => *progress,
            None => return Ok(()),
        };
        assert(led.role.progress.contains_key(peer));
        let (last_index, _) = self.log.get_last_index();
        let first_index = self.log.get_first_index();
        if progress.next_index < first_index {
            let (last_included_index, last_included_term) = self.log.get_snapshot_meta();
            let data = match self.state.snapshot() {
                Ok(data) => data,
                Err(e) => return Err(e),
            };
            let membership = self.membership.active.duplicate();
            self.send(
                peer,
                Message::InstallSnapshot {
                    last_included_index,
                    last_included_term,
                    data,
                    membership,
                },
            );
            return Ok(());
        }
        if progress.match_index == last_index {
            return Ok(());
        }
        let probe = probe && progress.next_index > progress.match_index + 1;
        if progress.next_index > last_index && !probe {
            return Ok(());
        }
        let base_index: Index = progress.next_index - 1;
        let base_term: Term = if base_index == 0 {
            0
        } else {
            match self.log.term_at(base_index) {
                Ok(term) => term,
                Err(e) => return Err(e),
            }
        };
        let limit = self.opts.max_append_entries;
        let entries: Vec<Entry> = if probe || limit == 0 {
            Vec::new()
        } else {
            let reach = progress.next_index.saturating_add((limit - 1) as u64);
            let high: Index = if reach < last_index {
                reach
            } else {
                last_index
            };
            match self.log.entries(progress.next_index, high) {
                Ok(entries) => {
                    proof {
                        lemma_limited(led.core.log, progress.next_index as int, high as int, limit);
                    }
                    entries
                },
                Err(e) => return Err(e),
            }
        };
        let count = entries.len();
        let ghost views = entry_views(entries@);
        assert(views =~= led.append_entries(peer, probe)) by {
            lemma_slice(led.core.log, progress.next_index as int, last_index as int);
        }
        if count > 0 {
            proof {
                self.log.lemma_bounds();
                lemma_slice(led.core.log, progress.next_index as int, last_index as int);
                assert(views.last() == entries@[count - 1]@);
                assert(led.core.log.holds(views.last().index as int));
            }
            let next_index = entries[count - 1].index + 1;
            let ghost before = self.role.progress@;
            self.role.progress.insert(peer, Progress { next_index, ..progress });
            assert(self.led(None).is_leading()) by {
                assert(self.role.progress@.dom() =~= before.dom());
            }
        }
        self.send(peer, Message::Append { base_index, base_term, entries });
        Ok(())
    }
}

impl<E: Engine, S: State> RawNode<Leader, E, S> {
    /// Sends the entry at `index` to the peers that wait for it.
    fn replicate(&mut self, index: Index) -> (r: Result<()>)
        requires
            old(self).is_leading(),
        ensures
            final(self).reliable() == old(self).reliable(),
            final(self).log.is_flushed() == old(self).log.is_flushed(),
            r is Ok || old(self).reliable() ==> {
                &&& final(self).is_leading()
                &&& final(self).led(error_of(r)) == old(self).led(None).replicating(
                    ascending(old(self).base().peers()),
                    index,
                )
            },
            r is Err ==> exists|n: nat|
                final(self).led(None) == #[trigger] old(self).led(None).replicating(
                    ascending(old(self).base().peers()).take(n as int),
                    index,
                ),
    {
        let peers = ids_of(&self.peers());
        let ghost led = self.led(None);
        proof {
            lemma_ascending(led.core.peers());
            assert(peers@.take(0) =~= seq![]);
        }
        let mut i: usize = 0;
        while i < peers.len()
            invariant
                i <= peers@.len(),
                led == old(self).led(None),
                peers@ == ascending(led.core.peers()),
                peers@.to_set() == led.core.peers(),
                self.is_leading(),
                self.reliable() == old(self).reliable(),
                self.log.is_flushed() == old(self).log.is_flushed(),
                self.base().membership == led.core.membership,
                self.base().id == led.core.id,
                self.led(None) == led.replicating(peers@.take(i as int), index),
            decreases peers@.len() - i,
        {
            let peer = peers[i];
            proof {
                assert(peers@.to_set().contains(peer));
                assert(peers@.take(i + 1).drop_last() =~= peers@.take(i as int));
                lemma_sending_keeps(self.led(None), peer, false);
            }
            let next_index = match self.role.progress.get(&peer) {
                Some(progress) => progress.next_index,
                None => 0,
            };
            if next_index == index {
                match self.maybe_send_append(peer, false) {
                    Ok(()) => {},
                    Err(e) => {
                        proof {
                            let n = i as nat;
                            assert(self.led(None) == led.replicating(
                                ascending(led.core.peers()).take(n as int),
                                index,
                            ));
                            if old(self).reliable() {
                                assert(peers@.take(i + 1).last() == peer);
                                lemma_replicating_stops(led, peers@, i + 1, index);
                            }
                        }
                        return Err(e);
                    },
                }
            }
            i = i + 1;
        }
        assert(peers@.take(i as int) =~= peers@);
        Ok(())
    }

    /// Appends a command to the log and sends it to the peers that wait for it.
    /// Returns its index.
    fn propose(&mut self, command: Option<Vec<u8>>) -> (r: Result<Index>)
        requires
            old(self).is_leading(),
            old(self).base().log.last_index() + 1 < u64::MAX,
        ensures
            final(self).reliable() == old(self).reliable(),
            r is Ok || old(self).reliable() ==> {
                &&& final(self).is_leading()
                &&& final(self).led(error_of(r)) == old(self).led(None).proposing(
                    match command {
                        Some(command) => Some(command@),
                        None => None,
                    },
                )
            },
            r matches Ok(index) ==> index == final(self).base().log.last_index(),
            r is Ok && old(self).base().log.fsync ==> final(self).log.is_flushed(),
    {
        proof {
            self.log.lemma_bounds();
        }
        let ghost before = self.base();
        let index = match self.log.append(command) {
            Ok(index) => index,
            Err(e) => return Err(e),
        };
        proof {
            assert(self.base().log.entries.drop_last() =~= before.log.entries);
            lemma_appended(before, self.base());
        }
        let ghost led = self.led(None);
        proof {
            lemma_replicating_keeps(led, ascending(led.core.peers()), index);
        }
        match self.replicate(index) {
            Ok(()) => Ok(index),
            Err(e) => Err(e),
        }
    }

    /// Matches the progress with the membership: new peers start at the end of
    /// the log, others are forgotten.
    fn sync_progress_with_membership(&mut self)
        requires
            old(self).sound(),
            old(self).base().log.last_index() < u64::MAX,
        ensures
            *final(self) == (RawNode { role: final(self).role, ..*old(self) }),
            final(self).led(None) == old(self).led(None).syncing(),
    {
        let peers = self.peers();
        let ids = ids_of(&peers);
        let (last_index, _) = self.log.get_last_index();
        let next_index: Index = last_index + 1;
        let ghost led = self.led(None);
        let ghost synced = led.syncing();
        proof {
            lemma_ascending(peers@);
        }
        let mut progress: BTreeMap<NodeID, Progress> = BTreeMap::new();
        let mut peer_seen: BTreeMap<NodeID, Ticks> = BTreeMap::new();
        let mut i: usize = 0;
        while i < ids.len()
            invariant
                i <= ids@.len(),
                *self == *old(self),
                led == self.led(None),
                synced == led.syncing(),
                peers@ == led.core.peers(),
                ids@.to_set() == peers@,
                last_index == led.core.log.last_index(),
                next_index == last_index + 1,
                progress@.dom() == ids@.take(i as int).to_set(),
                peer_seen@.dom() == ids@.take(i as int).to_set(),
                forall|id: NodeID| #[trigger]
                    progress@.contains_key(id) ==> progress@[id] == synced.role.progress[id],
                forall|id: NodeID| #[trigger]
                    peer_seen@.contains_key(id) ==> peer_seen@[id] == synced.role.peer_seen[id],
            decreases ids@.len() - i,
        {
            let id = ids[i];
            proof {
                lemma_take_to_set(ids@, i as int);
                assert(ids@.to_set().contains(id));
            }
            let known = match self.role.progress.get(&id) {
                Some(progress) => *progress,
                None => Progress { match_index: 0, next_index, read_seq: 0 },
            };
            progress.insert(id, known);
            let seen = match self.role.peer_seen.get(&id) {
                Some(seen) => *seen,
                None => 0,
            };
            peer_seen.insert(id, seen);
            assert(progress@.dom() =~= ids@.take(i + 1).to_set());
            assert(peer_seen@.dom() =~= ids@.take(i + 1).to_set());
            i = i + 1;
        }
        self.role.progress = progress;
        self.role.peer_seen = peer_seen;
        proof {
            assert(ids@.take(i as int) =~= ids@);
            assert(self.role@.progress =~= synced.role.progress);
            assert(self.role@.peer_seen =~= synced.role.peer_seen);
        }
    }

    /// Appends a membership change, adopts it, and sends it to the peers that
    /// wait for it. Returns its index.
    fn change_membership(&mut self, change: MembershipEntry) -> (r: Result<Index>)
        requires
            old(self).is_leading(),
            old(self).base().log.last_index() + 1 < u64::MAX,
        ensures
            final(self).reliable() == old(self).reliable(),
            r is Ok || old(self).reliable() ==> {
                &&& final(self).is_leading()
                &&& final(self).led(error_of(r)) == old(self).led(None).changing(change@)
            },
            r is Err ==> final(self).led(None) == old(self).led(None) || exists|n: nat|
                final(self).led(None) == #[trigger] old(self).led(None).changing_partly(change@, n),
            r matches Ok(index) ==> index == final(self).base().log.last_index(),
            r is Ok && old(self).base().log.fsync ==> final(self).log.is_flushed(),
    {
        proof {
            self.log.lemma_bounds();
        }
        let ghost before = self.base();
        let index = match self.log.append_membership(change.duplicate()) {
            Ok(index) => index,
            Err(e) => return Err(e),
        };
        proof {
            assert(self.base().log.entries.drop_last() =~= before.log.entries);
            lemma_appended(before, self.base());
        }
        self.membership.apply_entry(&change);
        self.sync_progress_with_membership();
        let ghost led = self.led(None);
        proof {
            assert(led.role.progress.dom() =~= led.core.peers());
            lemma_replicating_keeps(led, ascending(led.core.peers()), index);
        }
        let ghost start = old(self).led(None);
        assert(led == start.adopting(change@));
        match self.replicate(index) {
            Ok(()) => Ok(index),
            Err(e) => {
                proof {
                    let n = choose|n: nat|
                        self.led(None) == #[trigger] led.replicating(
                            ascending(led.core.peers()).take(n as int),
                            index,
                        );
                    assert(self.led(None) == start.changing_partly(change@, n));
                }
                Err(e)
            },
        }
    }

    /// Proposes to change the voters, through a joint configuration. Only one
    /// change may be under way.
    fn propose_membership_change(&mut self, voters: HashSet<NodeID>) -> (r: Result<Index>)
        requires
            old(self).is_leading(),
            old(self).led(None).change_refused(voters@) is None ==> old(self).base().log.last_index() + 1 < u64::MAX,
        ensures
            final(self).reliable() == old(self).reliable(),
            r is Ok || old(self).reliable() || old(self).led(None).change_refused(voters@)
                is Some ==> {
                &&& final(self).is_leading()
                &&& final(self).led(error_of(r)) == old(self).led(None).proposing_change(voters@)
            },
            r matches Ok(index) ==> index == final(self).base().log.last_index(),
            old(self).led(None).change_refused(voters@) is Some ==> r is Err && *final(self)
                == *old(self),
            r is Err ==> final(self).led(None) == old(self).led(None) || exists|n: nat|
                final(self).led(None) == #[trigger] old(self).led(None).changing_partly(
                    MembershipView::Joint {
                        old: old(self).base().membership.active.target(),
                        new: voters@,
                    },
                    n,
                ),
    {
        if self.membership.change_pending {
            return Err(Error::InvalidInput("membership change already in progress".to_string()));
        }
        let new = Membership { voters: ordered(&voters) };
        if new.is_empty() {
            return Err(Error::InvalidInput("voters must not be empty".to_string()));
        }
        let current = match &self.membership.active {
            MembershipEntry::Simple(current) => current.duplicate(),
            MembershipEntry::Joint { .. } => {
                return Err(Error::InvalidInput("already in joint consensus".to_string()));
            },
        };
        if same_ids(&current.voters, &new.voters) {
            return Err(Error::InvalidInput("membership unchanged".to_string()));
        }
        self.change_membership(MembershipEntry::Joint { old: current, new })
    }
}

impl<E: Engine, S: State> RawNode<Leader, E, S> {
    /// The nodes whose logs are known to have the entry at `index`.
    pub(crate) fn matched_at(&self, index: Index) -> (r: BTreeSet<NodeID>)
        ensures
            r@ == self.led(None).matched_at(index as int),
    {
        let ids = keys_of(&self.role.progress);
        let mut matched: BTreeSet<NodeID> = BTreeSet::new();
        matched.insert(self.id);
        let mut i: usize = 0;
        proof {
            lemma_ascending(self.role.progress@.dom());
        }
        while i < ids.len()
            invariant
                i <= ids@.len(),
                ids@.to_set() == self.role.progress@.dom(),
                forall|peer: NodeID| #[trigger]
                    matched@.contains(peer) <==> peer == self.id || (ids@.take(i as int).contains(
                        peer,
                    ) && self.role.progress@[peer].match_index >= index),
            decreases ids@.len() - i,
        {
            proof {
                lemma_take_to_set(ids@, i as int);
                assert(ids@.to_set().contains(ids@[i as int]));
                assert forall|peer: NodeID| #[trigger]
                    ids@.take(i + 1).contains(peer) <==> ids@.take(i as int).contains(peer) || peer
                        == ids@[i as int] by {
                    assert(ids@.take(i + 1).to_set().contains(peer) == ids@.take(
                        i as int,
                    ).to_set().insert(ids@[i as int]).contains(peer));
                }
            }
            match self.role.progress.get(&ids[i]) {
                Some(progress) => {
                    if progress.match_index >= index {
                        matched.insert(ids[i]);
                    }
                },
                None => {},
            }
            i = i + 1;
        }
        assert(ids@.take(i as int) =~= ids@);
        assert forall|peer: NodeID| matched@.contains(peer) == self.led(None).matched_at(
            index as int,
        ).contains(peer) by {
            assert(ids@.to_set().contains(peer) == ids@.contains(peer));
        }
        assert(matched@ =~= self.led(None).matched_at(index as int));
        matched
    }

    /// The highest index that may be committed, or the commit index.
    pub(crate) fn quorum_commit_index(&mut self) -> (r: Result<Index>)
        requires
            old(self).sound(),
        ensures
            *final(self) == (RawNode { log: final(self).log, ..*old(self) }),
            final(self).log.wf(),
            final(self).log@ == old(self).log@,
            final(self).log.reported() == old(self).log.reported(),
            final(self).sound(),
            final(self).reliable() == old(self).reliable(),
            match r {
                Ok(target) => target == old(self).led(None).commit_target(
                    old(self).base().log.last_index(),
                ),
                Err(_) => !old(self).reliable(),
            },
    {
        let (last_index, _) = self.log.get_last_index();
        let (commit_index, _) = self.log.get_commit_index();
        let ghost led = self.led(None);
        proof {
            self.log.lemma_bounds();
        }
        let term = self.term();
        let mut index: Index = last_index;
        while index > commit_index
            invariant
                commit_index <= index <= last_index,
                last_index == led.core.log.last_index(),
                commit_index == led.core.log.commit_index,
                led.core.log.first_index <= commit_index + 1,
                term == led.core.term(),
                *self == (RawNode { log: self.log, ..*old(self) }),
                self.log.wf(),
                self.log@ == old(self).log@,
                self.log.reported() == old(self).log.reported(),
                self.sound(),
                self.reliable() == old(self).reliable(),
                self.base() == led.core,
                led == old(self).led(None),
                led.commit_target(last_index as int) == led.commit_target(index as int),
            decreases index,
        {
            match self.log.get(index) {
                Ok(Some(entry)) => {
                    if entry.term == term {
                        let matched = self.matched_at(index);
                        if self.membership.has_quorum(&matched) {
                            return Ok(index);
                        }
                    }
                },
                Ok(None) => {},
                Err(e) => return Err(e),
            }
            index = index - 1;
        }
        Ok(commit_index)
    }

    /// Applies the committed entries and answers the clients that wait for them.
    /// Returns the membership changes among them.
    fn apply_committed(&mut self) -> (r: Result<Vec<MembershipEntry>>)
        requires
            old(self).is_leading(),
        ensures
            final(self).reliable() == old(self).reliable(),
            match r {
                Ok(changes) => {
                    let led = old(self).led(None);
                    let entries = led.core.log.slice(
                        led.core.applied() + 1,
                        led.core.log.commit_index as int,
                    );
                    &&& final(self).is_leading()
                    &&& final(self).led(None) == led.applying_all(entries)
                    &&& change_views(changes@) == changes_of(entries)
                },
                Err(_) => !old(self).reliable(),
            },
    {
        let applied = self.state.get_applied_index();
        let ghost led = self.led(None);
        let ghost all = led.core.log.slice(applied + 1, led.core.log.commit_index as int);
        let mut iter = self.log.scan_apply(applied);
        let mut changes: Vec<MembershipEntry> = Vec::new();
        let ghost mut done: int = 0;
        proof {
            self.log.lemma_bounds();
            lemma_slice_writable(led.core, applied + 1, led.core.log.commit_index as int);
            assert(all.skip(0) =~= all);
            assert(all.take(0) =~= seq![]);
            assert(change_views(changes@) =~= seq![]);
        }
        loop
            invariant
                0 <= done <= all.len(),
                self.is_leading(),
                self.reliable() == old(self).reliable(),
                self.led(None) == led.applying_all(all.take(done)),
                change_views(changes@) == changes_of(all.take(done)),
                reads_entries(iter.items@, all.skip(done)),
                self.reliable() ==> forall|k: int|
                    0 <= k < iter.items@.len() ==> #[trigger] iter.items@[k] is Ok,
                forall|k: int|
                    0 <= k < all.len() ==> super::model::takes_entry::<S>(#[trigger] all[k]),
            ensures
                done == all.len(),
            decreases iter.items@.len(),
        {
            match iter.next() {
                None => {
                    break;
                },
                Some(Err(e)) => {
                    return Err(e);
                },
                Some(Ok(entry)) => {
                    proof {
                        assert(all.skip(done)[0] == all[done]);
                        assert(entry@ == all[done]);
                        assert(all.take(done + 1).drop_last() =~= all.take(done));
                        assert(all.take(done + 1).last() == all[done]);
                        assert(all.skip(done).skip(1) =~= all.skip(done + 1));
                    }
                    let mut last = false;
                    match &entry.membership {
                        Some(change) => {
                            last = match self.is_last_change(entry.index) {
                                Ok(last) => last,
                                Err(e) => return Err(e),
                            };
                            let ghost before = changes@;
                            changes.push(change.duplicate());
                            assert(change_views(changes@) =~= change_views(before).push(change@));
                        },
                        None => {},
                    }
                    self.apply_entry(entry, last);
                    proof {
                        done = done + 1;
                    }
                },
            }
        }
        assert(all.take(done) =~= all);
        Ok(changes)
    }

    /// Applies a committed entry and answers the client that waits for it. `last`
    /// tells whether a membership change is the last one in the log.
    fn apply_entry(&mut self, entry: Entry, last: bool)
        requires
            old(self).is_leading(),
            entry@.membership is Some ==> last == is_last_change(
                old(self).base().log,
                entry.index,
            ),
            super::model::takes_entry::<S>(entry@),
        ensures
            final(self).is_leading(),
            final(self).reliable() == old(self).reliable(),
            final(self).led(None) == old(self).led(None).applying(entry@),
    {
        let index = entry.index;
        let write = self.role.writes.remove(&index);
        let membership_write = self.role.membership_writes.remove(&index);
        match &entry.membership {
            Some(change) => {
                if last {
                    self.membership.on_commit(change);
                }
                let bare = Entry { index, term: entry.term, command: None, membership: None };
                let _ = self.state.apply(bare);
                match membership_write {
                    Some(write) => {
                        self.send(
                            write.from,
                            Message::ClientResponse {
                                id: write.id,
                                response: Ok(Response::ChangeMembership { index }),
                            },
                        );
                    },
                    None => {},
                }
            },
            None => {
                let response = match self.state.apply(entry) {
                    Ok(data) => Ok(Response::Write(data)),
                    Err(e) => Err(e),
                };
                match write {
                    Some(write) => {
                        self.send(
                            write.from,
                            Message::ClientResponse { id: write.id, response },
                        );
                    },
                    None => {},
                }
            },
        }
    }
}

impl<E: Engine, S: State> RawNode<Leader, E, S> {
    /// Deals with a committed membership change: a joint one is followed by its
    /// target configuration.
    fn maybe_propose_simple_after_joint(&mut self, committed: &MembershipEntry) -> (r: Result<()>)
        requires
            old(self).wf(),
            committed@ is Joint ==> old(self).base().log.last_index() + 1 < u64::MAX,
        ensures
            final(self).reliable() == old(self).reliable(),
            r is Ok || old(self).reliable() ==> {
                &&& final(self).is_leading()
                &&& final(self).led(error_of(r)) == old(self).led(None).settling(committed@)
            },
            r is Ok ==> final(self).wf(),
    {
        let ghost led = self.led(None);
        match committed {
            MembershipEntry::Joint { new, .. } => {
                let simple = MembershipEntry::Simple(new.duplicate());
                match self.change_membership(simple) {
                    Ok(_) => {},
                    Err(e) => return Err(e),
                }
                proof {
                    lemma_changing(led, MembershipView::Simple(new@));
                }
            },
            MembershipEntry::Simple(_) => {},
        }
        proof {
            self.log.lemma_bounds();
            lemma_syncing(self.led(None));
        }
        self.sync_progress_with_membership();
        Ok(())
    }

    /// Deals with the committed membership changes, and tells whether the leader
    /// is to step down.
    fn settle(&mut self, changes: &Vec<MembershipEntry>) -> (r: Result<bool>)
        requires
            old(self).wf(),
            old(self).base().log.last_index() + joint_count(change_views(changes@))
                < u64::MAX,
        ensures
            final(self).reliable() == old(self).reliable(),
            r is Ok || old(self).reliable() ==> {
                &&& final(self).is_leading()
                &&& final(self).led(error_of(r)) == old(self).led(None).settling_all(
                    change_views(changes@),
                ).0
            },
            r matches Ok(step_down) ==> {
                &&& final(self).wf()
                &&& step_down == old(self).led(None).settling_all(change_views(changes@)).1
            },
    {
        let ghost led = self.led(None);
        let ghost views = change_views(changes@);
        let mut step_down = false;
        let mut i: usize = 0;
        assert(views.take(0) =~= seq![]);
        while i < changes.len()
            invariant
                i <= changes@.len(),
                led == old(self).led(None),
                views == change_views(changes@),
                self.wf(),
                self.reliable() == old(self).reliable(),
                self.base().log.last_index() == led.core.log.last_index()
                    + joint_count(views.take(i as int)),
                led.core.log.last_index() + joint_count(views) < u64::MAX,
                (self.led(None), step_down) == led.settling_all(views.take(i as int)),
            decreases changes@.len() - i,
        {
            let ghost now = self.led(None);
            let change = &changes[i];
            proof {
                assert(views.take(i + 1).drop_last() =~= views.take(i as int));
                assert(views.take(i + 1).last() == change@);
                lemma_joint_count(views, i + 1);
                self.log.lemma_bounds();
                lemma_settling_length(now, change@);
            }
            match self.maybe_propose_simple_after_joint(change) {
                Ok(()) => {},
                Err(e) => {
                    proof {
                        if old(self).reliable() {
                            lemma_settling_stops(led, views, i + 1);
                        }
                    }
                    return Err(e);
                },
            }
            let removed = !self.membership.active.is_joint() && !self.membership.all_voters().contains(
                &self.id,
            );
            if !change.is_joint() && removed {
                step_down = true;
            }
            i = i + 1;
        }
        assert(views.take(i as int) =~= views);
        Ok(step_down)
    }

    /// Whether a quorum confirmed the leadership for the read with this number.
    fn is_confirmed(&self, seq: ReadSequence) -> (r: bool)
        ensures
            r == self.led(None).is_confirmed(seq),
    {
        if seq == 0 {
            return true;
        }
        let ids = keys_of(&self.role.progress);
        let mut matched: BTreeSet<NodeID> = BTreeSet::new();
        if self.role.read_seq >= seq {
            matched.insert(self.id);
        }
        let mut i: usize = 0;
        proof {
            lemma_ascending(self.role.progress@.dom());
        }
        while i < ids.len()
            invariant
                i <= ids@.len(),
                ids@.to_set() == self.role.progress@.dom(),
                forall|peer: NodeID| #[trigger]
                    matched@.contains(peer) <==> (peer == self.id && self.role.read_seq >= seq) || (
                    ids@.take(i as int).contains(peer) && self.role.progress@[peer].read_seq
                        >= seq),
            decreases ids@.len() - i,
        {
            proof {
                lemma_take_to_set(ids@, i as int);
                assert(ids@.to_set().contains(ids@[i as int]));
                assert forall|peer: NodeID| #[trigger]
                    ids@.take(i + 1).contains(peer) <==> ids@.take(i as int).contains(peer) || peer
                        == ids@[i as int] by {
                    assert(ids@.take(i + 1).to_set().contains(peer) == ids@.take(
                        i as int,
                    ).to_set().insert(ids@[i as int]).contains(peer));
                }
            }
            match self.role.progress.get(&ids[i]) {
                Some(progress) => {
                    if progress.read_seq >= seq {
                        matched.insert(ids[i]);
                    }
                },
                None => {},
            }
            i = i + 1;
        }
        proof {
            let role = self.role@;
            let id = self.base().id;
            let expected = Set::new(
                |peer: NodeID|
                    (peer == id && role.read_seq >= seq) || (role.progress.contains_key(peer)
                        && role.progress[peer].read_seq >= seq),
            );
            assert(ids@.take(i as int) =~= ids@);
            assert forall|peer: NodeID| matched@.contains(peer) == expected.contains(peer) by {
                assert(ids@.to_set().contains(peer) == ids@.contains(peer));
            }
            assert(matched@ =~= expected);
        }
        self.membership.has_quorum(&matched)
    }

    /// Answers the reads that can be: the leader has committed in its own term,
    /// applied what is committed, and is confirmed by a quorum.
    fn maybe_read(&mut self)
        requires
            old(self).is_leading(),
        ensures
            final(self).is_leading(),
            final(self).reliable() == old(self).reliable(),
            final(self).led(None) == old(self).led(None).reading(),
            old(self).wf() ==> final(self).wf(),
    {
        let (commit_index, commit_term) = self.log.get_commit_index();
        let applied_index = self.state.get_applied_index();
        if commit_term < self.term() || applied_index < commit_index {
            return;
        }
        let ghost goal = self.led(None).serving();
        while self.role.reads.len() > 0
            invariant
                self.is_leading(),
                self.reliable() == old(self).reliable(),
                old(self).wf() ==> self.wf(),
                self.led(None).serving() == goal,
            ensures
                self.led(None) == goal,
            decreases self.role.reads@.len(),
        {
            let ghost now = self.led(None);
            assert(now.role.reads[0] == self.role.reads@[0]@);
            let seq = self.role.reads[0].seq;
            if !self.is_confirmed(seq) {
                break;
            }
            let ghost reads = self.role.reads@;
            match self.role.reads.pop_front() {
                Some(read) => {
                    proof {
                        assert(read_views(self.role.reads@) =~= read_views(reads).skip(1));
                        assert(S::takes_read(now.role.reads[0].command));
                        assert forall|k: int| 0 <= k < self.role@.reads.len() implies S::takes_read(
                            (#[trigger] self.role@.reads[k]).command,
                        ) by {
                            assert(self.role@.reads[k] == now.role.reads[k + 1]);
                        }
                    }
                    let response = match self.state.read(read.command) {
                        Ok(data) => Ok(Response::Read(data)),
                        Err(e) => Err(e),
                    };
                    self.send(read.from, Message::ClientResponse { id: read.id, response });
                },
                None => {},
            }
        }
    }

    /// Takes a snapshot and compacts the log, if enough was applied since the
    /// last one.
    fn maybe_snapshot(&mut self) -> (r: Result<()>)
        requires
            old(self).wf(),
            old(self).led(None).is_snapshot_due() ==> old(self).base().applied() <= old(self).base().log.commit_index,
        ensures
            final(self).reliable() == old(self).reliable(),
            r is Ok || old(self).reliable() ==> {
                &&& final(self).wf()
                &&& final(self).led(error_of(r)) == old(self).led(None).snapshotting()
            },
    {
        let threshold = self.opts.snapshot_threshold;
        if threshold == 0 {
            return Ok(());
        }
        let applied = self.state.get_applied_index();
        let (snapshot_index, _) = self.log.get_snapshot_meta();
        if applied <= snapshot_index || applied - snapshot_index < threshold {
            return Ok(());
        }
        let (commit_index, _) = self.log.get_commit_index();
        if applied < commit_index {
            return Ok(());
        }
        let ghost before = self.base();
        proof {
            self.log.lemma_bounds();
        }
        let term = match self.log.term_at(applied) {
            Ok(term) => term,
            Err(e) => return Err(e),
        };
        let data = match self.state.snapshot() {
            Ok(data) => data,
            Err(e) => return Err(e),
        };
        match self.log.set_snapshot(data) {
            Ok(()) => {},
            Err(e) => return Err(e),
        }
        match self.log.compact_to(applied, term) {
            Ok(()) => {},
            Err(e) => return Err(e),
        }
        proof {
            let gone = applied + 1 - before.log.first_index;
            assert forall|k: int|
                0 <= k < self.base().log.entries.len() && (#[trigger] self.base().log.entries[k]).index
                    <= self.base().log.commit_index implies super::model::takes_entry::<S>(
                self.base().log.entries[k],
            ) by {
                assert(self.base().log.entries[k] == before.log.entries[k + gone]);
            }
        }
        Ok(())
    }

    /// Commits and applies what a quorum has, and tells whether the leader is to
    /// step down.
    fn maybe_commit_and_apply(&mut self) -> (r: Result<bool>)
        requires
            old(self).wf(),
            old(self).led(None).can_commit(),
        ensures
            final(self).reliable() == old(self).reliable(),
            r is Ok || old(self).reliable() ==> {
                &&& final(self).is_leading()
                &&& final(self).led(error_of(r)) == old(self).led(None).committing().0
            },
            r matches Ok(step_down) ==> {
                &&& final(self).wf()
                &&& step_down == old(self).led(None).committing().1
            },
    {
        let ghost led = self.led(None);
        let (old_index, old_term) = self.log.get_commit_index();
        let target = match self.quorum_commit_index() {
            Ok(target) => target,
            Err(e) => return Err(e),
        };
        if target <= old_index {
            return Ok(false);
        }
        proof {
            self.log.lemma_bounds();
            lemma_commit_target(led, led.core.log.last_index());
        }
        match self.log.commit(target) {
            Ok(_) => {},
            Err(e) => return Err(e),
        }
        let ghost committed = self.led(None);
        assert(self.wf());
        let changes = match self.apply_committed() {
            Ok(changes) => changes,
            Err(e) => return Err(e),
        };
        let ghost entries = committed.core.log.slice(
            committed.core.applied() + 1,
            target as int,
        );
        let ghost applied = self.led(None);
        proof {
            self.log.lemma_bounds();
            lemma_applying_all(committed, entries);
            assert(entries == led.core.log.slice(led.core.applied() + 1, target as int));
            lemma_applied_bound(committed, entries, target as int);
        }
        let step_down = match self.settle(&changes) {
            Ok(step_down) => step_down,
            Err(e) => return Err(e),
        };
        proof {
            lemma_settling_all(applied, change_views(changes@));
            lemma_reading(self.led(None));
            if led.core.applied() > target {
                assert(entries =~= seq![]);
            }
        }
        if old_term != self.term() {
            self.maybe_read();
        }
        if !step_down {
            match self.maybe_snapshot() {
                Ok(()) => {},
                Err(e) => return Err(e),
            }
        }
        Ok(step_down)
    }
}

impl<E: Engine, S: State> RawNode<Leader, E, S> {
    /// Sends a heartbeat to every peer.
    pub(crate) fn heartbeat(&mut self)
        requires
            old(self).sound(),
        ensures
            final(self).sound(),
            final(self).reliable() == old(self).reliable(),
            final(self).led(None) == old(self).led(None).heartbeating(),
            old(self).led(None).is_leading() ==> final(self).led(None).is_leading(),
            old(self).wf() ==> final(self).wf(),
    {
        let (last_index, _) = self.log.get_last_index();
        let (commit_index, _) = self.log.get_commit_index();
        let read_seq = self.role.read_seq;
        self.role.since_heartbeat = 0;
        self.broadcast(&Message::Heartbeat { last_index, commit_index, read_seq });
    }

    /// Gives up the leadership, in a later term if one was discovered. What the
    /// clients wait for is aborted.
    pub fn into_follower(self, term: Term, timeout: Ticks) -> (r: Result<RawNode<Follower, E, S>>)
        requires
            self.wf(),
        ensures
            term <= self.base().term() ==> r is Ok,
            match r {
                Ok(node) => {
                    &&& node.wf()
                    &&& node.reliable() == self.reliable()
                    &&& term > self.base().term() ==> node.log.is_flushed()
                    &&& (node.base(), node.role@) == stepping_down(
                        self.base(),
                        self.role@,
                        term,
                        timeout,
                    )
                },
                Err(_) => !self.reliable(),
            },
    {
        let mut node = self;
        if term > node.term() {
            match node.log.set_term_vote(term, None) {
                Ok(()) => {},
                Err(e) => return Err(e),
            }
        }
        let writes = sorted_by_id(writes_of(&node.role.writes));
        node.abort_all(&writes);
        let changes = sorted_by_id(writes_of(&node.role.membership_writes));
        node.abort_all(&changes);
        let reads = sorted_by_id(reads_of(&node.role.reads));
        node.abort_all(&reads);
        Ok(node.into_role(Follower::new(None, timeout)))
    }

    /// Notes that a peer was heard from.
    fn note_peer_response(&mut self, from: NodeID)
        ensures
            *final(self) == (RawNode { role: final(self).role, ..*old(self) }),
            final(self).led(None) == old(self).led(None).noting(from),
    {
        if self.role.peer_seen.contains_key(&from) {
            self.role.peer_seen.insert(from, 0);
        }
    }

    /// What is known of a peer's log.
    fn progress(&self, id: NodeID) -> (r: Progress)
        requires
            self.role@.progress.contains_key(id),
        ensures
            r == self.role@.progress[id],
    {
        match self.role.progress.get(&id) {
            Some(progress) => *progress,
            None => Progress { match_index: 0, next_index: 1, read_seq: 0 },
        }
    }

    /// Replaces what is known of a peer's log.
    fn set_progress(&mut self, id: NodeID, progress: Progress)
        ensures
            *final(self) == (RawNode { role: final(self).role, ..*old(self) }),
            final(self).led(None) == old(self).led(None).with_progress(id, progress),
    {
        self.role.progress.insert(id, progress);
    }

    /// Notes that a peer confirmed a read, and answers the reads that can be.
    fn confirm(&mut self, from: NodeID, seq: ReadSequence)
        requires
            old(self).wf(),
            old(self).role@.progress.contains_key(from),
        ensures
            final(self).wf(),
            final(self).reliable() == old(self).reliable(),
            final(self).led(None) == old(self).led(None).confirming(from, seq),
            final(self).role@.progress.contains_key(from),
    {
        let mut progress = self.progress(from);
        if progress.advance_read(seq) {
            let ghost before = self.role@.progress;
            self.set_progress(from, progress);
            assert(self.role@.progress.dom() =~= before.dom());
            proof {
                lemma_reading(self.led(None));
            }
            self.maybe_read();
        }
    }

    /// Notes that a peer matches up to `index`, commits what can be, and tells
    /// whether the leader is to step down.
    fn note_match(&mut self, from: NodeID, index: Index) -> (r: Result<bool>)
        requires
            old(self).wf(),
            old(self).role@.progress.contains_key(from),
            old(self).led(None).can_match(from, index),
        ensures
            final(self).reliable() == old(self).reliable(),
            r is Ok || old(self).reliable() ==> {
                &&& final(self).is_leading()
                &&& final(self).led(error_of(r)) == old(self).led(None).matching(from, index).0
            },
            r matches Ok(step_down) ==> {
                &&& final(self).wf()
                &&& step_down == old(self).led(None).matching(from, index).1
            },
    {
        let mut progress = self.progress(from);
        if index <= progress.match_index {
            return Ok(false);
        }
        let _ = progress.advance(index);
        let ghost before = self.role@.progress;
        self.set_progress(from, progress);
        assert(self.role@.progress.dom() =~= before.dom());
        self.maybe_commit_and_apply()
    }

    /// The state of the cluster.
    fn status(&mut self, storage: crate::storage::engine::Status) -> (r: Status)
        requires
            old(self).wf(),
        ensures
            *final(self) == *old(self),
            r@ == old(self).led(None).status(storage@),
    {
        let (last_index, _) = self.log.get_last_index();
        let (commit_index, _) = self.log.get_commit_index();
        let ids = keys_of(&self.role.progress);
        let mut match_index: BTreeMap<NodeID, Index> = BTreeMap::new();
        let mut i: usize = 0;
        proof {
            lemma_ascending(self.role.progress@.dom());
        }
        while i < ids.len()
            invariant
                i <= ids@.len(),
                *self == *old(self),
                ids@.to_set() == self.role.progress@.dom(),
                match_index@.dom() == ids@.take(i as int).to_set(),
                forall|id: NodeID| #[trigger]
                    match_index@.contains_key(id) ==> match_index@[id]
                        == self.role.progress@[id].match_index,
            decreases ids@.len() - i,
        {
            proof {
                lemma_take_to_set(ids@, i as int);
                assert(ids@.to_set().contains(ids@[i as int]));
            }
            let known = self.progress(ids[i]);
            match_index.insert(ids[i], known.match_index);
            assert(match_index@.dom() =~= ids@.take(i + 1).to_set());
            i = i + 1;
        }
        assert(ids@.take(i as int) =~= ids@);
        match_index.insert(self.id, last_index);
        let status = Status {
            leader: self.id,
            term: self.term(),
            match_index,
            commit_index,
            applied_index: self.state.get_applied_index(),
            storage,
            voters: self.membership.all_voters(),
        };
        assert(status@.match_index =~= self.led(None).status(storage@).match_index);
        status
    }
}

impl<E: Engine, S: State> RawNode<Leader, E, S> {
    /// Ends a step.
    fn conclude(self, step_down: bool, timeout: Ticks) -> (r: Result<Node<E, S>>)
        requires
            self.wf(),
        ensures
            match r {
                Ok(node) => {
                    &&& node.wf()
                    &&& node.reliable() == self.reliable()
                    &&& concluding(self.led(None), step_down, timeout) == Ok::<
                        NodeView<S>,
                        ErrorView,
                    >(node.view())
                },
                Err(_) => !self.reliable(),
            },
    {
        if step_down {
            let term = self.term();
            match self.into_follower(term, timeout) {
                Ok(node) => Ok(Node::Follower(node)),
                Err(e) => Err(e),
            }
        } else {
            Ok(Node::Leader(self))
        }
    }

    /// Takes the answer to a heartbeat.
    fn step_heartbeat_response(
        &mut self,
        from: NodeID,
        match_index: Index,
        read_seq: ReadSequence,
    ) -> (r: Result<bool>)
        requires
            old(self).wf(),
            old(self).role@.progress.contains_key(from),
            match_index <= old(self).base().log.last_index(),
            old(self).led(None).noting(from).confirming(from, read_seq).can_match(
                from,
                match_index,
            ),
        ensures
            final(self).reliable() == old(self).reliable(),
            r is Ok || old(self).reliable() ==> final(self).led(error_of(r)) == old(self).led(
                None,
            ).heard_heartbeat(from, match_index, read_seq).0,
            r matches Ok(step_down) ==> {
                &&& final(self).wf()
                &&& step_down == old(self).led(None).heard_heartbeat(from, match_index, read_seq).1
            },
    {
        let ghost led = self.led(None);
        let ghost last = led.core.log.last_index() as u64;
        self.note_peer_response(from);
        assert(self.role@.peer_seen.dom() =~= led.role.peer_seen.dom());
        proof {
            lemma_confirming(self.led(None), from, read_seq);
        }
        self.confirm(from, read_seq);
        let ghost confirmed = self.led(None);
        let (last_index, _) = self.log.get_last_index();
        if match_index == 0 {
            let mut progress = self.progress(from);
            let _ = progress.regress_next(last_index);
            let ghost before = self.role@.progress;
            self.set_progress(from, progress);
            assert(self.role@.progress.dom() =~= before.dom());
            assert(self.led(None).is_leading());
            let ghost regressed = self.led(None);
            proof {
                lemma_sending_keeps(regressed, from, true);
            }
            match self.maybe_send_append(from, true) {
                Ok(()) => {},
                Err(e) => return Err(e),
            }
        }
        self.note_match(from, match_index)
    }

    /// Takes the news that a peer matches up to `index`.
    fn step_match(&mut self, from: NodeID, index: Index) -> (r: Result<bool>)
        requires
            old(self).wf(),
            old(self).role@.progress.contains_key(from),
            old(self).led(None).noting(from).can_match(from, index),
        ensures
            final(self).reliable() == old(self).reliable(),
            r is Ok || old(self).reliable() ==> final(self).led(error_of(r)) == old(self).led(
                None,
            ).heard_match(from, index).0,
            r matches Ok(step_down) ==> {
                &&& final(self).wf()
                &&& step_down == old(self).led(None).heard_match(from, index).1
            },
    {
        let ghost led = self.led(None);
        self.note_peer_response(from);
        assert(self.role@.peer_seen.dom() =~= led.role.peer_seen.dom());
        let step_down = match self.note_match(from, index) {
            Ok(step_down) => step_down,
            Err(e) => return Err(e),
        };
        proof {
            lemma_sending_keeps(self.led(None), from, false);
        }
        match self.maybe_send_append(from, false) {
            Ok(()) => Ok(step_down),
            Err(e) => Err(e),
        }
    }

    /// Takes the news that a peer rejected an append at `index`.
    fn step_reject(&mut self, from: NodeID, index: Index) -> (r: Result<()>)
        requires
            old(self).wf(),
            old(self).role@.progress.contains_key(from),
            0 < index <= old(self).base().log.last_index(),
        ensures
            final(self).reliable() == old(self).reliable(),
            r is Ok || old(self).reliable() ==> final(self).led(error_of(r)) == old(self).led(
                None,
            ).heard_reject(from, index),
            r is Ok ==> final(self).wf(),
    {
        let ghost led = self.led(None);
        self.note_peer_response(from);
        assert(self.role@.peer_seen.dom() =~= led.role.peer_seen.dom());
        let mut progress = self.progress(from);
        if index <= progress.match_index {
            return Ok(());
        }
        if progress.regress_next(index) {
            let ghost before = self.role@.progress;
            self.set_progress(from, progress);
            assert(self.role@.progress.dom() =~= before.dom());
            assert(self.led(None).is_leading());
            proof {
                lemma_sending_keeps(self.led(None), from, true);
            }
            return self.maybe_send_append(from, true);
        }
        Ok(())
    }

    /// Proposes a write, and commits it at once if the leader is alone.
    fn step_write(&mut self, from: NodeID, id: RequestID, command: Vec<u8>) -> (r: Result<bool>)
        requires
            old(self).wf(),
            old(self).base().log.last_index() + 1 < u64::MAX,
            old(self).led(None).proposing(Some(command@)).can_await(),
        ensures
            final(self).reliable() == old(self).reliable(),
            r is Ok || old(self).reliable() ==> final(self).led(error_of(r)) == old(self).led(
                None,
            ).proposing(Some(command@)).awaiting(Write { from, id }).0,
            r matches Ok(step_down) ==> {
                &&& final(self).wf()
                &&& step_down == old(self).led(None).proposing(Some(command@)).awaiting(
                    Write { from, id },
                ).1
            },
    {
        let ghost led = self.led(None);
        let ghost data = command@;
        proof {
            lemma_proposing(led, Some(data));
        }
        let index = match self.propose(Some(command)) {
            Ok(index) => index,
            Err(e) => return Err(e),
        };
        let ghost proposed = self.led(None);
        self.role.writes.insert(index, Write { from, id });
        if self.cluster_size() == 1 {
            proof {
                lemma_same_target(proposed, self.led(None), self.base().log.last_index());
            }
            self.maybe_commit_and_apply()
        } else {
            Ok(false)
        }
    }

    /// Queues a read and asks the peers to confirm the leadership.
    fn step_read(&mut self, from: NodeID, id: RequestID, command: Vec<u8>)
        requires
            old(self).wf(),
            old(self).role.read_seq < u64::MAX,
            S::takes_read(command@),
        ensures
            final(self).wf(),
            final(self).reliable() == old(self).reliable(),
            final(self).led(None) == old(self).led(None).queueing(from, id, command@),
    {
        let ghost led = self.led(None);
        self.role.read_seq = self.role.read_seq + 1;
        let seq = self.role.read_seq;
        let ghost reads = self.role.reads@;
        let read = Read { seq, from, id, command };
        self.role.reads.push_back(read);
        proof {
            assert(read_views(self.role.reads@) =~= read_views(reads).push(read@));
            assert forall|k: int| 0 <= k < self.role@.reads.len() implies S::takes_read(
                (#[trigger] self.role@.reads[k]).command,
            ) by {
                if k < reads.len() {
                    assert(self.role@.reads[k] == led.role.reads[k]);
                }
            }
        }
        self.broadcast(&Message::Read { seq });
        assert(self.led(None).is_settled());
        if self.cluster_size() == 1 {
            self.maybe_read();
        }
    }

    /// Proposes a membership change. One that is refused is answered at once.
    fn step_change(&mut self, from: NodeID, id: RequestID, voters: HashSet<NodeID>) -> (r: Result<
        bool,
    >)
        requires
            old(self).wf(),
            old(self).led(None).can_serve(
                RequestView::ChangeMembership { voters: voters@ },
            ),
        ensures
            final(self).reliable() == old(self).reliable(),
            old(self).reliable() || old(self).led(None).change_refused(voters@) is Some ==> {
                &&& final(self).led(error_of(r)) == old(self).led(None).proposing_change(
                    voters@,
                ).awaiting_change(Write { from, id }).0
                &&& r matches Ok(step_down) ==> {
                    &&& final(self).wf()
                    &&& step_down == old(self).led(None).proposing_change(voters@).awaiting_change(
                        Write { from, id },
                    ).1
                }
            },
            old(self).led(None).change_refused(voters@) is Some ==> r is Ok,
            r == Ok::<bool, Error>(true) ==> final(self).wf(),
            r matches Ok(step_down) ==> {
                ||| (final(self).led(None), step_down) == old(self).led(None).proposing_change(
                    voters@,
                ).awaiting_change(Write { from, id })
                ||| !step_down && !old(self).reliable() && exists|n: Option<nat>, e: ErrorView|
                    final(self).led(None) == #[trigger] old(self).led(None).failing_change(
                        voters@,
                        n,
                        Write { from, id },
                        e,
                    )
            },
    {
        let ghost led = self.led(None);
        let ghost target = voters@;
        proof {
            if led.change_refused(target) is None {
                lemma_changing(
                    led,
                    MembershipView::Joint {
                        old: led.core.membership.active.target(),
                        new: target,
                    },
                );
            }
        }
        match self.propose_membership_change(voters) {
            Ok(index) => {
                let ghost proposed = self.led(None);
                self.role.membership_writes.insert(index, Write { from, id });
                if self.cluster_size() == 1 {
                    proof {
                        lemma_same_target(proposed, self.led(None), self.base().log.last_index());
                    }
                    self.maybe_commit_and_apply()
                } else {
                    Ok(false)
                }
            },
            Err(e) => {
                let ghost before = self.led(None);
                let ghost error = e@;
                self.send(from, Message::ClientResponse { id, response: Err(e) });
                proof {
                    let write = Write { from, id };
                    if before == led {
                        assert(self.led(None) == led.failing_change(target, None, write, error));
                    } else {
                        let joint = MembershipView::Joint {
                            old: led.core.membership.active.target(),
                            new: target,
                        };
                        let n = choose|n: nat|
                            before == #[trigger] led.changing_partly(joint, n);
                        assert(self.led(None) == led.failing_change(
                            target,
                            Some(n),
                            write,
                            error,
                        ));
                    }
                }
                Ok(false)
            },
        }
    }
}

/// `r` is the node that a step ends with.
pub open spec fn ends_with<E: Engine, S: State>(
    r: Result<Node<E, S>>,
    expected: std::result::Result<NodeView<S>, ErrorView>,
    reliable: bool,
) -> bool {
    match r {
        Ok(node) => {
            &&& node.reliable() == reliable
            &&& node.wf()
            &&& expected == Ok::<NodeView<S>, ErrorView>(node.view())
        },
        Err(e) => reliable ==> expected == Err::<NodeView<S>, ErrorView>(e@),
    }
}

/// `r` is the node that taking a message ends with. On an engine that may fail, a
/// membership change can end on the way, with the error as the answer; and after a
/// risky step something can be left in storage that the node does not know of.
pub open spec fn steps_to<E: Engine, S: State>(
    r: Result<Node<E, S>>,
    expected: std::result::Result<NodeView<S>, ErrorView>,
    reliable: bool,
    risky: bool,
    before: NodeView<S>,
    msg: EnvelopeView,
) -> bool {
    match r {
        Ok(node) => {
            &&& node.reliable() == reliable
            &&& reliable || !risky ==> node.wf()
            &&& expected == Ok::<NodeView<S>, ErrorView>(node.view()) || (!reliable && risky
                && is_left_by(before, msg, node.view()))
        },
        Err(e) => reliable ==> expected == Err::<NodeView<S>, ErrorView>(e@),
    }
}

/// A client's request as a message to a leader.
spec fn request_to<E: Engine, S: State>(
    node: RawNode<Leader, E, S>,
    from: NodeID,
    id: RequestID,
    request: RequestView,
) -> EnvelopeView {
    EnvelopeView {
        from,
        term: node.base().term(),
        to: node.base().id,
        message: MessageView::ClientRequest { id, request },
    }
}

impl<E: Engine, S: State> RawNode<Leader, E, S> {
    /// Takes a client's request.
    fn step_request(self, from: NodeID, id: RequestID, request: Request, timeout: Ticks) -> (r:
        Result<Node<E, S>>)
        requires
            self.wf(),
            self.led(None).can_serve(request@),
        ensures
            request@ is Read ==> r is Ok,
            exists|storage: std::result::Result<StorageStatusView, ErrorView>|
                is_report(storage, self.log.reported(), self.reliable()) && steps_to(
                    r,
                    #[trigger] answering(self.led(None), from, id, request@, storage, timeout),
                    self.reliable(),
                    request@ matches RequestView::ChangeMembership { voters } && self.led(
                        None,
                    ).change_refused(voters) is None,
                    self.view(),
                    request_to(self, from, id, request@),
                ),
    {
        let mut node = self;
        let ghost led = self.led(None);
        let ghost none = Ok::<StorageStatusView, ErrorView>(self.log.reported());
        let ghost expected = answering(led, from, id, request@, none, timeout);
        match request {
            Request::Write(command) => {
                match node.step_write(from, id, command) {
                    Ok(step_down) => node.conclude(step_down, timeout),
                    Err(e) => Err(e),
                }
            },
            Request::WriteSession { client_id, seq, command } => {
                let wrapped = encode_session(client_id, seq, command);
                match node.step_write(from, id, wrapped) {
                    Ok(step_down) => node.conclude(step_down, timeout),
                    Err(e) => Err(e),
                }
            },
            Request::Read(command) => {
                node.step_read(from, id, command);
                Ok(Node::Leader(node))
            },
            Request::Status => {
                let status = node.log.status();
                let ghost expected = answering(
                    led,
                    from,
                    id,
                    request@,
                    storage_view(status),
                    timeout,
                );
                let response = match status {
                    Ok(status) => Ok(Response::Status(node.status(status))),
                    Err(e) => Err(e),
                };
                node.send(from, Message::ClientResponse { id, response });
                Ok(Node::Leader(node))
            },
            Request::ChangeMembership { voters } => {
                match node.step_change(from, id, voters) {
                    Ok(true) => node.conclude(true, timeout),
                    Ok(false) => Ok(Node::Leader(node)),
                    Err(e) => Err(e),
                }
            },
        }
    }
}

impl<E: Engine, S: State> RawNode<Leader, E, S> {
    /// Takes a message of the current term.
    fn step_in_term(self, msg: Envelope, timeout: Ticks) -> (r: Result<Node<E, S>>)
        requires
            self.wf(),
            msg.term == self.base().term(),
            leader_takes(self.base(), self.role@, msg@),
        ensures
            leader_is_quiet(self.role@, msg@) ==> r is Ok,
            is_binding(msg@.message, self.base().log.fsync) && r is Ok ==> self.answers_durably(
                &r->Ok_0,
            ),
            exists|storage: std::result::Result<StorageStatusView, ErrorView>|
                is_report(storage, self.log.reported(), self.reliable()) && steps_to(
                    r,
                    #[trigger] leader_step(self.base(), self.role@, msg@, timeout, storage),
                    self.reliable(),
                    risks(self.view(), msg@),
                    self.view(),
                    msg@,
                ),
    {
        let mut node = self;
        let ghost none = Ok::<StorageStatusView, ErrorView>(self.log.reported());
        let ghost expected = leader_step(self.base(), self.role@, msg@, timeout, none);
        let from = msg.from;
        let known = node.role.progress.contains_key(&from);
        match msg.message {
            Message::HeartbeatResponse { match_index, read_seq } => {
                if !known {
                    return Ok(Node::Leader(node));
                }
                match node.step_heartbeat_response(from, match_index, read_seq) {
                    Ok(step_down) => node.conclude(step_down, timeout),
                    Err(e) => Err(e),
                }
            },
            Message::AppendResponse { match_index, reject_index } => {
                if !known {
                    return Ok(Node::Leader(node));
                }
                if match_index > 0 {
                    match node.step_match(from, match_index) {
                        Ok(step_down) => node.conclude(step_down, timeout),
                        Err(e) => Err(e),
                    }
                } else {
                    match node.step_reject(from, reject_index) {
                        Ok(()) => Ok(Node::Leader(node)),
                        Err(e) => Err(e),
                    }
                }
            },
            Message::ReadResponse { seq } => {
                if !known {
                    return Ok(Node::Leader(node));
                }
                node.note_peer_response(from);
                assert(node.role@.peer_seen.dom() =~= self.role@.peer_seen.dom());
                proof {
                    lemma_confirming(node.led(None), from, seq);
                }
                node.confirm(from, seq);
                Ok(Node::Leader(node))
            },
            Message::InstallSnapshotResponse { last_included_index } => {
                if !known {
                    return Ok(Node::Leader(node));
                }
                match node.step_match(from, last_included_index) {
                    Ok(step_down) => node.conclude(step_down, timeout),
                    Err(e) => Err(e),
                }
            },
            Message::ClientRequest { id, request } => {
                let ghost asked = request@;
                let r = node.step_request(from, id, request, timeout);
                proof {
                    let storage = choose|storage: std::result::Result<
                        StorageStatusView,
                        ErrorView,
                    >|
                        is_report(storage, self.log.reported(), self.reliable()) && steps_to(
                            r,
                            #[trigger] answering(self.led(None), from, id, asked, storage, timeout),
                            self.reliable(),
                            asked matches RequestView::ChangeMembership { voters }
                                && self.led(None).change_refused(voters) is None,
                            self.view(),
                            request_to(self, from, id, asked),
                        );
                    let expected = leader_step(self.base(), self.role@, msg@, timeout, storage);
                }
                r
            },
            Message::Campaign { .. } => {
                node.send(from, Message::CampaignResponse { vote: false });
                Ok(Node::Leader(node))
            },
            _ => Ok(Node::Leader(node)),
        }
    }

    /// Takes a message. A later term makes the leader a follower first; pre-votes
    /// are refused, and messages of past terms are dropped.
    pub fn step(self, msg: Envelope, timeout: Ticks) -> (r: Result<Node<E, S>>)
        requires
            self.wf(),
            leader_admits(self.base(), self.role@, msg@),
        ensures
            is_quiet(self.view(), msg@) && is_known(self.base(), msg.from) ==> r is Ok,
            is_binding(msg@.message, self.base().log.fsync) && r is Ok ==> self.answers_durably(
                &r->Ok_0,
            ),
            exists|storage: std::result::Result<StorageStatusView, ErrorView>|
                is_report(storage, self.log.reported(), self.reliable()) && steps_to(
                    r,
                    #[trigger] leader_receives(self.base(), self.role@, msg@, timeout, storage),
                    self.reliable(),
                    risks(self.view(), msg@),
                    self.view(),
                    msg@,
                ),
    {
        let ghost none = Ok::<StorageStatusView, ErrorView>(self.log.reported());
        let ghost expected = leader_receives(self.base(), self.role@, msg@, timeout, none);
        match &msg.message {
            Message::PreCampaign { .. } => {
                let mut node = self;
                node.send(msg.from, Message::PreCampaignResponse { vote: false });
                return Ok(Node::Leader(node));
            },
            Message::PreCampaignResponse { .. } => {
                return Ok(Node::Leader(self));
            },
            _ => {},
        }
        let term = self.term();
        if msg.term < term {
            return Ok(Node::Leader(self));
        }
        if msg.term > term {
            let node = match self.into_follower(msg.term, timeout) {
                Ok(node) => node,
                Err(e) => return Err(e),
            };
            match node.step_in_term(msg) {
                Ok(node) => Ok(Node::Follower(node)),
                Err(e) => Err(e),
            }
        } else {
            let r = self.step_in_term(msg, timeout);
            proof {
                let storage = choose|storage: std::result::Result<StorageStatusView, ErrorView>|
                    is_report(storage, self.log.reported(), self.reliable()) && steps_to(
                        r,
                        #[trigger] leader_step(self.base(), self.role@, msg@, timeout, storage),
                        self.reliable(),
                        risks(self.view(), msg@),
                    self.view(),
                    msg@,
                    );
                let expected = leader_receives(self.base(), self.role@, msg@, timeout, storage);
            }
            r
        }
    }

    /// Takes a tick: sends a heartbeat when one is due, and steps down if no
    /// quorum was heard from for too long.
    pub fn tick(self, timeout: Ticks) -> (r: Result<Node<E, S>>)
        requires
            self.wf(),
        ensures
            r is Ok,
            ends_with(
                r,
                Ok(leader_ticks(self.base(), self.role@, timeout)),
                self.reliable(),
            ),
    {
        let mut node = self;
        node.count_silence();
        assert(node.role@.peer_seen.dom() =~= self.role@.peer_seen.dom());
        node.role.since_heartbeat = node.role.since_heartbeat + 1;
        let ghost role = node.role@;
        if node.role.since_heartbeat >= node.opts.heartbeat_interval {
            node.heartbeat();
        }
        assert(node.wf());
        if node.opts.check_quorum && node.cluster_size() > 1 {
            let heard = node.heard_from();
            proof {
                let core = self.base();
                let expected = Set::new(
                    |peer: NodeID|
                        peer == core.id || (role.peer_seen.contains_key(peer)
                            && role.peer_seen[peer] < quorum_window(core.opts)),
                );
                assert(heard@ =~= expected);
            }
            if !node.membership.has_quorum(&heard) {
                let term = node.term();
                return match node.into_follower(term, timeout) {
                    Ok(node) => Ok(Node::Follower(node)),
                    Err(e) => Err(e),
                };
            }
        }
        Ok(Node::Leader(node))
    }

    /// Counts a tick of silence for every peer.
    fn count_silence(&mut self)
        requires
            old(self).sound(),
        ensures
            *final(self) == (RawNode { role: final(self).role, ..*old(self) }),
            final(self).role@ == (LeaderView {
                peer_seen: old(self).role@.peer_seen.map_values(
                    |seen: Ticks|
                        if seen < u8::MAX {
                            (seen + 1) as u8
                        } else {
                            seen
                        },
                ),
                ..old(self).role@
            }),
    {
        let ids = keys_of(&self.role.peer_seen);
        let ghost seen = self.role.peer_seen@;
        let mut counted: BTreeMap<NodeID, Ticks> = BTreeMap::new();
        let mut i: usize = 0;
        proof {
            lemma_ascending(seen.dom());
        }
        while i < ids.len()
            invariant
                i <= ids@.len(),
                *self == *old(self),
                seen == self.role.peer_seen@,
                ids@.to_set() == seen.dom(),
                counted@.dom() == ids@.take(i as int).to_set(),
                forall|id: NodeID| #[trigger]
                    counted@.contains_key(id) ==> counted@[id] == if seen[id] < u8::MAX {
                        seen[id] + 1
                    } else {
                        seen[id] as int
                    },
            decreases ids@.len() - i,
        {
            proof {
                lemma_take_to_set(ids@, i as int);
                assert(ids@.to_set().contains(ids@[i as int]));
            }
            let ticks = match self.role.peer_seen.get(&ids[i]) {
                Some(ticks) => *ticks,
                None => 0,
            };
            counted.insert(ids[i], ticks.saturating_add(1));
            assert(counted@.dom() =~= ids@.take(i + 1).to_set());
            i = i + 1;
        }
        assert(ids@.take(i as int) =~= ids@);
        self.role.peer_seen = counted;
        assert(self.role@.peer_seen =~= seen.map_values(
            |seen: Ticks|
                if seen < u8::MAX {
                    (seen + 1) as u8
                } else {
                    seen
                },
        ));
    }

    /// The peers that were heard from of late, and this node.
    fn heard_from(&self) -> (r: BTreeSet<NodeID>)
        ensures
            forall|peer: NodeID| #[trigger]
                r@.contains(peer) <==> peer == self.id || (self.role@.peer_seen.contains_key(peer)
                    && self.role@.peer_seen[peer] < quorum_window(self.opts)),
    {
        let window = self.election_timeout_max();
        let ids = keys_of(&self.role.peer_seen);
        let mut heard: BTreeSet<NodeID> = BTreeSet::new();
        heard.insert(self.id);
        let mut i: usize = 0;
        proof {
            lemma_ascending(self.role.peer_seen@.dom());
        }
        while i < ids.len()
            invariant
                i <= ids@.len(),
                ids@.to_set() == self.role.peer_seen@.dom(),
                window == quorum_window(self.opts),
                forall|peer: NodeID| #[trigger]
                    heard@.contains(peer) <==> peer == self.id || (ids@.take(i as int).contains(
                        peer,
                    ) && self.role.peer_seen@[peer] < window),
            decreases ids@.len() - i,
        {
            proof {
                lemma_take_to_set(ids@, i as int);
                assert(ids@.to_set().contains(ids@[i as int]));
                assert forall|peer: NodeID| #[trigger]
                    ids@.take(i + 1).contains(peer) <==> ids@.take(i as int).contains(peer) || peer
                        == ids@[i as int] by {
                    assert(ids@.take(i + 1).to_set().contains(peer) == ids@.take(
                        i as int,
                    ).to_set().insert(ids@[i as int]).contains(peer));
                }
            }
            match self.role.peer_seen.get(&ids[i]) {
                Some(seen) => {
                    if *seen < window {
                        heard.insert(ids[i]);
                    }
                },
                None => {},
            }
            i = i + 1;
        }
        proof {
            assert(ids@.take(i as int) =~= ids@);
            assert forall|peer: NodeID| #[trigger]
                heard@.contains(peer) <==> peer == self.id || (
                self.role@.peer_seen.contains_key(peer) && self.role@.peer_seen[peer]
                    < quorum_window(self.opts)) by {
                assert(ids@.to_set().contains(peer) == ids@.contains(peer));
            }
        }
        heard
    }
}

impl<E: Engine, S: State> RawNode<Candidate, E, S> {
    /// Takes office: appends an empty entry to commit what precedes it, and sends
    /// a heartbeat.
    pub fn into_leader(self) -> (r: Result<RawNode<Leader, E, S>>)
        requires
            self.sound(),
            self.base().log.term > 0,
            can_win(self.base()),
        ensures
            match r {
                Ok(node) => {
                    &&& node.wf()
                    &&& node.reliable() == self.reliable()
                    &&& winning(self.base()) == Ok::<NodeView<S>, ErrorView>(node.view())
                },
                Err(e) => self.reliable() ==> winning(self.base()) == Err::<
                    NodeView<S>,
                    ErrorView,
                >(e@),
            },
    {
        let peers = self.peers();
        let (last_index, _) = self.log.get_last_index();
        let ghost start = self.base();
        let mut node = self.into_role(Leader::new(&peers, last_index));
        let ghost fresh = node.led(None);
        proof {
            node.log.lemma_bounds();
            assert(fresh.role.progress.dom() =~= fresh.core.peers());
            assert(fresh.role.peer_seen.dom() =~= fresh.core.peers());
            assert(fresh.is_leading());
            lemma_first_proposal(fresh);
        }
        match node.propose(None) {
            Ok(_) => {},
            Err(e) => return Err(e),
        }
        match node.maybe_commit_and_apply() {
            Ok(_) => {},
            Err(e) => return Err(e),
        }
        node.heartbeat();
        Ok(node)
    }
}

/// Proposing makes a new leader's log end in its term.
proof fn lemma_first_proposal<S: State>(led: Led<S>)
    ensures
        ({
            let after = led.proposing(None);
            &&& after.core == (Core {
                log: led.core.log.appending(None, None),
                out: after.core.out,
                ..led.core
            })
            &&& after.role == (LeaderView { progress: after.role.progress, ..led.role })
            &&& after.role.progress.dom() == led.role.progress.dom()
            &&& after.core.log.last_term() == after.core.log.term
        }),
{
    let appended = Led {
        core: Core { log: led.core.log.appending(None, None), ..led.core },
        ..led
    };
    lemma_replicating_keeps(
        appended,
        ascending(appended.core.peers()),
        appended.core.log.last_index() as u64,
    );
}

/// The reads that wait, as requests to abort.
fn reads_of(reads: &VecDeque<Read>) -> (r: Vec<(RequestID, NodeID)>)
    ensures
        r@ == waiting_reads(read_views(reads@)),
{
    let mut out: Vec<(RequestID, NodeID)> = Vec::new();
    let mut i: usize = 0;
    while i < reads.len()
        invariant
            i <= reads@.len(),
            out@.len() == i,
            forall|k: int| 0 <= k < i ==> #[trigger] out@[k] == (reads@[k].id, reads@[k].from),
        decreases reads@.len() - i,
    {
        out.push((reads[i].id, reads[i].from));
        i = i + 1;
    }
    assert(out@ =~= waiting_reads(read_views(reads@)));
    out
}

/// Confirming a read keeps everything but the progress, the reads and what was
/// sent.
pub(crate) proof fn lemma_confirming<S: State>(led: Led<S>, from: NodeID, seq: ReadSequence)
    ensures
        ({
            let after = led.confirming(from, seq);
            &&& after.core == (Core { out: after.core.out, ..led.core })
            &&& after.failed == led.failed
        }),
{
    let confirmed = led.with_progress(from, led.role.progress[from].advancing_read(seq));
    lemma_reading(confirmed);
}

/// Proposing a command keeps a leader settled.
proof fn lemma_proposing<S: State>(led: Led<S>, command: Option<Seq<u8>>)
    requires
        led.is_settled(),
    ensures
        ({
            let after = led.proposing(command);
            &&& after.core == (Core {
                log: led.core.log.appending(command, None),
                out: after.core.out,
                ..led.core
            })
            &&& after.role == (LeaderView { progress: after.role.progress, ..led.role })
            &&& after.role.progress.dom() == led.role.progress.dom()
            &&& after.core.log.last_term() == after.core.log.term
        }),
{
    let appended = Led {
        core: Core { log: led.core.log.appending(command, None), ..led.core },
        ..led
    };
    lemma_replicating_keeps(
        appended,
        ascending(appended.core.peers()),
        appended.core.log.last_index() as u64,
    );
}

/// What may be committed depends on the log, the membership and the progress.
pub(crate) proof fn lemma_same_target<S: State>(a: Led<S>, b: Led<S>, index: int)
    requires
        a.core == b.core,
        a.role.progress == b.role.progress,
    ensures
        a.commit_target(index) == b.commit_target(index),
    decreases index,
{
    if index > a.core.log.commit_index {
        assert(a.matched_at(index) =~= b.matched_at(index));
        lemma_same_target(a, b, index - 1);
    }
}

/// A change keeps a leader settled.
proof fn lemma_changing<S: State>(led: Led<S>, change: MembershipView)
    requires
        led.is_settled(),
        led.failed is None,
    ensures
        ({
            let after = led.changing(change);
            &&& after.role.progress.dom() == after.core.peers()
            &&& after.role.peer_seen.dom() == after.core.peers()
            &&& after.core.log == led.core.log.appending(None, Some(change))
            &&& after.core.log.last_term() == after.core.log.term
            &&& after.core.log.last_index() == led.core.log.last_index() + 1
            &&& after.core.state == led.core.state
            &&& after.core.opts == led.core.opts
            &&& after.core.id == led.core.id
            &&& after.role.since_heartbeat == led.role.since_heartbeat
        }),
{
    let synced = Led {
        core: Core {
            log: led.core.log.appending(None, Some(change)),
            membership: led.core.membership.applying(change),
            ..led.core
        },
        ..led
    }.syncing();
    assert(synced.role.progress.dom() =~= synced.core.peers());
    assert(synced.role.peer_seen.dom() =~= synced.core.peers());
    lemma_replicating_keeps(
        synced,
        ascending(synced.core.peers()),
        synced.core.log.last_index() as u64,
    );
}

/// Matching the progress with the membership keeps it fitting the log.
proof fn lemma_syncing<S: State>(led: Led<S>)
    requires
        led.is_leading(),
    ensures
        led.syncing().is_leading(),
        led.syncing().role.progress.dom() == led.core.peers(),
        led.syncing().role.peer_seen.dom() == led.core.peers(),
{
    let synced = led.syncing();
    assert(synced.role.progress.dom() =~= led.core.peers());
    assert(synced.role.peer_seen.dom() =~= led.core.peers());
}

/// A joint configuration adds one entry, a single one none.
proof fn lemma_settling_length<S: State>(led: Led<S>, change: MembershipView)
    requires
        led.is_settled(),
        led.failed is None,
    ensures
        led.settling(change).core.log.last_index() == led.core.log.last_index() + if change is Joint {
            1int
        } else {
            0int
        },
{
    match change {
        MembershipView::Joint { old, new } => {
            lemma_changing(led, MembershipView::Simple(new));
        },
        MembershipView::Simple(_) => {},
    }
}

/// The count of joint configurations grows with the list.
proof fn lemma_joint_count(changes: Seq<MembershipView>, n: int)
    requires
        0 <= n <= changes.len(),
    ensures
        joint_count(changes.take(n)) <= joint_count(changes),
    decreases changes.len() - n,
{
    if n == changes.len() {
        assert(changes.take(n) =~= changes);
    } else {
        assert(changes.take(n + 1).drop_last() =~= changes.take(n));
        lemma_joint_count(changes, n + 1);
    }
}

/// A failure ends the settling.
proof fn lemma_settling_stops<S: State>(led: Led<S>, changes: Seq<MembershipView>, n: int)
    requires
        0 <= n <= changes.len(),
        led.settling_all(changes.take(n)).0.failed is Some,
    ensures
        led.settling_all(changes).0 == led.settling_all(changes.take(n)).0,
    decreases changes.len() - n,
{
    if n == changes.len() {
        assert(changes.take(n) =~= changes);
    } else {
        assert(changes.take(n + 1).drop_last() =~= changes.take(n));
        lemma_settling_stops(led, changes, n + 1);
    }
}

/// Settling leaves the state, the parameters and the committed log as they are.
pub(crate) proof fn lemma_settling_all<S: State>(led: Led<S>, changes: Seq<MembershipView>)
    ensures
        ({
            let after = led.settling_all(changes).0;
            &&& after.core.state == led.core.state
            &&& after.core.opts == led.core.opts
            &&& after.core.id == led.core.id
            &&& after.core.log.term == led.core.log.term
            &&& after.core.log.first_index == led.core.log.first_index
            &&& after.core.log.snapshot_term == led.core.log.snapshot_term
            &&& after.core.log.commit_index == led.core.log.commit_index
            &&& after.core.log.commit_term == led.core.log.commit_term
        }),
    decreases changes.len(),
{
    if changes.len() > 0 {
        lemma_settling_all(led, changes.drop_last());
        let before = led.settling_all(changes.drop_last()).0;
        match changes.last() {
            MembershipView::Joint { old, new } => {
                let change = MembershipView::Simple(new);
                let synced = Led {
                    core: Core {
                        log: before.core.log.appending(None, Some(change)),
                        membership: before.core.membership.applying(change),
                        ..before.core
                    },
                    ..before
                }.syncing();
                lemma_replicating_keeps(
                    synced,
                    ascending(synced.core.peers()),
                    synced.core.log.last_index() as u64,
                );
            },
            MembershipView::Simple(_) => {},
        }
    }
}

/// What may be committed is in the log, after the commit index.
pub(crate) proof fn lemma_commit_target<S: State>(led: Led<S>, index: int)
    requires
        index <= led.core.log.last_index() <= u64::MAX,
    ensures
        led.commit_target(index) <= led.core.log.commit_index || led.core.log.commit_index
            < led.commit_target(index) <= index,
    decreases index,
{
    if index > led.core.log.commit_index && !led.committable(index) {
        lemma_commit_target(led, index - 1);
    }
}

/// Reading changes nothing but what was sent and the reads that wait.
pub(crate) proof fn lemma_serving<S: State>(led: Led<S>)
    ensures
        led.serving().core == (Core { out: led.serving().core.out, ..led.core }),
        led.serving().role == (LeaderView { reads: led.serving().role.reads, ..led.role }),
        led.serving().failed == led.failed,
    decreases led.role.reads.len(),
{
    if led.role.reads.len() > 0 && led.is_confirmed(led.role.reads[0].seq) {
        let read = led.role.reads[0];
        lemma_serving(
            Led {
                core: led.core.sending(
                    read.from,
                    MessageView::ClientResponse {
                        id: read.id,
                        response: got(S::reading(led.core.state, read.command)),
                    },
                ),
                role: LeaderView { reads: led.role.reads.skip(1), ..led.role },
                ..led
            },
        );
    }
}

pub(crate) proof fn lemma_reading<S: State>(led: Led<S>)
    ensures
        led.reading().core == (Core { out: led.reading().core.out, ..led.core }),
        led.reading().role == (LeaderView { reads: led.reading().role.reads, ..led.role }),
        led.reading().failed == led.failed,
{
    lemma_serving(led);
}

/// Applying changes the state, the answers and the pending change, nothing else.
pub(crate) proof fn lemma_applying_all<S: State>(led: Led<S>, entries: Seq<EntryView>)
    ensures
        ({
            let after = led.applying_all(entries);
            &&& after.core.log == led.core.log
            &&& after.core.opts == led.core.opts
            &&& after.core.id == led.core.id
            &&& after.core.membership.active == led.core.membership.active
            &&& after.role.progress == led.role.progress
            &&& after.role.peer_seen == led.role.peer_seen
            &&& after.role.reads == led.role.reads
            &&& after.role.read_seq == led.role.read_seq
            &&& after.role.since_heartbeat == led.role.since_heartbeat
            &&& after.failed == led.failed
        }),
    decreases entries.len(),
{
    if entries.len() > 0 {
        lemma_applying_all(led, entries.drop_last());
    }
}

/// Applying entries up to `target` counts none after it as applied.
pub(crate) proof fn lemma_applied_bound<S: State>(led: Led<S>, entries: Seq<EntryView>, target: int)
    requires
        forall|k: int| 0 <= k < entries.len() ==> (#[trigger] entries[k]).index <= target,
    ensures
        led.core.applied() <= target ==> led.applying_all(entries).core.applied() <= target,
        entries.len() == 0 ==> led.applying_all(entries) == led,
    decreases entries.len(),
{
    if entries.len() > 0 {
        let before = led.applying_all(entries.drop_last());
        assert forall|k: int| 0 <= k < entries.drop_last().len() implies (
        #[trigger] entries.drop_last()[k]).index <= target by {
            assert(entries.drop_last()[k] == entries[k]);
        }
        lemma_applied_bound(led, entries.drop_last(), target);
        let entry = entries.last();
        S::applied_in_order(before.core.state, entry);
        S::applied_in_order(
            before.core.state,
            EntryView { command: None, membership: None, ..entry },
        );
    }
}

/// The views of membership changes.
pub open spec fn change_views(changes: Seq<MembershipEntry>) -> Seq<MembershipView> {
    changes.map_values(|change: MembershipEntry| change@)
}

/// Sending to a peer changes nothing but its progress and what was sent.
pub(crate) proof fn lemma_sending_keeps<S: State>(led: Led<S>, peer: NodeID, probe: bool)
    ensures
        ({
            let after = led.sending_append(peer, probe);
            &&& after.core == (Core { out: after.core.out, ..led.core })
            &&& after.role == (LeaderView { progress: after.role.progress, ..led.role })
            &&& after.role.progress.dom() == led.role.progress.dom()
            &&& after.failed is None ==> led.failed is None
        }),
{
    let after = led.sending_append(peer, probe);
    assert(after.role.progress.dom() =~= led.role.progress.dom());
}

/// Replicating changes nothing but the progress and what was sent.
pub(crate) proof fn lemma_replicating_keeps<S: State>(led: Led<S>, peers: Seq<NodeID>, index: Index)
    ensures
        ({
            let after = led.replicating(peers, index);
            &&& after.core == (Core { out: after.core.out, ..led.core })
            &&& after.role == (LeaderView { progress: after.role.progress, ..led.role })
            &&& after.role.progress.dom() == led.role.progress.dom()
        }),
    decreases peers.len(),
{
    if peers.len() > 0 {
        lemma_replicating_keeps(led, peers.drop_last(), index);
        lemma_sending_keeps(led.replicating(peers.drop_last(), index), peers.last(), false);
    }
}

/// A failure to send ends the replication.
proof fn lemma_replicating_stops<S: State>(led: Led<S>, peers: Seq<NodeID>, n: int, index: Index)
    requires
        0 <= n <= peers.len(),
        led.replicating(peers.take(n), index).failed is Some,
    ensures
        led.replicating(peers, index) == led.replicating(peers.take(n), index),
    decreases peers.len() - n,
{
    if n == peers.len() {
        assert(peers.take(n) =~= peers);
    } else {
        assert(peers.take(n + 1).drop_last() =~= peers.take(n));
        lemma_replicating_stops(led, peers, n + 1, index);
    }
}

/// An appended entry is not committed, and the log goes on to end in the current
/// term.
proof fn lemma_appended<S: State>(before: Core<S>, after: Core<S>)
    requires
        before.is_writable(),
        before.log.commit_index <= before.log.last_index(),
        after.log.entries.len() == before.log.entries.len() + 1,
        after.log.entries.drop_last() == before.log.entries,
        after.log.entries.last().index == before.log.last_index() + 1,
        after.log.commit_index == before.log.commit_index,
    ensures
        after.is_writable(),
{
    assert forall|k: int|
        0 <= k < after.log.entries.len() && (#[trigger] after.log.entries[k]).index
            <= after.log.commit_index implies super::model::takes_entry::<S>(
        after.log.entries[k],
    ) by {
        if k < before.log.entries.len() {
            assert(after.log.entries.drop_last()[k] == before.log.entries[k]);
        }
    }
}

/// The first `limit` entries from `low` on are those up to a limited index.
proof fn lemma_limited(log: LogView, low: int, high: int, limit: usize)
    requires
        log.first_index <= low,
        low <= log.last_index(),
        limit > 0,
        high == if low + limit - 1 < log.last_index() {
            low + limit - 1
        } else {
            log.last_index()
        },
    ensures
        log.slice(low, high) == if log.slice(low, log.last_index()).len() <= limit {
            log.slice(low, log.last_index())
        } else {
            log.slice(low, log.last_index()).take(limit as int)
        },
{
    lemma_slice(log, low, high);
    lemma_slice(log, low, log.last_index());
    if log.slice(low, log.last_index()).len() > limit {
        assert(log.slice(low, high) =~= log.slice(low, log.last_index()).take(limit as int));
    }
}

} // verus!
