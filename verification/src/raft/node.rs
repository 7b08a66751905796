//! A Raft node: what all roles have in common.

use std::collections::{BTreeSet, HashSet};

use vstd::prelude::*;

use super::candidate::Candidate;
use super::entry::{EntryView, Index, Term};
use super::follower::Follower;
use super::ids::{ascending, ids_of, ordered, NodeID};
use super::leader::{ends_with, steps_to, Leader};
use super::log::{reads_entries, Log};
use super::membership::{MembershipEntry, MembershipState};
use super::message::{envelope_views, Envelope, EnvelopeView, Message, RequestID};
use super::model::{
    abort, admits, apply_all, applying_committed, becoming_candidate, can_start, can_tick,
    is_binding, is_known, is_last_change, is_quiet, is_quiet_tick, is_risky, is_same_log,
    last_membership, leader_receives, new_follower, opened, own_peer, quorum_window, risks,
    starting, stepping, takes_entry, ticking, Core, NodeView, Options, Ticks,
};
use super::state::State;
use crate::error::{Error, ErrorView, Result};
use crate::storage::engine::{is_report, Engine, StatusView};
use crate::text::decimal_text;

verus! {

/// The role of a node.
pub trait Role {

}

/// A node in some role.
pub struct RawNode<R: Role, E: Engine, S: State> {
    pub id: NodeID,
    pub membership: MembershipState,
    pub log: Log<E>,
    pub state: S,
    /// The messages sent and not yet taken away.
    pub outbox: Vec<Envelope>,
    pub opts: Options,
    pub role: R,
}

/// A Raft node. It is driven by [`Node::step`] and [`Node::tick`]; what it sends
/// waits in its outbox.
pub enum Node<E: Engine, S: State> {
    Candidate(RawNode<Candidate, E, S>),
    Follower(RawNode<Follower, E, S>),
    Leader(RawNode<Leader, E, S>),
}

impl<E: Engine, S: State> Node<E, S> {
    pub open spec fn view(&self) -> NodeView<S> {
        match self {
            Node::Candidate(node) => node.view(),
            Node::Follower(node) => node.view(),
            Node::Leader(node) => node.view(),
        }
    }

    pub open spec fn wf(&self) -> bool {
        match self {
            Node::Candidate(node) => node.wf(),
            Node::Follower(node) => node.wf(),
            Node::Leader(node) => node.wf(),
        }
    }

    /// What the storage engine reports of itself.
    pub open spec fn reported(&self) -> StatusView {
        match self {
            Node::Candidate(node) => node.log.reported(),
            Node::Follower(node) => node.log.reported(),
            Node::Leader(node) => node.log.reported(),
        }
    }

    /// Whether the storage medium has everything that was written.
    pub open spec fn is_flushed(&self) -> bool {
        match self {
            Node::Candidate(node) => node.log.is_flushed(),
            Node::Follower(node) => node.log.is_flushed(),
            Node::Leader(node) => node.log.is_flushed(),
        }
    }

    /// Whether no storage operation fails.
    pub open spec fn reliable(&self) -> bool {
        match self {
            Node::Candidate(node) => node.reliable(),
            Node::Follower(node) => node.reliable(),
            Node::Leader(node) => node.reliable(),
        }
    }
}

impl<E: Engine, S: State> RawNode<Follower, E, S> {
    /// A follower that has what its log holds committed applied.
    pub(crate) fn new(
        id: NodeID,
        peers: HashSet<NodeID>,
        log: Log<E>,
        state: S,
        opts: Options,
        timeout: Ticks,
    ) -> (r: Result<RawNode<Follower, E, S>>)
        requires
            log.wf(),
            state.wf(),
            opts.election_timeout_range.start < opts.election_timeout_range.end,
            !peers@.contains(id) ==> opened::<S>(
                id,
                peers@,
                log@,
                state.model(),
                opts,
            ).is_writable(),
        ensures
            match r {
                Ok(node) => {
                    &&& node.wf()
                    &&& node.reliable() == log.reliable()
                    &&& !peers@.contains(id)
                    &&& node.base() == applying_committed(
                        opened::<S>(id, peers@, log@, state.model(), opts),
                    )
                    &&& node.role@ == new_follower(None, timeout)
                },
                Err(e) => log.reliable() ==> peers@.contains(id) && e@ == own_peer(id),
            },
    {
        broadcast use {
            vstd::std_specs::btree::group_btree_axioms,
            vstd::std_specs::hash::group_hash_axioms,
        };

        if peers.contains(&id) {
            let mut text = "node ID ".to_string();
            text.append(decimal_text(id as u64).as_str());
            text.append(" can't be in peers");
            return Err(Error::InvalidInput(text));
        }
        let initial = ordered(&peers);
        let membership = MembershipState::bootstrap(id, initial);
        let mut node = RawNode {
            id,
            membership,
            log,
            state,
            outbox: Vec::new(),
            opts,
            role: Follower::new(None, timeout),
        };
        match node.restore_membership_from_log() {
            Ok(()) => {},
            Err(e) => return Err(e),
        }
        proof {
            assert(envelope_views(node.outbox@) =~= seq![]);
            assert(node.base() == opened::<S>(id, peers@, log@, state.model(), opts));
        }
        match node.maybe_apply() {
            Ok(()) => {},
            Err(e) => return Err(e),
        }
        Ok(node)
    }

    /// Adopts the latest membership of the log. A change is pending unless the
    /// log ends it with a committed simple membership.
    pub(crate) fn restore_membership_from_log(&mut self) -> (r: Result<()>)
        requires
            old(self).log.wf(),
        ensures
            final(self).log.wf(),
            final(self).log@ == old(self).log@,
            final(self).log.reliable() == old(self).log.reliable(),
            final(self).log.same(&old(self).log),
            final(self).log.reported() == old(self).log.reported(),
            match r {
                Ok(()) => *final(self) == (RawNode {
                    membership: final(self).membership,
                    log: final(self).log,
                    ..*old(self)
                }) && final(self).membership@ == match old(self).log@.latest_membership() {
                    Some((index, change)) => last_membership(
                        index,
                        change,
                        old(self).log@.commit_index,
                    ),
                    None => old(self).membership@,
                },
                Err(_) => !old(self).log.reliable(),
            },
    {
        match self.log.latest_membership() {
            Ok(Some((index, change))) => {
                self.membership.apply_entry(&change);
                let (commit, _) = self.log.get_commit_index();
                if let MembershipEntry::Simple(_) = &change {
                    if index <= commit {
                        self.membership.change_pending = false;
                    }
                }
                Ok(())
            },
            Ok(None) => Ok(()),
            Err(e) => Err(e),
        }
    }
}

impl<E: Engine, S: State> Node<E, S> {
    /// Starts a node, with a random election timeout. `peers` are the initial
    /// voters other than the node itself.
    pub fn new(
        id: NodeID,
        peers: HashSet<NodeID>,
        log: Log<E>,
        state: S,
        opts: Options,
    ) -> (r: Result<Node<E, S>>)
        requires
            log.wf(),
            state.wf(),
            can_start::<S>(id, peers@, log@, state.model(), opts),
        ensures
            exists|timeout: Ticks|
                opts.election_timeout_range.start <= timeout < opts.election_timeout_range.end
                    && ends_with(
                    r,
                    #[trigger] starting::<S>(id, peers@, log@, state.model(), opts, timeout),
                    log.reliable(),
            ),
    {
        let timeout = random_election_timeout(
            opts.election_timeout_range.start,
            opts.election_timeout_range.end,
        );
        Node::new_with(id, peers, log, state, opts, timeout)
    }

    /// Starts a node with a given election timeout. A node that is alone leads at
    /// once.
    pub fn new_with(
        id: NodeID,
        peers: HashSet<NodeID>,
        log: Log<E>,
        state: S,
        opts: Options,
        timeout: Ticks,
    ) -> (r: Result<Node<E, S>>)
        requires
            log.wf(),
            state.wf(),
            can_start::<S>(id, peers@, log@, state.model(), opts),
        ensures
            ends_with(
                r,
                starting::<S>(id, peers@, log@, state.model(), opts, timeout),
                log.reliable(),
            ),
    {
        let node = match RawNode::new(id, peers, log, state, opts, timeout) {
            Ok(node) => node,
            Err(e) => return Err(e),
        };
        if node.cluster_size() != 1 {
            return Ok(Node::Follower(node));
        }
        proof {
            let ready = node.base();
            assert(becoming_candidate(ready, new_follower(None, timeout), false, timeout).0
                == becoming_candidate(ready, new_follower(None, 0), false, 0).0);
        }
        match node.into_candidate(false, timeout) {
            Ok(node) => match node.into_leader() {
                Ok(node) => Ok(Node::Leader(node)),
                Err(e) => Err(e),
            },
            Err(e) => Err(e),
        }
    }

    /// The node's own ID.
    pub fn id(&self) -> (r: NodeID)
        ensures
            r == self.view().base().id,
    {
        match self {
            Node::Candidate(node) => node.id,
            Node::Follower(node) => node.id,
            Node::Leader(node) => node.id,
        }
    }

    /// The current term.
    pub fn term(&self) -> (r: Term)
        ensures
            r == self.view().base().term(),
    {
        match self {
            Node::Candidate(node) => node.term(),
            Node::Follower(node) => node.term(),
            Node::Leader(node) => node.term(),
        }
    }

    /// The voters of the membership in force, the node included if it is one.
    pub fn voters(&self) -> (r: BTreeSet<NodeID>)
        ensures
            r@ == self.view().base().voters(),
    {
        match self {
            Node::Candidate(node) => node.membership.all_voters(),
            Node::Follower(node) => node.membership.all_voters(),
            Node::Leader(node) => node.membership.all_voters(),
        }
    }

    /// Takes away the messages that the node has sent, in the order in which it
    /// sent them.
    pub fn take_messages(&mut self) -> (r: Vec<Envelope>)
        ensures
            envelope_views(r@) == old(self).view().base().out,
            final(self).view() == old(self).view().silenced(),
            final(self).wf() == old(self).wf(),
            final(self).reliable() == old(self).reliable(),
    {
        let mut out: Vec<Envelope> = Vec::new();
        let ghost start = self.view();
        match self {
            Node::Candidate(node) => std::mem::swap(&mut node.outbox, &mut out),
            Node::Follower(node) => std::mem::swap(&mut node.outbox, &mut out),
            Node::Leader(node) => std::mem::swap(&mut node.outbox, &mut out),
        }
        assert(self.view().base().out =~= seq![]);
        out
    }

    fn timeout_range(&self) -> (r: (Ticks, Ticks))
        requires
            self.wf(),
        ensures
            r.0 < r.1,
            r.0 == self.view().base().opts.election_timeout_range.start,
            r.1 == self.view().base().opts.election_timeout_range.end,
    {
        match self {
            Node::Candidate(node) => (
                node.opts.election_timeout_range.start,
                node.opts.election_timeout_range.end,
            ),
            Node::Follower(node) => (
                node.opts.election_timeout_range.start,
                node.opts.election_timeout_range.end,
            ),
            Node::Leader(node) => (
                node.opts.election_timeout_range.start,
                node.opts.election_timeout_range.end,
            ),
        }
    }

    /// Takes a message, with a random election timeout where the node becomes a
    /// follower or a candidate. A vote is durable before it goes out, and so are
    /// entries before they are acknowledged, unless flushing is turned off. If that
    /// fails the node is gone, and what it sent on the way with it.
    pub fn step(self, msg: Envelope) -> (r: Result<Node<E, S>>)
        requires
            self.wf(),
            admits(self.view(), msg@),
        ensures
            is_quiet(self.view(), msg@) ==> r is Ok,
            is_binding(msg@.message, self.view().base().log.fsync) && r is Ok
                ==> r->Ok_0.is_flushed() || is_same_log(
                self.view().base().log,
                r->Ok_0.view().base().log,
            ),
            exists|timeout: Ticks, storage: std::result::Result<StatusView, ErrorView>|
                self.view().draws(timeout) && is_report(
                    storage,
                    self.reported(),
                    self.reliable(),
                ) && steps_to(
                    r,
                    #[trigger] stepping(self.view(), msg@, timeout, storage),
                    self.reliable(),
                    is_risky(self.view(), msg@),
                self.view(),
                msg@,
                ),
    {
        let (start, end) = self.timeout_range();
        let timeout = random_election_timeout(start, end);
        self.step_with(msg, timeout)
    }

    /// Takes a message, with a given election timeout where the node becomes a
    /// follower or a candidate. What the storage engine reports of itself enters
    /// the answer to a status request, and nothing else.
    pub fn step_with(self, msg: Envelope, timeout: Ticks) -> (r: Result<Node<E, S>>)
        requires
            self.wf(),
            admits(self.view(), msg@),
        ensures
            is_quiet(self.view(), msg@) ==> r is Ok,
            is_binding(msg@.message, self.view().base().log.fsync) && r is Ok
                ==> r->Ok_0.is_flushed() || is_same_log(
                self.view().base().log,
                r->Ok_0.view().base().log,
            ),
            exists|storage: std::result::Result<StatusView, ErrorView>|
                is_report(storage, self.reported(), self.reliable()) && steps_to(
                    r,
                    #[trigger] stepping(self.view(), msg@, timeout, storage),
                    self.reliable(),
                    is_risky(self.view(), msg@),
                self.view(),
                msg@,
                ),
    {
        let ghost none = Ok::<StatusView, ErrorView>(self.reported());
        let ghost node = self.view();
        let ghost view = msg@;
        match self {
            Node::Candidate(raw) => {
                let ghost reached = stepping(node, view, timeout, none);
                if !raw.is_known_sender(msg.from) {
                    return Ok(Node::Candidate(raw));
                }
                raw.step(msg, timeout)
            },
            Node::Follower(raw) => {
                let ghost reached = stepping(node, view, timeout, none);
                if !raw.is_known_sender(msg.from) {
                    return Ok(Node::Follower(raw));
                }
                match raw.step(msg, timeout) {
                    Ok(raw) => Ok(Node::Follower(raw)),
                    Err(e) => Err(e),
                }
            },
            Node::Leader(raw) => {
                let ghost reached = stepping(node, view, timeout, none);
                let ghost core = raw.base();
                let ghost role = raw.role@;
                if !raw.is_known_sender(msg.from) {
                    return Ok(Node::Leader(raw));
                }
                let r = raw.step(msg, timeout);
                proof {
                    let storage = choose|storage: std::result::Result<StatusView, ErrorView>|
                        is_report(storage, raw.log.reported(), self.reliable()) && steps_to(
                            r,
                            #[trigger] leader_receives(core, role, view, timeout, storage),
                            self.reliable(),
                            risks(node, view),
                            node,
                            view,
                        );
                    assert(stepping(node, view, timeout, storage) == leader_receives(
                        core,
                        role,
                        view,
                        timeout,
                        storage,
                    ));
                }
                r
            },
        }
    }

    /// Takes a tick, with a random election timeout where an election starts or a
    /// leader steps down. The term of an election is durable before votes are asked
    /// for.
    pub fn tick(self) -> (r: Result<Node<E, S>>)
        requires
            self.wf(),
            can_tick(self.view()),
        ensures
            is_quiet_tick(self.view()) ==> r is Ok,
            r is Ok && r->Ok_0.view().base().term() != self.view().base().term()
                ==> r->Ok_0.is_flushed(),
            exists|timeout: Ticks|
                self.view().draws(timeout) && ends_with(
                    r,
                    Ok(#[trigger] ticking(self.view(), timeout)),
                    self.reliable(),
            ),
    {
        let (start, end) = self.timeout_range();
        let timeout = random_election_timeout(start, end);
        self.tick_with(timeout)
    }

    /// Takes a tick, with a given election timeout where an election starts or a
    /// leader steps down.
    pub fn tick_with(self, timeout: Ticks) -> (r: Result<Node<E, S>>)
        requires
            self.wf(),
            can_tick(self.view()),
        ensures
            is_quiet_tick(self.view()) ==> r is Ok,
            r is Ok && r->Ok_0.view().base().term() != self.view().base().term()
                ==> r->Ok_0.is_flushed(),
            ends_with(r, Ok(ticking(self.view(), timeout)), self.reliable(),
            ),
    {
        match self {
            Node::Candidate(node) => node.tick(timeout),
            Node::Follower(node) => node.tick(timeout),
            Node::Leader(node) => node.tick(timeout),
        }
    }
}

/// A random election timeout, by `rand::rng().random_range`: any of the range.
#[verifier::external_body]
pub(crate) fn random_election_timeout(start: Ticks, end: Ticks) -> (r: Ticks)
    requires
        start < end,
    ensures
        start <= r < end,
{
    rand::RngExt::random_range(&mut rand::rng(), start..end)
}

impl<R: Role, E: Engine, S: State> RawNode<R, E, S> {
    /// The node without its role.
    pub open spec fn base(&self) -> Core<S> {
        Core {
            id: self.id,
            membership: self.membership@,
            log: self.log@,
            state: self.state.model(),
            out: envelope_views(self.outbox@),
            opts: self.opts,
        }
    }

    /// The invariant of every node.
    pub open spec fn sound(&self) -> bool {
        &&& self.log.wf()
        &&& self.state.wf()
        &&& self.opts.election_timeout_range.start < self.opts.election_timeout_range.end
        &&& self.base().is_writable()
    }

    pub open spec fn reliable(&self) -> bool {
        self.log.reliable()
    }

    /// Takes on another role.
    pub fn into_role<T: Role>(self, role: T) -> (r: RawNode<T, E, S>)
        ensures
            r.base() == self.base(),
            r.log == self.log,
            r.role == role,
            r.sound() == self.sound(),
            r.reliable() == self.reliable(),
    {
        RawNode {
            id: self.id,
            membership: self.membership,
            log: self.log,
            state: self.state,
            outbox: self.outbox,
            opts: self.opts,
            role,
        }
    }

    /// The current term.
    pub fn term(&self) -> (r: Term)
        ensures
            r == self.base().term(),
    {
        self.log.get_term_vote().0
    }

    /// Every voter but this node.
    pub fn peers(&self) -> (r: BTreeSet<NodeID>)
        ensures
            r@ == self.base().peers(),
    {
        self.membership.peers_of(self.id)
    }

    /// Whether the node takes messages from `from`.
    pub fn is_known_sender(&self, from: NodeID) -> (r: bool)
        ensures
            r == is_known(self.base(), from),
    {
        from == self.id || self.membership.all_voters().contains(&from)
    }

    /// The number of voters.
    pub fn cluster_size(&self) -> (r: usize)
        ensures
            r == self.base().voters().len(),
    {
        broadcast use vstd::std_specs::btree::group_btree_axioms;

        self.membership.all_voters().len()
    }

    /// The number of ticks after which a silent peer counts as lost.
    pub fn election_timeout_max(&self) -> (r: Ticks)
        ensures
            r == quorum_window(self.opts),
    {
        let window = self.opts.election_timeout_range.end.saturating_sub(1);
        if window < 1 {
            1
        } else {
            window
        }
    }

    /// Sends a message in the given term.
    pub fn send_in(&mut self, term: Term, to: NodeID, message: Message)
        ensures
            *final(self) == (RawNode { outbox: final(self).outbox, ..*old(self) }),
            final(self).outbox@ == old(self).outbox@.push(
                (Envelope { from: old(self).id, term, to, message }),
            ),
            final(self).base() == old(self).base().sending_in(term, to, message@),
            final(self).sound() == old(self).sound(),
    {
        let ghost before = self.outbox@;
        let envelope = Envelope { from: self.id, term, to, message };
        self.outbox.push(envelope);
        assert(envelope_views(self.outbox@) =~= envelope_views(before).push(envelope@));
    }

    /// Sends a message.
    pub fn send(&mut self, to: NodeID, message: Message)
        ensures
            *final(self) == (RawNode { outbox: final(self).outbox, ..*old(self) }),
            final(self).outbox@ == old(self).outbox@.push(
                (Envelope { from: old(self).id, term: old(self).base().term(), to, message }),
            ),
            final(self).base() == old(self).base().sending(to, message@),
            final(self).sound() == old(self).sound(),
    {
        let term = self.term();
        self.send_in(term, to, message);
    }

    /// Sends a message in the given term to every peer.
    pub fn broadcast_in(&mut self, term: Term, message: &Message)
        ensures
            *final(self) == (RawNode { outbox: final(self).outbox, ..*old(self) }),
            final(self).base() == old(self).base().sending_all(
                term,
                ascending(old(self).base().peers()),
                message@,
            ),
            final(self).sound() == old(self).sound(),
    {
        let peers = ids_of(&self.peers());
        let ghost node = *self;
        let ghost id = self.id;
        let ghost sent = peers@.map_values(
            |to: NodeID| EnvelopeView { from: id, term, to, message: message@ },
        );
        let ghost out = envelope_views(self.outbox@);
        assert(out + sent.take(0) =~= out);
        let mut i: usize = 0;
        while i < peers.len()
            invariant
                i <= peers@.len(),
                id == node.id,
                *self == (RawNode { outbox: self.outbox, ..node }),
                sent == peers@.map_values(
                    |to: NodeID| EnvelopeView { from: id, term, to, message: message@ },
                ),
                envelope_views(self.outbox@) == out + sent.take(i as int),
            decreases peers@.len() - i,
        {
            self.send_in(term, peers[i], message.clone());
            assert(out + sent.take(i + 1) =~= (out + sent.take(i as int)).push(sent[i as int]));
            i = i + 1;
        }
        assert(sent.take(i as int) =~= sent);
        assert(sent =~= peers@.map_values(
            |to: NodeID| EnvelopeView { from: node.base().id, term, to, message: message@ },
        ));
    }

    /// Sends a message to every peer.
    pub fn broadcast(&mut self, message: &Message)
        ensures
            *final(self) == (RawNode { outbox: final(self).outbox, ..*old(self) }),
            final(self).base() == old(self).base().broadcasting(message@),
            final(self).sound() == old(self).sound(),
    {
        let term = self.term();
        self.broadcast_in(term, message);
    }

    /// Aborts requests, in the given order.
    pub fn abort_all(&mut self, requests: &Vec<(RequestID, NodeID)>)
        ensures
            *final(self) == (RawNode { outbox: final(self).outbox, ..*old(self) }),
            final(self).base() == old(self).base().aborting(requests@),
            final(self).sound() == old(self).sound(),
    {
        let ghost node = *self;
        let ghost term = self.base().term();
        let ghost sent = requests@.map_values(
            |request: (RequestID, NodeID)| EnvelopeView {
                from: node.base().id,
                term: node.base().log.term,
                to: request.1,
                message: abort(request.0),
            },
        );
        let ghost out = envelope_views(self.outbox@);
        assert(out + sent.take(0) =~= out);
        let mut i: usize = 0;
        while i < requests.len()
            invariant
                i <= requests@.len(),
                *self == (RawNode { outbox: self.outbox, ..node }),
                sent == requests@.map_values(
                    |request: (RequestID, NodeID)| EnvelopeView {
                        from: node.base().id,
                        term: node.base().log.term,
                        to: request.1,
                        message: abort(request.0),
                    },
                ),
                envelope_views(self.outbox@) == out + sent.take(i as int),
            decreases requests@.len() - i,
        {
            let (id, to) = requests[i];
            self.send(to, Message::ClientResponse { id, response: Err(Error::Abort) });
            assert(out + sent.take(i + 1) =~= (out + sent.take(i as int)).push(sent[i as int]));
            i = i + 1;
        }
        assert(sent.take(i as int) =~= sent);
    }

    /// Whether the log has no membership change after `index`.
    pub(crate) fn is_last_change(&mut self, index: Index) -> (r: Result<bool>)
        requires
            old(self).log.wf(),
        ensures
            *final(self) == (RawNode { log: final(self).log, ..*old(self) }),
            final(self).log.wf(),
            final(self).log@ == old(self).log@,
            final(self).log.same(&old(self).log),
            final(self).log.reported() == old(self).log.reported(),
            final(self).log.reliable() == old(self).log.reliable(),
            match r {
                Ok(last) => last == is_last_change(old(self).log@, index),
                Err(_) => !old(self).log.reliable(),
            },
    {
        match self.log.latest_membership() {
            Ok(Some((last, _))) => Ok(last <= index),
            Ok(None) => Ok(true),
            Err(e) => Err(e),
        }
    }

    /// Applies the committed entries that were not applied yet.
    pub fn maybe_apply(&mut self) -> (r: Result<()>)
        requires
            old(self).sound(),
        ensures
            final(self).role == old(self).role,
            final(self).reliable() == old(self).reliable(),
            match r {
                Ok(()) => final(self).sound() && final(self).base() == applying_committed(
                    old(self).base(),
                ),
                Err(_) => !old(self).reliable(),
            },
    {
        let applied = self.state.get_applied_index();
        let mut iter = self.log.scan_apply(applied);
        let ghost all = self.base().log.slice(applied + 1, self.base().log.commit_index as int);
        let ghost start = self.base();
        let ghost mut done: int = 0;
        proof {
            self.log.lemma_bounds();
            lemma_slice_writable(start, applied + 1, start.log.commit_index as int);
            assert(all.skip(0) =~= all);
            assert(all.take(0) =~= seq![]);
        }
        loop
            invariant
                0 <= done <= all.len(),
                self.log.wf(),
                self.state.wf(),
                self.opts == old(self).opts,
                self.opts.election_timeout_range.start < self.opts.election_timeout_range.end,
                self.role == old(self).role,
                self.reliable() == old(self).reliable(),
                start.is_writable(),
                self.base() == (Core {
                    state: self.state.model(),
                    membership: self.membership@,
                    ..start
                }),
                (self.state.model(), self.membership@) == apply_all::<S>(
                    start.log,
                    start.state,
                    start.membership,
                    all.take(done),
                ),
                reads_entries(iter.items@, all.skip(done)),
                self.reliable() ==> forall|k: int|
                    0 <= k < iter.items@.len() ==> #[trigger] iter.items@[k] is Ok,
                forall|k: int| 0 <= k < all.len() ==> takes_entry::<S>(#[trigger] all[k]),
            ensures
                done == all.len(),
            decreases iter.items@.len(),
        {
            match iter.next() {
                None => {
                    break;
                },
                Some(Err(e)) => {
                    return Err(e);
                },
                Some(Ok(entry)) => {
                    proof {
                        assert(all.skip(done)[0] == all[done]);
                        assert(entry@ == all[done]);
                        assert(all.take(done + 1).drop_last() =~= all.take(done));
                        assert(all.take(done + 1).last() == all[done]);
                        lemma_reads_next(all, done);
                    }
                    match &entry.membership {
                        Some(change) => {
                            match self.is_last_change(entry.index) {
                                Ok(true) => {
                                    self.membership.on_commit(change);
                                },
                                Ok(false) => {},
                                Err(e) => return Err(e),
                            }
                        },
                        None => {},
                    }
                    let _ = self.state.apply(entry);
                    proof {
                        done = done + 1;
                    }
                },
            }
        }
        assert(all.take(done) =~= all);
        Ok(())
    }
}

proof fn lemma_reads_next(all: Seq<EntryView>, done: int)
    requires
        0 <= done < all.len(),
    ensures
        all.skip(done).skip(1) == all.skip(done + 1),
{
    assert(all.skip(done).skip(1) =~= all.skip(done + 1));
}

/// The state machine takes the committed entries of a slice.
pub proof fn lemma_slice_writable<S: State>(node: Core<S>, low: int, high: int)
    requires
        node.is_writable_to(high),
        forall|k: int|
            0 <= k < node.log.entries.len() ==> (#[trigger] node.log.entries[k]).index
                == node.log.first_index + k,
    ensures
        forall|k: int|
            0 <= k < node.log.slice(low, high).len() ==> takes_entry::<S>(
                #[trigger] node.log.slice(low, high)[k],
            ),
{
    let log = node.log;
    let from = if low < log.first_index { 0 } else { low - log.first_index };
    assert forall|k: int| 0 <= k < log.slice(low, high).len() implies takes_entry::<S>(
        #[trigger] log.slice(low, high)[k],
    ) by {
        assert(log.slice(low, high)[k] == log.entries[from + k]);
        assert(log.entries[from + k].index <= high);
    }
}

} // verus!
