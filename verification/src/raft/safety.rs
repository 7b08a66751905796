//! What holds of a whole cluster whose messages may be lost, delayed, reordered and
//! delivered again, and whose nodes may stop and start again.
//!
//! Not every message that a node takes is among those delivered: `World::delivers`
//! leaves out snapshots that cut off entries which may be the leader's, or that end
//! further on than what their receiver has committed but are not installed; and what
//! makes a leader commit a joint configuration that the last change in its log is not,
//! or does not follow. Nothing is said here of a cluster in which a node took one of
//! these.

use vstd::prelude::*;

use super::entry::{EntryView, Index, Term};
use super::history::{
    decisions_agree, lemma_commit, lemma_decided_in_reign, lemma_reign, lemma_share_at,
    lemma_share_less, rooted_logs_match, share, History,
};
use super::history_steps::{goes_on, is_same_inquiry, lemma_goes_on};
use super::ids::NodeID;
use super::log_laws::logs_match;
use super::membership::MembershipView;
use super::leader::lemma_reading;
use super::message::{EnvelopeView, MessageView, ReadSequence, RequestID, RequestView};
use super::model::{
    admits, applying_committed, can_start, can_tick, got, installs, is_known, opened, starting,
    stepping, ticking, Core, LeaderView, Led, NodeView, Options, ReadView, Ticks,
};
use super::restart::replay;
use super::runtime::recovered;
use super::state::State;
use super::world::{
    is_waiting, lemma_message_still_fits, lemma_others_still_fit, lemma_rest_at, message_fits,
    node_fits,
};
use super::world_steps::{
    all_fits, drops_entries, is_about, is_read, lemma_starting_fits, lemma_stepping_fits,
    lemma_ticking_fits, skips_entries, starts_in_order, steps_in_order,
};
use super::world_leaders::{
    answer_from, answers_fit, is_answer, is_current_for, lemma_decided_longer, Given,
};
use super::world_states::{
    asks_on, carries, is_replayable, is_state_of, leads_back, lemma_others_still_trace,
    lemma_still_carries, lemma_traces_new, lemma_traces_opened, lemma_traces_silenced, traces,
};
use crate::error::ErrorView;
use crate::storage::engine::StatusView;

verus! {

/// A cluster at one moment: its nodes, and every message that was ever sent.
#[verifier::ext_equal]
#[verifier::reject_recursive_types(S)]
pub ghost struct World<S: State> {
    /// The voters that the cluster started with.
    pub voters: Set<NodeID>,
    /// The state that every process starts with.
    pub init: S::Model,
    pub nodes: Map<NodeID, NodeView<S>>,
    pub sent: Set<EnvelopeView>,
}

impl<S: State> World<S> {
    /// After a node became `next` and its messages were taken away.
    pub open spec fn with(self, id: NodeID, next: NodeView<S>) -> World<S> {
        World {
            nodes: self.nodes.insert(id, next.silenced()),
            sent: self.sent.union(next.base().out.to_set()),
            ..self
        }
    }

    /// A cluster whose nodes have just started with empty logs.
    pub open spec fn is_new(self) -> bool {
        &&& self.sent == Set::<EnvelopeView>::empty()
        &&& forall|id: NodeID| #[trigger]
            self.nodes.contains_key(id) ==> {
                let core = self.nodes[id].base();
                &&& self.nodes[id] is Follower
                &&& core.id == id
                &&& core.state == self.init
                &&& core.membership.active == MembershipView::Simple(self.voters)
                &&& core.out == Seq::<EnvelopeView>::empty()
                &&& core.log.term == 0
                &&& core.log.vote is None
                &&& core.log.first_index == 1
                &&& core.log.snapshot_term == 0
                &&& core.log.entries == Seq::<EntryView>::empty()
                &&& core.log.commit_index == 0
                &&& core.log.commit_term == 0
                &&& core.log.kept_term is None
            }
    }

    /// Whether a message is a snapshot that its receiver would install although the
    /// receiver has the entry that it ends at, and more that may be the leader's: the
    /// leader is no longer in office, or is not seen to have another entry next.
    pub open spec fn drops_entries(self, msg: EnvelopeView) -> bool {
        let core = self.nodes[msg.to].base();
        let leader = self.nodes[msg.from].base();
        msg.message matches MessageView::InstallSnapshot {
            last_included_index,
            last_included_term,
            ..
        } && {
            let next = last_included_index + 1;
            &&& installs(core, last_included_index)
            &&& last_included_index < core.log.last_index()
            &&& core.log.has(last_included_index as int, last_included_term)
            &&& !(self.nodes.contains_key(msg.from) && self.nodes[msg.from] is Leader
                && leader.term() == msg.term && leader.log.holds(next) && core.log.holds(next)
                && leader.log.at(next).term != core.log.at(next).term)
        }
    }

    /// Whether a node can be handed a message: one that was sent, or one from a
    /// client. These do not arrive:
    ///
    /// - a snapshot that would be installed although its receiver has more entries that
    ///   may be the leader's, or that would not be although it ends after what its
    ///   receiver has committed;
    /// - what makes a leader commit a joint configuration when the last change in its
    ///   log is not that or its target, or is not committed with it.
    pub open spec fn delivers(self, msg: EnvelopeView) -> bool {
        &&& self.nodes.contains_key(msg.to)
        &&& self.sent.contains(msg) || msg.message is ClientRequest || msg.message is ClientResponse
        &&& admits(self.nodes[msg.to], msg)
        &&& !self.drops_entries(msg)
        &&& !skips_entries(self.nodes[msg.to].base(), msg.message)
        &&& steps_in_order(self.nodes[msg.to], msg)
    }

    /// Whether a node takes a message, and the cluster is `next` afterwards.
    pub open spec fn receives(
        self,
        next: World<S>,
        msg: EnvelopeView,
        timeout: Ticks,
        storage: std::result::Result<StatusView, ErrorView>,
    ) -> bool {
        &&& self.delivers(msg)
        &&& stepping(self.nodes[msg.to], msg, timeout, storage) matches Ok(node) && next
            == self.with(msg.to, node)
    }

    /// Whether time passes at a node, and the cluster is `next` afterwards.
    pub open spec fn ticks(self, next: World<S>, id: NodeID, timeout: Ticks) -> bool {
        &&& self.nodes.contains_key(id)
        &&& can_tick(self.nodes[id])
        &&& next == self.with(id, ticking(self.nodes[id], timeout))
    }

    /// Whether a node stopped and starts again with the log that it has and the state
    /// that its snapshot leads to, and the cluster is `next` afterwards. Where the log
    /// has no membership change, the node is told the voters that it had.
    pub open spec fn restarts(
        self,
        next: World<S>,
        id: NodeID,
        peers: Set<NodeID>,
        state: S::Model,
        opts: Options,
        timeout: Ticks,
    ) -> bool {
        let core = self.nodes[id].base();
        &&& self.nodes.contains_key(id)
        &&& recovered::<S>(core.log, self.init) == Ok::<S::Model, ErrorView>(state)
        &&& core.log.latest_membership() is None ==> core.membership.active
            == MembershipView::Simple(peers.insert(id))
        &&& can_start::<S>(id, peers, core.log, state, opts)
        &&& starts_in_order::<S>(id, peers, core.log, state, opts)
        &&& starting::<S>(id, peers, core.log, state, opts, timeout) matches Ok(node) && next
            == self.with(id, node)
    }

    /// Whether one thing happens, and the cluster is `next` afterwards.
    #[verifier::opaque]
    pub open spec fn moves(self, next: World<S>) -> bool {
        ||| exists|
            msg: EnvelopeView,
            timeout: Ticks,
            storage: std::result::Result<StatusView, ErrorView>,
        | #[trigger]
            self.receives(next, msg, timeout, storage)
        ||| exists|id: NodeID, timeout: Ticks| #[trigger] self.ticks(next, id, timeout)
        ||| exists|
            id: NodeID,
            peers: Set<NodeID>,
            state: S::Model,
            opts: Options,
            timeout: Ticks,
        | #[trigger]
            self.restarts(next, id, peers, state, opts, timeout)
    }

    /// Whether a snapshot of the state that a node has when it has just started again
    /// leads back to it.
    pub open spec fn starts_back(
        self,
        id: NodeID,
        peers: Set<NodeID>,
        state: S::Model,
        opts: Options,
    ) -> bool {
        let log = self.nodes[id].base().log;
        leads_back::<S>(
            self.init,
            applying_committed(opened::<S>(id, peers, log, state, opts)).state,
        )
    }

    /// Whether the state machine can be followed through what happens: the writes that
    /// clients ask for move it on, and nodes that start again have states that their
    /// snapshots lead back to.
    pub open spec fn follows(self, next: World<S>) -> bool {
        &&& forall|
            msg: EnvelopeView,
            timeout: Ticks,
            storage: std::result::Result<StatusView, ErrorView>,
        | #[trigger]
            self.receives(next, msg, timeout, storage) ==> asks_on::<S>(msg.message)
        &&& forall|
            id: NodeID,
            peers: Set<NodeID>,
            state: S::Model,
            opts: Options,
            timeout: Ticks,
        | #[trigger]
            self.restarts(next, id, peers, state, opts, timeout) ==> self.starts_back(
                id,
                peers,
                state,
                opts,
            )
    }

    /// Whether the cluster fits the history.
    pub open spec fn fits(self, h: History, given: Given<S>) -> bool {
        let now = Given { sent: self.sent, ..given };
        &&& h.wf()
        &&& given.init matches Some(init) ==> init == self.init
        &&& h.config == MembershipView::Simple(self.voters)
        &&& forall|id: NodeID| #[trigger]
            self.nodes.contains_key(id) ==> self.nodes[id].base().id == id && node_fits(
                h,
                self.nodes[id],
            ) && self.nodes[id].base().out == Seq::<EnvelopeView>::empty()
        &&& forall|msg: EnvelopeView| #[trigger] self.sent.contains(msg) ==> message_fits(h, msg)
        &&& forall|id: NodeID| #[trigger]
            self.nodes.contains_key(id) ==> given.states.contains((id, self.nodes[id].base().state))
        &&& answers_fit::<S>(h, now, seq![])
        &&& forall|id: NodeID| #[trigger]
            self.nodes.contains_key(id) ==> traces(now, h, self.nodes[id].base())
        &&& given.init matches Some(init) ==> forall|msg: EnvelopeView| #[trigger]
            self.sent.contains(msg) ==> carries::<S>(init, h, msg)
    }
}

/// What happens to a cluster, moment by moment, from its start on.
pub open spec fn is_run<S: State>(run: Seq<World<S>>) -> bool {
    &&& run.len() > 0
    &&& run[0].is_new()
    &&& forall|i: int| 0 <= i < run.len() - 1 ==> (#[trigger] run[i]).moves(run[i + 1])
}

/// The states that nodes had in a run.
pub open spec fn states_of<S: State>(run: Seq<World<S>>) -> Set<(NodeID, S::Model)> {
    Set::new(|had: (NodeID, S::Model)| exists|m: int| #[trigger] had_at(run, m, had))
}

/// Whether a node had a state at one moment.
pub open spec fn had_at<S: State>(
    run: Seq<World<S>>,
    m: int,
    had: (NodeID, S::Model),
) -> bool {
    &&& 0 <= m < run.len()
    &&& run[m].nodes.contains_key(had.0)
    &&& run[m].nodes[had.0].base().state == had.1
}

/// What the nodes of a run are held against.
spec fn given_of<S: State>(run: Seq<World<S>>, followed: bool) -> Given<S> {
    Given {
        sent: Set::empty(),
        states: states_of(run),
        init: if followed {
            Some(run[0].init)
        } else {
            None
        },
    }
}

/// Whether the state machine can be followed through a run: from its first state on,
/// through every state that a node had, with writes that move it on.
pub open spec fn is_followed<S: State>(run: Seq<World<S>>) -> bool {
    &&& is_replayable::<S>(run[0].init, states_of(run))
    &&& forall|m: int| 0 <= m < run.len() - 1 ==> (#[trigger] run[m]).follows(run[m + 1])
}

/// The states that nodes have at a moment are states of the run.
proof fn lemma_states<S: State>(run: Seq<World<S>>, m: int)
    requires
        0 <= m < run.len(),
    ensures
        forall|id: NodeID| #[trigger]
            run[m].nodes.contains_key(id) ==> states_of(run).contains(
                (id, run[m].nodes[id].base().state),
            ),
{
    assert forall|id: NodeID| #[trigger] run[m].nodes.contains_key(id) implies states_of(
        run,
    ).contains((id, run[m].nodes[id].base().state)) by {
        assert(had_at(run, m, (id, run[m].nodes[id].base().state)));
    }
}

/// Whether one history came after another.
#[verifier::opaque]
pub open spec fn is_after(h: History, next: History) -> bool {
    &&& forall|term: Term| #[trigger]
        h.reigns.contains_key(term) ==> {
            &&& next.reigns.contains_key(term)
            &&& next.reigns[term].leader == h.reigns[term].leader
            &&& share(next.log_of(term), h.log_of(term), h.log_of(term).len() as int)
        }
    &&& forall|term: Term, n: nat| #[trigger]
        h.commits.contains((term, n)) ==> next.commits.contains((term, n))
    &&& forall|term: Term, seq: ReadSequence| #[trigger]
        h.inquiries.contains_key((term, seq)) ==> next.inquiries.contains_key((term, seq))
            && is_same_inquiry(h.inquiries[(term, seq)], next.inquiries[(term, seq)])
}

proof fn lemma_after_same(h: History)
    ensures
        is_after(h, h),
{
    reveal(is_after);
}

proof fn lemma_after_twice(a: History, b: History, c: History)
    requires
        is_after(a, b),
        is_after(b, c),
    ensures
        is_after(a, c),
{
    reveal(is_after);
    assert forall|term: Term| #[trigger] a.reigns.contains_key(term) implies {
        &&& c.reigns.contains_key(term)
        &&& c.reigns[term].leader == a.reigns[term].leader
        &&& share(c.log_of(term), a.log_of(term), a.log_of(term).len() as int)
    } by {
        assert(b.reigns.contains_key(term));
        lemma_share_less(
            c.log_of(term),
            b.log_of(term),
            b.log_of(term).len() as int,
            a.log_of(term).len() as int,
        );
    }
    assert forall|term: Term, seq: ReadSequence| #[trigger]
        a.inquiries.contains_key((term, seq)) implies c.inquiries.contains_key((term, seq))
        && is_same_inquiry(a.inquiries[(term, seq)], c.inquiries[(term, seq)]) by {
        assert(b.inquiries.contains_key((term, seq)));
    }
}

proof fn lemma_after_rooted(h: History, next: History, log: Seq<EntryView>)
    requires
        is_after(h, next),
        h.is_rooted(log),
    ensures
        next.is_rooted(log),
{
    reveal(is_after);
    assert forall|k: int| 0 <= k < log.len() implies next.reigns.contains_key(
        (#[trigger] log[k]).term,
    ) && share(log, next.log_of(log[k].term), k + 1) by {
        let term = log[k].term;
        assert(h.reigns.contains_key(term));
        lemma_share_less(next.log_of(term), h.log_of(term), h.log_of(term).len() as int, k + 1);
    }
}

proof fn lemma_after_decided(h: History, next: History, log: Seq<EntryView>, bound: Term)
    requires
        h.wf(),
        is_after(h, next),
        h.is_decided(log, bound),
    ensures
        next.is_decided(log, bound),
{
    reveal(is_after);
    if log.len() > 0 {
        let (t, i) = choose|t: Term, i: nat| #[trigger]
            h.commits.contains((t, i)) && t <= bound && log.len() <= i && share(
                log,
                h.log_of(t),
                log.len() as int,
            );
        lemma_commit(h, t, i);
        lemma_share_less(
            next.log_of(t),
            h.log_of(t),
            h.log_of(t).len() as int,
            log.len() as int,
        );
        assert(next.commits.contains((t, i)));
    }
}

/// The cluster still fits when one node moved.
proof fn lemma_with_fits<S: State>(
    w: World<S>,
    given: Given<S>,
    h: History,
    next: History,
    id: NodeID,
    node: NodeView<S>,
)
    requires
        w.fits(h, given),
        next.wf(),
        goes_on(h, next, id),
        all_fits(Given { sent: w.sent, ..given }, next, node),
        node.base().id == id,
        given.states.contains((id, node.base().state)),
        w.nodes.contains_key(id),
    ensures
        w.with(id, node).fits(next, given),
        is_after(h, next),
{
    reveal(is_after);
    let after = w.with(id, node);
    lemma_goes_on(h, next, id);
    let now = Given { sent: w.sent, ..given };
    lemma_given(next, now, node);
    lemma_traces_silenced(now, after.sent, next, node.base(), node.silenced().base());
    assert forall|other: NodeID| #[trigger] after.nodes.contains_key(other) implies
        after.nodes[other].base().id == other && node_fits(next, after.nodes[other])
        && after.nodes[other].base().out == Seq::<EnvelopeView>::empty() by {
        if other != id {
            assert(w.nodes.contains_key(other));
            lemma_others_still_fit(h, next, id, w.nodes[other]);
        } else {
            lemma_silenced_fits(next, node);
        }
    }
    assert forall|msg: EnvelopeView| #[trigger] after.sent.contains(msg) implies message_fits(
        next,
        msg,
    ) by {
        let out = node.base().out;
        if w.sent.contains(msg) {
            lemma_message_still_fits(h, next, id, msg);
        } else {
            let k = choose|k: int| 0 <= k < out.len() && out[k] == msg;
            assert(message_fits(next, out[k]));
        }
    }
    assert forall|other: NodeID| #[trigger] after.nodes.contains_key(other) implies traces(
        Given { sent: after.sent, ..given },
        next,
        after.nodes[other].base(),
    ) by {
        if other != id {
            assert(w.nodes.contains_key(other));
            lemma_others_still_trace(now, after.sent, h, next, id, w.nodes[other].base());
        }
    }
    if let Some(init) = given.init {
        assert forall|msg: EnvelopeView| #[trigger] after.sent.contains(msg) implies carries::<S>(
            init,
            next,
            msg,
        ) by {
            let out = node.base().out;
            if w.sent.contains(msg) {
                lemma_still_carries::<S>(init, h, next, id, msg);
            } else {
                let k = choose|k: int| 0 <= k < out.len() && out[k] == msg;
                assert(carries::<S>(init, next, out[k]));
            }
        }
    }
}

/// Answers that are sent are given.
proof fn lemma_given<S: State>(h: History, given: Given<S>, node: NodeView<S>)
    requires
        answers_fit::<S>(h, given, node.base().out),
    ensures
        answers_fit::<S>(
            h,
            Given { sent: given.sent.union(node.base().out.to_set()), ..given },
            seq![],
        ),
{
    let out = node.base().out;
    let all = given.sent.union(out.to_set());
    assert forall|term: Term, seq: ReadSequence| #[trigger]
        h.inquiries.contains_key((term, seq)) implies {
        let inquiry = h.inquiries[(term, seq)];
        inquiry.answer matches Some(answer) ==> {
            &&& is_answer::<S>(given.states, inquiry, h.reigns[term].leader, term, answer)
            &&& all.contains(answer) || seq![].contains(answer)
        }
    } by {
        if let Some(answer) = h.inquiries[(term, seq)].answer {
            if out.contains(answer) {
                assert(out.to_set().contains(answer));
            }
        }
    }
}

proof fn lemma_silenced_fits<S: State>(h: History, node: NodeView<S>)
    requires
        node_fits(h, node),
    ensures
        node_fits(h, node.silenced()),
        node.silenced().base().id == node.base().id,
        node.silenced().base().out == Seq::<EnvelopeView>::empty(),
{
}

/// A snapshot that arrives and cuts the log of its receiver cuts it where it differs
/// from the leader's.
proof fn lemma_drops_nothing<S: State>(w: World<S>, given: Given<S>, h: History, msg: EnvelopeView)
    requires
        w.fits(h, given),
        w.delivers(msg),
        message_fits(h, msg),
    ensures
        !drops_entries(h, w.nodes[msg.to].base(), msg),
{
    let core = w.nodes[msg.to].base();
    assert(node_fits(h, w.nodes[msg.to]));
    if let MessageView::InstallSnapshot { last_included_index, last_included_term, .. } =
        msg.message {
        let end = last_included_index as int;
        let whole = h.logs[core.id];
        let other = h.log_of(msg.term);
        if installs(core, last_included_index) && end < core.log.last_index() {
            if core.log.has(end, last_included_term) {
                let leader = w.nodes[msg.from].base();
                assert(node_fits(h, w.nodes[msg.from]));
                lemma_rest_at(core.log, whole, end + 1);
                lemma_rest_at(leader.log, h.logs[msg.from], end + 1);
                assert(whole[end] != other[end]);
            } else {
                lemma_rest_at(core.log, whole, end);
                assert(whole[end - 1] != other[end - 1]);
            }
        }
    }
}

/// The cluster still fits when a node takes a message.
proof fn lemma_receives_fit<S: State>(
    w: World<S>,
    given: Given<S>,
    next: World<S>,
    h: History,
    msg: EnvelopeView,
    timeout: Ticks,
    storage: std::result::Result<StatusView, ErrorView>,
) -> (after: History)
    requires
        w.fits(h, given),
        w.receives(next, msg, timeout, storage),
        next.nodes.contains_key(msg.to) ==> given.states.contains(
            (msg.to, next.nodes[msg.to].base().state),
        ),
        given.init is Some ==> asks_on::<S>(msg.message),
    ensures
        next.fits(after, given),
        is_after(h, after),
        goes_on(h, after, msg.to),
        forall|term: Term, seq: ReadSequence| #[trigger]
            after.inquiries.contains_key((term, seq)) && !h.inquiries.contains_key((term, seq))
                ==> is_read(msg, after.inquiries[(term, seq)]),
{
    let node = w.nodes[msg.to];
    assert(message_fits(h, msg));
    lemma_drops_nothing(w, given, h, msg);
    let moved = stepping(node, msg, timeout, storage)->Ok_0;
    assert(next.nodes[msg.to] == moved.silenced());
    let now = Given { sent: w.sent, ..given };
    let after = lemma_stepping_fits(now, h, node, msg, timeout, storage);
    lemma_with_fits(w, given, h, after, msg.to, moved);
    after
}

/// The cluster still fits when time passes at a node.
proof fn lemma_ticks_fit<S: State>(
    w: World<S>,
    given: Given<S>,
    next: World<S>,
    h: History,
    id: NodeID,
    timeout: Ticks,
) -> (after: History)
    requires
        w.fits(h, given),
        w.ticks(next, id, timeout),
        next.nodes.contains_key(id) ==> given.states.contains((id, next.nodes[id].base().state)),
    ensures
        next.fits(after, given),
        is_after(h, after),
{
    let moved = ticking(w.nodes[id], timeout);
    assert(next.nodes[id] == moved.silenced());
    let now = Given { sent: w.sent, ..given };
    let after = lemma_ticking_fits(now, h, w.nodes[id], timeout);
    lemma_with_fits(w, given, h, after, id, moved);
    after
}

/// The cluster still fits when a node starts again.
proof fn lemma_restarts_fit<S: State>(
    w: World<S>,
    given: Given<S>,
    next: World<S>,
    h: History,
    id: NodeID,
    peers: Set<NodeID>,
    state: S::Model,
    opts: Options,
    timeout: Ticks,
) -> (after: History)
    requires
        w.fits(h, given),
        w.restarts(next, id, peers, state, opts, timeout),
        next.nodes.contains_key(id) ==> given.states.contains((id, next.nodes[id].base().state)),
        given.init is Some ==> w.starts_back(id, peers, state, opts),
    ensures
        next.fits(after, given),
        is_after(h, after),
{
    let log = w.nodes[id].base().log;
    let moved = starting::<S>(id, peers, log, state, opts, timeout)->Ok_0;
    assert(next.nodes[id] == moved.silenced());
    let now = Given { sent: w.sent, ..given };
    lemma_traces_opened(
        now,
        h,
        w.nodes[id].base(),
        opened::<S>(id, peers, log, state, opts),
    );
    let after = lemma_starting_fits::<S>(now, h, id, peers, log, state, opts, timeout);
    lemma_with_fits(w, given, h, after, id, moved);
    after
}

/// Whatever happens, the cluster fits a history that came after.
proof fn lemma_moves_fit<S: State>(
    w: World<S>,
    given: Given<S>,
    next: World<S>,
    h: History,
) -> (after: History)
    requires
        w.fits(h, given),
        w.moves(next),
        forall|id: NodeID| #[trigger]
            next.nodes.contains_key(id) ==> given.states.contains((id, next.nodes[id].base().state)),
        given.init is Some ==> w.follows(next),
    ensures
        next.fits(after, given),
        is_after(h, after),
{
    reveal(World::moves);
    if exists|
        msg: EnvelopeView,
        timeout: Ticks,
        storage: std::result::Result<StatusView, ErrorView>,
    | #[trigger]
        w.receives(next, msg, timeout, storage) {
        let (msg, timeout, storage) = choose|
            msg: EnvelopeView,
            timeout: Ticks,
            storage: std::result::Result<StatusView, ErrorView>,
        | #[trigger]
            w.receives(next, msg, timeout, storage);
        lemma_receives_fit(w, given, next, h, msg, timeout, storage)
    } else if exists|id: NodeID, timeout: Ticks| #[trigger] w.ticks(next, id, timeout) {
        let (id, timeout) = choose|id: NodeID, timeout: Ticks| #[trigger]
            w.ticks(next, id, timeout);
        lemma_ticks_fit(w, given, next, h, id, timeout)
    } else {
        let (id, peers, state, opts, timeout) = choose|
            id: NodeID,
            peers: Set<NodeID>,
            state: S::Model,
            opts: Options,
            timeout: Ticks,
        | #[trigger]
            w.restarts(next, id, peers, state, opts, timeout);
        lemma_restarts_fit(w, given, next, h, id, peers, state, opts, timeout)
    }
}

/// A new cluster has a history in which nothing happened.
proof fn lemma_new_fits<S: State>(
    w: World<S>,
    given: Given<S>,
) -> (h: History)
    requires
        w.is_new(),
        forall|id: NodeID| #[trigger]
            w.nodes.contains_key(id) ==> given.states.contains((id, w.nodes[id].base().state)),
        given.init matches Some(init) ==> init == w.init && is_replayable::<S>(init, given.states),
    ensures
        w.fits(h, given),
{
    let h = History {
        config: MembershipView::Simple(w.voters),
        logs: Map::new(|id: NodeID| true, |id: NodeID| Seq::<EntryView>::empty()),
        reigns: Map::empty(),
        campaigns: Map::empty(),
        ballots: Map::empty(),
        acks: Map::empty(),
        commits: Set::empty(),
        spans: Map::empty(),
        terms: Map::new(|id: NodeID| true, |id: NodeID| 0u64),
        inquiries: Map::empty(),
        confirms: Map::empty(),
    };
    reveal(History::wf);
    reveal(History::suits);
    assert forall|id: NodeID| #[trigger] w.nodes.contains_key(id) implies node_fits(
        h,
        w.nodes[id],
    ) by {
        let log = w.nodes[id].base().log;
        let whole = h.logs[id];
        assert(log.entries =~= whole.skip(0));
        assert(whole.take(0) =~= whole);
    }
    let now = Given { sent: w.sent, ..given };
    assert forall|id: NodeID| #[trigger] w.nodes.contains_key(id) implies traces(
        now,
        h,
        w.nodes[id].base(),
    ) by {
        lemma_traces_new(now, h, w.nodes[id].base());
    }
    h
}

/// The histories of a run from one moment on, each after the one before.
proof fn lemma_rest_fits<S: State>(
    run: Seq<World<S>>,
    followed: bool,
    start: int,
    h: History,
    n: int,
) -> (histories:
    Seq<History>)
    requires
        is_run(run),
        followed ==> is_followed(run),
        0 <= start <= n < run.len(),
        run[start].fits(h, given_of(run, followed)),
    ensures
        histories.len() == n - start + 1,
        histories[0] == h,
        forall|i: int|
            0 <= i <= n - start ==> run[start + i].fits(#[trigger] histories[i], given_of(run, followed)),
        forall|i: int, j: int|
            0 <= i <= j <= n - start ==> is_after(
                #[trigger] histories[i],
                #[trigger] histories[j],
            ),
    decreases n - start,
{
    if n == start {
        lemma_after_same(h);
        seq![h]
    } else {
        let before = lemma_rest_fits(run, followed, start, h, n - 1);
        let last = before[n - 1 - start];
        assert(run[n - 1].moves(run[n - 1 + 1]));
        assert(run[start + (n - 1 - start)].fits(last, given_of(run, followed)));
        lemma_states(run, n);
        let next = lemma_moves_fit(run[n - 1], given_of(run, followed), run[n], last);
        let histories = before.push(next);
        assert forall|i: int| 0 <= i <= n - start implies run[start + i].fits(
            #[trigger] histories[i], given_of(run, followed)) by {
            if i < n - start {
                assert(histories[i] == before[i]);
            }
        }
        assert forall|i: int, j: int| 0 <= i <= j <= n - start implies is_after(
            #[trigger] histories[i],
            #[trigger] histories[j],
        ) by {
            if j < n - start {
                assert(histories[i] == before[i] && histories[j] == before[j]);
            } else if i < n - start {
                assert(is_after(before[i], last));
                lemma_after_twice(before[i], last, next);
            } else {
                lemma_after_same(next);
            }
        }
        histories
    }
}

/// The histories of a run, each after the one before.
proof fn lemma_run_fits<S: State>(run: Seq<World<S>>, followed: bool, n: int) -> (histories:
    Seq<History>)
    requires
        is_run(run),
        followed ==> is_followed(run),
        0 <= n < run.len(),
    ensures
        histories.len() == n + 1,
        forall|i: int| 0 <= i <= n ==> run[i].fits(#[trigger] histories[i], given_of(run, followed)),
        forall|i: int, j: int|
            0 <= i <= j <= n ==> is_after(#[trigger] histories[i], #[trigger] histories[j]),
{
    lemma_states(run, 0);
    let h = lemma_new_fits(run[0], given_of(run, followed));
    let histories = lemma_rest_fits(run, followed, 0, h, n);
    assert forall|i: int| 0 <= i <= n implies run[i].fits(#[trigger] histories[i], given_of(run, followed)) by {
        assert(run[0 + i].fits(histories[i], given_of(run, followed)));
    }
    histories
}

/// Election safety: no term ever has two leaders.
pub proof fn terms_have_one_leader<S: State>(
    run: Seq<World<S>>,
    i: int,
    a: NodeID,
    j: int,
    b: NodeID,
)
    requires
        is_run(run),
        0 <= i <= j < run.len(),
        run[i].nodes.contains_key(a),
        run[j].nodes.contains_key(b),
        run[i].nodes[a] is Leader,
        run[j].nodes[b] is Leader,
        run[i].nodes[a].base().term() == run[j].nodes[b].base().term(),
    ensures
        a == b,
{
    reveal(is_after);
    let histories = lemma_run_fits(run, false, j);
    assert(run[i].fits(histories[i], given_of(run, false)));
    assert(run[j].fits(histories[j], given_of(run, false)));
    assert(is_after(histories[i], histories[j]));
    assert(histories[i].reigns.contains_key(run[i].nodes[a].base().term()));
}

/// Log matching: if two logs, of any nodes at any times, have an entry of the same
/// term at the same index, they have the same entries up to there.
pub proof fn all_logs_match<S: State>(
    run: Seq<World<S>>,
    i: int,
    a: NodeID,
    j: int,
    b: NodeID,
)
    requires
        is_run(run),
        0 <= i <= j < run.len(),
        run[i].nodes.contains_key(a),
        run[j].nodes.contains_key(b),
    ensures
        logs_match(run[i].nodes[a].base().log, run[j].nodes[b].base().log),
{
    let histories = lemma_run_fits(run, false, j);
    let h = histories[j];
    assert(run[i].fits(histories[i], given_of(run, false)));
    assert(run[j].fits(h, given_of(run, false)));
    assert(is_after(histories[i], h));
    let x = run[i].nodes[a].base().log;
    let y = run[j].nodes[b].base().log;
    let left = histories[i].logs[a];
    let right = h.logs[b];
    lemma_after_rooted(histories[i], h, left);
    assert forall|p: int, q: int|
        x.holds(p) && y.holds(p) && (#[trigger] x.at(p)).term == y.at(p).term && q <= p && x.holds(
            q,
        ) && y.holds(q) implies x.at(q) == #[trigger] y.at(q) by {
        lemma_rest_at(x, left, p);
        lemma_rest_at(y, right, p);
        rooted_logs_match(h, left, right, p - 1);
        lemma_rest_at(x, left, q);
        lemma_rest_at(y, right, q);
        lemma_share_at(left, right, p, q - 1);
    }
}

/// Leader completeness: what any node has committed is in the log of every leader
/// of its term or a later one from then on, unless it was compacted away there.
pub proof fn leaders_have_what_is_committed<S: State>(
    run: Seq<World<S>>,
    i: int,
    a: NodeID,
    j: int,
    b: NodeID,
)
    requires
        is_run(run),
        0 <= i <= j < run.len(),
        run[i].nodes.contains_key(a),
        run[j].nodes.contains_key(b),
        run[j].nodes[b] is Leader,
        run[j].nodes[b].base().term() >= run[i].nodes[a].base().term(),
    ensures
        ({
            let node = run[i].nodes[a].base().log;
            let leader = run[j].nodes[b].base().log;
            &&& leader.last_index() >= node.commit_index
            &&& forall|index: int|
                index <= node.commit_index && node.holds(index) && leader.holds(index)
                    ==> #[trigger] leader.at(index) == node.at(index)
        }),
{
    let histories = lemma_run_fits(run, false, j);
    let h = histories[j];
    assert(run[i].fits(histories[i], given_of(run, false)));
    assert(run[j].fits(h, given_of(run, false)));
    assert(is_after(histories[i], h));
    let node = run[i].nodes[a].base().log;
    let leader = run[j].nodes[b].base().log;
    let whole = histories[i].logs[a];
    let decided = whole.take(node.commit_index as int);
    lemma_after_decided(histories[i], h, decided, node.term);
    lemma_decided_longer(h, decided, node.term, leader.term);
    lemma_decided_in_reign(h, decided, leader.term);
    assert forall|index: int|
        index <= node.commit_index && node.holds(index) && leader.holds(
            index,
        ) implies #[trigger] leader.at(index) == node.at(index) by {
        lemma_rest_at(node, whole, index);
        lemma_rest_at(leader, h.logs[b], index);
        lemma_share_at(decided, h.logs[b], decided.len() as int, index - 1);
    }
}

/// State machine safety: no two nodes, at any times, have different entries
/// committed at one index.
pub proof fn commits_never_differ<S: State>(
    run: Seq<World<S>>,
    i: int,
    a: NodeID,
    j: int,
    b: NodeID,
    index: int,
)
    requires
        is_run(run),
        0 <= i <= j < run.len(),
        run[i].nodes.contains_key(a),
        run[j].nodes.contains_key(b),
        ({
            let x = run[i].nodes[a].base().log;
            let y = run[j].nodes[b].base().log;
            &&& index <= x.commit_index
            &&& index <= y.commit_index
            &&& x.holds(index)
            &&& y.holds(index)
        }),
    ensures
        run[i].nodes[a].base().log.at(index) == run[j].nodes[b].base().log.at(index),
{
    let histories = lemma_run_fits(run, false, j);
    let h = histories[j];
    assert(run[i].fits(histories[i], given_of(run, false)));
    assert(run[j].fits(h, given_of(run, false)));
    assert(is_after(histories[i], h));
    let x = run[i].nodes[a].base().log;
    let y = run[j].nodes[b].base().log;
    let left = histories[i].logs[a];
    let right = h.logs[b];
    lemma_after_decided(histories[i], h, left.take(x.commit_index as int), x.term);
    decisions_agree(
        h,
        left.take(x.commit_index as int),
        right.take(y.commit_index as int),
        index,
    );
    lemma_rest_at(x, left, index);
    lemma_rest_at(y, right, index);
    lemma_share_at(
        left.take(x.commit_index as int),
        right.take(y.commit_index as int),
        index,
        index - 1,
    );
}

/// A read that a leader was asked for has its number in the history, and knows all that
/// was committed.
proof fn lemma_read_asked<S: State>(
    w: World<S>,
    given: Given<S>,
    next: World<S>,
    h: History,
    msg: EnvelopeView,
    id: RequestID,
    command: Seq<u8>,
    timeout: Ticks,
    storage: std::result::Result<StatusView, ErrorView>,
) -> (after: History)
    requires
        w.fits(h, given),
        w.receives(next, msg, timeout, storage),
        forall|id: NodeID| #[trigger]
            next.nodes.contains_key(id) ==> given.states.contains((id, next.nodes[id].base().state)),
        given.init is Some ==> w.follows(next),
        msg.message == (MessageView::ClientRequest { id, request: RequestView::Read(command) }),
        w.nodes[msg.to] matches NodeView::Leader(core, role) && msg.term == core.term()
            && is_known(core, msg.from),
    ensures
        next.fits(after, given),
        ({
            let seq = (w.nodes[msg.to]->Leader_1.read_seq + 1) as u64;
            let inquiry = after.inquiries[(msg.term, seq)];
            &&& after.inquiries.contains_key((msg.term, seq))
            &&& is_about(inquiry, msg.from, id, command)
            &&& h.commits.subset_of(inquiry.known)
        }),
{
    let a = msg.to;
    let term = msg.term;
    let node = w.nodes[a];
    let core = node->Leader_0;
    let role = node->Leader_1;
    let seq = (role.read_seq + 1) as u64;
    let after = lemma_receives_fit(w, given, next, h, msg, timeout, storage);
    let moved = stepping(node, msg, timeout, storage)->Ok_0;
    lemma_goes_on(h, after, a);
    lemma_read_numbered(core, role, msg, id, command, timeout, storage);
    assert(next.nodes.contains_key(a) && next.nodes[a] == moved.silenced());
    assert(node_fits(after, next.nodes[a]));
    assert(after.inquiries.contains_key((term, seq)));
    assert(!h.inquiries.contains_key((term, seq)));
    assert(is_read(msg, after.inquiries[(term, seq)]));
    after
}

/// A leader that is asked for a read gives it the next number.
proof fn lemma_read_numbered<S: State>(
    core: Core<S>,
    role: LeaderView,
    msg: EnvelopeView,
    id: RequestID,
    command: Seq<u8>,
    timeout: Ticks,
    storage: std::result::Result<StatusView, ErrorView>,
)
    requires
        msg.message == (MessageView::ClientRequest { id, request: RequestView::Read(command) }),
        msg.term == core.term(),
        is_known(core, msg.from),
        role.read_seq < u64::MAX,
    ensures
        stepping(NodeView::Leader(core, role), msg, timeout, storage) matches Ok(
            NodeView::Leader(after, later),
        ) && after.term() == msg.term && later.read_seq == role.read_seq + 1,
{
    let seq = (role.read_seq + 1) as u64;
    let queued = Led {
        core: core.broadcasting(MessageView::Read { seq }),
        role: LeaderView {
            read_seq: seq,
            reads: role.reads.push(ReadView { seq, from: msg.from, id, command }),
            ..role
        },
        failed: None,
    };
    lemma_reading(queued);
}

/// A read that a leader in office no longer keeps waiting was answered.
proof fn lemma_read_answered<S: State>(
    w: World<S>,
    given: Given<S>,
    h: History,
    a: NodeID,
    term: Term,
    seq: ReadSequence,
) -> (state: S::Model)
    requires
        w.fits(h, given),
        w.nodes.contains_key(a),
        h.inquiries.contains_key((term, seq)),
        w.nodes[a] matches NodeView::Leader(core, role) && term == core.term() && !is_waiting(
            role,
            seq,
        ),
    ensures
        is_current_for(S::applied(state), h.inquiries[(term, seq)]),
        given.states.contains((a, state)),
        w.sent.contains(answer_from::<S>(state, h.inquiries[(term, seq)], a, term)),
{
    assert(node_fits(h, w.nodes[a]));
    let inquiry = h.inquiries[(term, seq)];
    assert(inquiry.answer is Some);
    let answer = inquiry.answer->Some_0;
    assert(is_answer::<S>(given.states, inquiry, h.reigns[term].leader, term, answer));
    choose|state: S::Model| #[trigger]
        answer_from::<S>(state, inquiry, h.reigns[term].leader, term) == answer && is_current_for(
            S::applied(state),
            inquiry,
        ) && given.states.contains((h.reigns[term].leader, state))
}

/// What a node has committed is among what was committed.
proof fn lemma_committed_known<S: State>(
    w: World<S>,
    given: Given<S>,
    h: History,
    b: NodeID,
) -> (commit: (Term, nat))
    requires
        w.fits(h, given),
        w.nodes.contains_key(b),
        w.nodes[b].base().log.commit_index > 0,
    ensures
        h.commits.contains(commit),
        w.nodes[b].base().log.commit_index <= commit.1,
{
    assert(node_fits(h, w.nodes[b]));
    let log = w.nodes[b].base().log;
    let decided = h.logs[b].take(log.commit_index as int);
    assert(h.is_decided(decided, log.term));
    let (t, n) = choose|t: Term, n: nat| #[trigger]
        h.commits.contains((t, n)) && t <= log.term && decided.len() <= n && share(
            decided,
            h.log_of(t),
            decided.len() as int,
        );
    (t, n)
}

/// Whether something that was committed up to an index, or further, is known.
spec fn is_covered(known: Set<(Term, nat)>, index: Index) -> bool {
    index > 0 ==> exists|term: Term, n: nat| #[trigger] known.contains((term, n)) && index <= n
}

/// A read that comes in the course of a run has its number in the history afterwards,
/// and knows all that any node had committed.
#[verifier::spinoff_prover]
proof fn lemma_read_recorded<S: State>(
    run: Seq<World<S>>,
    followed: bool,
    i: int,
    msg: EnvelopeView,
    id: RequestID,
    command: Seq<u8>,
    timeout: Ticks,
    storage: std::result::Result<StatusView, ErrorView>,
) -> (next: History)
    requires
        is_run(run),
        followed ==> is_followed(run),
        0 <= i < run.len() - 1,
        run[i].receives(run[i + 1], msg, timeout, storage),
        msg.message == (MessageView::ClientRequest { id, request: RequestView::Read(command) }),
        run[i].nodes[msg.to] matches NodeView::Leader(core, role) && msg.term == core.term()
            && is_known(core, msg.from),
    ensures
        run[i + 1].fits(next, given_of(run, followed)),
        ({
            let seq = (run[i].nodes[msg.to]->Leader_1.read_seq + 1) as u64;
            let inquiry = next.inquiries[(msg.term, seq)];
            &&& next.inquiries.contains_key((msg.term, seq))
            &&& is_about(inquiry, msg.from, id, command)
            &&& forall|p: int, b: NodeID|
                0 <= p <= i && #[trigger] run[p].nodes.contains_key(b) ==> is_covered(
                    inquiry.known,
                    run[p].nodes[b].base().log.commit_index,
                )
        }),
{
    let before = lemma_run_fits(run, followed, i);
    let h = before[i];
    assert(run[i].fits(h, given_of(run, followed)));
    lemma_states(run, i + 1);
    let next = lemma_read_asked(
        run[i],
        given_of(run, followed),
        run[i + 1],
        h,
        msg,
        id,
        command,
        timeout,
        storage,
    );
    let seq = (run[i].nodes[msg.to]->Leader_1.read_seq + 1) as u64;
    let inquiry = next.inquiries[(msg.term, seq)];
    assert forall|p: int, b: NodeID|
        0 <= p <= i && #[trigger] run[p].nodes.contains_key(b) implies is_covered(
        inquiry.known,
        run[p].nodes[b].base().log.commit_index,
    ) by {
        if run[p].nodes[b].base().log.commit_index > 0 {
            assert(run[p].fits(before[p], given_of(run, followed)));
            let commit = lemma_committed_known(run[p], given_of(run, followed), before[p], b);
            assert(is_after(before[p], before[i]));
            reveal(is_after);
            assert(h.commits.contains((commit.0, commit.1)));
            assert(inquiry.known.contains((commit.0, commit.1)));
        }
    }
    next
}

/// The history of a later moment has the inquiries of an earlier one.
#[verifier::spinoff_prover]
proof fn lemma_inquiry_stays<S: State>(
    run: Seq<World<S>>,
    followed: bool,
    i: int,
    h: History,
    j: int,
    term: Term,
    seq: ReadSequence,
) -> (later: History)
    requires
        is_run(run),
        followed ==> is_followed(run),
        0 <= i <= j < run.len(),
        run[i].fits(h, given_of(run, followed)),
        h.inquiries.contains_key((term, seq)),
    ensures
        run[j].fits(later, given_of(run, followed)),
        later.inquiries.contains_key((term, seq)),
        is_same_inquiry(h.inquiries[(term, seq)], later.inquiries[(term, seq)]),
{
    let rest = lemma_rest_fits(run, followed, i, h, j);
    let later = rest[j - i];
    assert(run[i + (j - i)].fits(later, given_of(run, followed)));
    assert(is_after(rest[0], later));
    reveal(is_after);
    later
}

/// A read that was recorded, and that a leader in office later no longer keeps
/// waiting, was answered.
#[verifier::spinoff_prover]
proof fn lemma_answered_later<S: State>(
    run: Seq<World<S>>,
    followed: bool,
    i: int,
    h: History,
    j: int,
    a: NodeID,
    term: Term,
    seq: ReadSequence,
) -> (state: S::Model)
    requires
        is_run(run),
        followed ==> is_followed(run),
        0 <= i <= j < run.len(),
        run[i].fits(h, given_of(run, followed)),
        h.inquiries.contains_key((term, seq)),
        run[j].nodes.contains_key(a),
        run[j].nodes[a] matches NodeView::Leader(core, role) && term == core.term() && !is_waiting(
            role,
            seq,
        ),
    ensures
        is_current_for(S::applied(state), h.inquiries[(term, seq)]),
        states_of(run).contains((a, state)),
        run[j].sent.contains(answer_from::<S>(state, h.inquiries[(term, seq)], a, term)),
{
    let later = lemma_inquiry_stays(run, followed, i, h, j, term, seq);
    let state = lemma_read_answered(run[j], given_of(run, followed), later, a, term, seq);
    let inquiry = h.inquiries[(term, seq)];
    assert(later.inquiries[(term, seq)].known == inquiry.known);
    assert(answer_from::<S>(state, later.inquiries[(term, seq)], a, term) == answer_from::<S>(
        state,
        inquiry,
        a,
        term,
    ));
    state
}

/// Linearizable reads: when a leader that was asked for a read is still in office in
/// its term and the read no longer waits, the leader has sent an answer, from a state
/// that it had and that had applied everything that any node had committed by the
/// moment when the read came.
#[verifier::spinoff_prover]
pub proof fn reads_see_what_was_committed<S: State>(
    run: Seq<World<S>>,
    i: int,
    msg: EnvelopeView,
    id: RequestID,
    command: Seq<u8>,
    timeout: Ticks,
    storage: std::result::Result<StatusView, ErrorView>,
    j: int,
) -> (state: S::Model)
    requires
        is_run(run),
        0 <= i < j < run.len(),
        run[i].receives(run[i + 1], msg, timeout, storage),
        msg.message == (MessageView::ClientRequest { id, request: RequestView::Read(command) }),
        run[i].nodes[msg.to] matches NodeView::Leader(core, role) && msg.term == core.term()
            && is_known(core, msg.from),
        run[j].nodes.contains_key(msg.to),
        run[j].nodes[msg.to] matches NodeView::Leader(core, role) && msg.term == core.term()
            && !is_waiting(role, (run[i].nodes[msg.to]->Leader_1.read_seq + 1) as u64),
    ensures
        exists|m: int| #[trigger] had_at(run, m, (msg.to, state)),
        forall|p: int, b: NodeID|
            0 <= p <= i && #[trigger] run[p].nodes.contains_key(b)
                ==> run[p].nodes[b].base().log.commit_index <= S::applied(state),
        run[j].sent.contains(
            EnvelopeView {
                from: msg.to,
                term: msg.term,
                to: msg.from,
                message: MessageView::ClientResponse {
                    id,
                    response: got(S::reading(state, command)),
                },
            },
        ),
{
    let seq = (run[i].nodes[msg.to]->Leader_1.read_seq + 1) as u64;
    let next = lemma_read_recorded(run, false, i, msg, id, command, timeout, storage);
    let inquiry = next.inquiries[(msg.term, seq)];
    let state = lemma_answered_later(run, false, i + 1, next, j, msg.to, msg.term, seq);
    assert forall|p: int, b: NodeID|
        0 <= p <= i && #[trigger] run[p].nodes.contains_key(
            b,
        ) implies run[p].nodes[b].base().log.commit_index <= S::applied(state) by {
        assert(is_covered(inquiry.known, run[p].nodes[b].base().log.commit_index));
    }
    state
}

// What the states of the nodes are.

/// Whether a node's state is what these entries lead to, one after the other, up to
/// the last one applied, and what the node has committed is among them.
pub open spec fn follows_record<S: State>(
    init: S::Model,
    core: Core<S>,
    all: Seq<EntryView>,
) -> bool {
    let log = core.log;
    &&& core.applied() <= all.len()
    &&& core.state == replay::<S>(init, all.take(core.applied() as int))
    &&& log.commit_index <= all.len()
    &&& forall|index: int|
        index <= log.commit_index && log.holds(index) ==> #[trigger] log.at(index) == all[index - 1]
}

/// Whether these entries are what every node committed and applied, at any moment of a
/// run.
pub open spec fn is_record<S: State>(run: Seq<World<S>>, all: Seq<EntryView>) -> bool {
    forall|i: int, a: NodeID|
        0 <= i < run.len() && #[trigger] run[i].nodes.contains_key(a) ==> follows_record::<S>(
            run[0].init,
            run[i].nodes[a].base(),
            all,
        )
}

/// Whether so many entries are committed.
spec fn is_decided_length(h: History, n: nat) -> bool {
    exists|log: Seq<EntryView>, bound: Term| #[trigger] h.is_decided(log, bound) && log.len() == n
}

/// No more entries are committed than there are indexes.
proof fn lemma_decided_length(h: History, n: nat)
    requires
        h.wf(),
        is_decided_length(h, n),
    ensures
        n <= u64::MAX,
{
    let (log, bound) = choose|log: Seq<EntryView>, bound: Term| #[trigger]
        h.is_decided(log, bound) && log.len() == n;
    if n > 0 {
        let (t, i) = choose|t: Term, i: nat| #[trigger]
            h.commits.contains((t, i)) && t <= bound && log.len() <= i && share(
                log,
                h.log_of(t),
                log.len() as int,
            );
        lemma_commit(h, t, i);
        lemma_reign(h, t);
        assert(h.log_of(t)[n - 1].index == n);
    }
}

/// The greatest number of entries that are committed.
proof fn lemma_longest(h: History, n: nat) -> (longest: nat)
    requires
        h.wf(),
        is_decided_length(h, n),
    ensures
        is_decided_length(h, longest),
        forall|m: nat| #[trigger] is_decided_length(h, m) ==> m <= longest,
    decreases u64::MAX - n,
{
    if exists|m: nat| #[trigger] is_decided_length(h, m) && m > n {
        let m = choose|m: nat| #[trigger] is_decided_length(h, m) && m > n;
        lemma_decided_length(h, m);
        lemma_longest(h, m)
    } else {
        n
    }
}

/// What is committed at one moment, a node at an earlier one follows.
proof fn lemma_follows_record<S: State>(
    w: World<S>,
    given: Given<S>,
    h: History,
    last: History,
    all: Seq<EntryView>,
    bound: Term,
    a: NodeID,
)
    requires
        w.fits(h, given),
        given.init == Some(w.init),
        last.wf(),
        is_after(h, last),
        last.is_decided(all, bound),
        forall|m: nat| #[trigger] is_decided_length(last, m) ==> m <= all.len(),
        w.nodes.contains_key(a),
    ensures
        follows_record::<S>(w.init, w.nodes[a].base(), all),
{
    reveal(traces);
    let core = w.nodes[a].base();
    let log = core.log;
    let whole = h.logs[a];
    assert(node_fits(h, w.nodes[a]));
    assert(traces(Given { sent: w.sent, ..given }, h, core));
    let done = choose|done: Seq<EntryView>| #[trigger]
        is_state_of::<S>(w.init, h, core.term(), core.state, done);
    lemma_after_decided(h, last, done, core.term());
    assert(is_decided_length(last, done.len()));
    decisions_agree(last, done, all, done.len() as int);
    assert(all.take(done.len() as int) =~= done) by {
        assert forall|k: int| 0 <= k < done.len() implies all[k] == done[k] by {
            lemma_share_at(done, all, done.len() as int, k);
        }
    }
    let decided = whole.take(log.commit_index as int);
    lemma_after_decided(h, last, decided, log.term);
    assert(is_decided_length(last, decided.len()));
    decisions_agree(last, decided, all, decided.len() as int);
    assert forall|index: int| index <= log.commit_index && log.holds(index) implies #[trigger] log.at(
        index,
    ) == all[index - 1] by {
        lemma_rest_at(log, whole, index);
        lemma_share_at(decided, all, decided.len() as int, index - 1);
    }
}

/// State machines follow the log: there is one sequence of entries such that the state
/// of every node, at any moment, is what the entries up to the last one applied lead
/// to, one after the other, from the state that every process starts with; and what
/// any node has committed at an index is the entry of the sequence there.
#[verifier::spinoff_prover]
pub proof fn states_follow_what_is_committed<S: State>(run: Seq<World<S>>) -> (all: Seq<EntryView>)
    requires
        is_run(run),
        is_followed(run),
    ensures
        is_record(run, all),
{
    let n = run.len() - 1;
    let given = given_of(run, true);
    let histories = lemma_run_fits(run, true, n);
    let last = histories[n];
    assert(run[n].fits(last, given));
    let none = Seq::<EntryView>::empty();
    assert(last.is_decided(none, 0));
    assert(is_decided_length(last, 0));
    let longest = lemma_longest(last, 0);
    let (all, bound) = choose|log: Seq<EntryView>, bound: Term| #[trigger]
        last.is_decided(log, bound) && log.len() == longest;
    assert forall|i: int, a: NodeID|
        0 <= i < run.len() && #[trigger] run[i].nodes.contains_key(a) implies follows_record::<S>(
        run[0].init,
        run[i].nodes[a].base(),
        all,
    ) by {
        assert(run[i].fits(histories[i], given));
        assert(is_after(histories[i], histories[n]));
        lemma_follows_record(run[i], given, histories[i], last, all, bound, a);
    }
    all
}

/// Whether a leader was asked for a read after moment `i` and the read no longer waits
/// at moment `j`, while the leader is still in office in its term.
#[verifier::opaque]
pub open spec fn is_read_through<S: State>(
    run: Seq<World<S>>,
    i: int,
    msg: EnvelopeView,
    id: RequestID,
    command: Seq<u8>,
    j: int,
) -> bool {
    &&& 0 <= i < j < run.len()
    &&& exists|timeout: Ticks, storage: std::result::Result<StatusView, ErrorView>| #[trigger]
        run[i].receives(run[i + 1], msg, timeout, storage)
    &&& msg.message == (MessageView::ClientRequest { id, request: RequestView::Read(command) })
    &&& run[i].nodes[msg.to] matches NodeView::Leader(core, role) && msg.term == core.term()
        && is_known(core, msg.from)
    &&& run[j].nodes.contains_key(msg.to)
    &&& run[j].nodes[msg.to] matches NodeView::Leader(core, role) && msg.term == core.term()
        && !is_waiting(role, (run[i].nodes[msg.to]->Leader_1.read_seq + 1) as u64)
}

/// Linearizable reads, by what they give: the answer is what the state machine reads
/// after the first `n` entries that the cluster committed, which are no fewer than any
/// node had committed by the moment when the read came.
pub proof fn reads_give_what_was_committed<S: State>(
    run: Seq<World<S>>,
    all: Seq<EntryView>,
    i: int,
    msg: EnvelopeView,
    id: RequestID,
    command: Seq<u8>,
    j: int,
) -> (n: nat)
    requires
        is_run(run),
        is_record(run, all),
        is_read_through(run, i, msg, id, command, j),
    ensures
        n <= all.len(),
        forall|p: int, b: NodeID|
            0 <= p <= i && #[trigger] run[p].nodes.contains_key(b)
                ==> run[p].nodes[b].base().log.commit_index <= n,
        run[j].sent.contains(
            EnvelopeView {
                from: msg.to,
                term: msg.term,
                to: msg.from,
                message: MessageView::ClientResponse {
                    id,
                    response: got(
                        S::reading(replay::<S>(run[0].init, all.take(n as int)), command),
                    ),
                },
            },
        ),
{
    reveal(is_read_through);
    let (timeout, storage) = choose|
        timeout: Ticks,
        storage: std::result::Result<StatusView, ErrorView>,
    | #[trigger]
        run[i].receives(run[i + 1], msg, timeout, storage);
    let state = reads_see_what_was_committed(run, i, msg, id, command, timeout, storage, j);
    let m = choose|m: int| #[trigger] had_at(run, m, (msg.to, state));
    assert(run[m].nodes.contains_key(msg.to));
    assert(follows_record::<S>(run[0].init, run[m].nodes[msg.to].base(), all));
    S::applied(state) as nat
}

} // verus!
