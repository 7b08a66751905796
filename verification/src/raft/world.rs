//! A cluster as a whole: its nodes and every message that was ever sent.

use vstd::prelude::*;

use super::entry::{EntryView, Index, Term};
use super::history::{final_term, lemma_ack, lemma_share_at, lemma_share_less, History};
use super::history_steps::{
    goes_on, lemma_adopting, lemma_still_decided, lemma_still_kept, lemma_still_rooted,
    lemma_suits_stays,
};
use super::ids::NodeID;
use super::log::LogView;
use super::log_laws::is_consistent;
use super::message::{EnvelopeView, MessageView, ReadSequence};
use super::model::{
    apply_all, applying_committed, is_last_change, CandidateView, Core, ElectionPhase, LeaderView,
    NodeView,
};
use super::membership::MembershipStateView;
use super::state::State;

verus! {

/// Whether a log is what is left of `whole` after its first entries were compacted
/// away.
pub open spec fn is_rest_of(log: LogView, whole: Seq<EntryView>) -> bool {
    &&& is_consistent(log)
    &&& whole.len() == log.last_index()
    &&& whole.len() < u64::MAX
    &&& log.entries == whole.skip(log.first_index - 1)
    &&& log.snapshot_term == final_term(whole.take(log.first_index - 1))
    &&& log.kept_term is None
}

/// Whether a node's log fits the history.
pub open spec fn log_fits(h: History, node: NodeID, log: LogView) -> bool {
    let whole = h.logs[node];
    &&& is_rest_of(log, whole)
    &&& h.is_rooted(whole)
    &&& forall|k: int| 0 <= k < whole.len() ==> (#[trigger] whole[k]).term <= log.term
    &&& h.is_decided(whole.take(log.commit_index as int), log.term)
    &&& log.commit_term == final_term(whole.take(log.commit_index as int))
}

/// Whether what a node did fits the history.
pub open spec fn deeds_fit(h: History, node: NodeID, log: LogView) -> bool {
    let term = log.term;
    &&& h.terms.contains_key(node)
    &&& h.terms[node] == term
    &&& forall|t: Term| #[trigger] h.acks.contains_key((node, t)) ==> t <= term
    &&& forall|t: Term, n: nat|
        h.acked(node, t, n) ==> #[trigger] h.kept(h.logs[node], t, n as int, term + 1)
    &&& forall|t: Term| #[trigger]
        h.ballots.contains_key((node, t)) ==> t <= term && (t == term ==> log.vote == Some(
            h.ballots[(node, t)].candidate,
        ))
    &&& log.vote matches Some(_) ==> h.ballots.contains_key((node, term))
    &&& forall|t: Term| #[trigger] h.campaigns.contains_key((node, t)) ==> t <= term
    &&& forall|t: Term| #[trigger]
        h.reigns.contains_key(t) && h.reigns[t].leader == node ==> t <= term
}

/// Whether the part of a node's state that does not depend on its role fits the
/// history.
pub open spec fn core_fits<S: State>(h: History, core: Core<S>) -> bool {
    &&& h.suits(h.logs[core.id], core.log.term + 1, core.membership.active)
    &&& core.membership.change_pending || is_last_change(core.log, core.log.commit_index)
    &&& log_fits(h, core.id, core.log)
    &&& deeds_fit(h, core.id, core.log)
}

/// Whether a candidate's role fits the history.
pub open spec fn candidate_fits<S: State>(h: History, core: Core<S>, role: CandidateView) -> bool {
    role.phase == ElectionPhase::Election ==> {
        &&& h.campaigns.contains_key((core.id, core.term()))
        &&& h.campaigns[(core.id, core.term())] == h.logs[core.id]
        &&& h.suits(h.logs[core.id], core.term() as int, core.membership.active)
        &&& !(h.reigns.contains_key(core.term()) && h.reigns[core.term()].leader == core.id)
        &&& forall|who: NodeID| #[trigger]
            role.votes.contains(who) ==> h.ballots.contains_key((who, core.term())) && h.ballots[(
                who,
                core.term(),
            )].candidate == core.id
    }
}

/// Whether what a leader was asked to read fits the history: each read waits, or was
/// answered.
pub open spec fn reads_fit(h: History, term: Term, role: LeaderView) -> bool {
    &&& role.read_seq > 0 ==> h.inquiries.contains_key((term, role.read_seq))
    &&& forall|seq: ReadSequence| #[trigger]
        h.inquiries.contains_key((term, seq)) ==> {
            &&& seq <= role.read_seq
            &&& h.inquiries[(term, seq)].answer is Some || is_waiting(role, seq)
        }
    &&& forall|k: int|
        0 <= k < role.reads.len() ==> {
            let read = #[trigger] role.reads[k];
            let inquiry = h.inquiries[(term, read.seq)];
            &&& h.inquiries.contains_key((term, read.seq))
            &&& inquiry.from == read.from
            &&& inquiry.id == read.id
            &&& inquiry.command == read.command
            &&& inquiry.answer is None
        }
    &&& forall|j: int, k: int|
        0 <= j < k < role.reads.len() ==> (#[trigger] role.reads[j]).seq < (
        #[trigger] role.reads[k]).seq
    &&& forall|peer: NodeID| #[trigger]
        role.progress.contains_key(peer) && role.progress[peer].read_seq > 0 ==> h.confirmed(
            peer,
            term,
            role.progress[peer].read_seq,
        )
}

/// Whether the read with this number waits for its answer.
pub open spec fn is_waiting(role: LeaderView, seq: ReadSequence) -> bool {
    exists|k: int| 0 <= k < role.reads.len() && (#[trigger] role.reads[k]).seq == seq
}

/// Whether a leader's role fits the history.
pub open spec fn leader_fits<S: State>(h: History, core: Core<S>, role: LeaderView) -> bool {
    &&& reads_fit(h, core.term(), role)
    &&& forall|n: nat| #[trigger]
        h.commits.contains((core.term(), n)) ==> n <= core.log.commit_index
    &&& h.reigns.contains_key(core.term())
    &&& h.reigns[core.term()].leader == core.id
    &&& h.log_of(core.term()) == h.logs[core.id]
    &&& core.membership.active == h.config_in(core.term(), h.logs[core.id].len() as int)
    &&& forall|peer: NodeID| #[trigger]
        role.progress.contains_key(peer) ==> {
            &&& peer != core.id
            &&& 1 <= role.progress[peer].next_index <= core.log.last_index() + 1
            &&& role.progress[peer].match_index > 0 ==> h.acked(
                peer,
                core.term(),
                role.progress[peer].match_index as nat,
            )
        }
}

/// Whether a node fits the history.
pub open spec fn node_fits<S: State>(h: History, node: NodeView<S>) -> bool {
    &&& core_fits(h, node.base())
    &&& match node {
        NodeView::Follower(..) => true,
        NodeView::Candidate(core, role) => candidate_fits(h, core, role),
        NodeView::Leader(core, role) => leader_fits(h, core, role),
    }
}

/// Whether a message is one that the leader of its term sends.
pub open spec fn is_from_leader(h: History, msg: EnvelopeView) -> bool {
    &&& h.reigns.contains_key(msg.term)
    &&& h.reigns[msg.term].leader == msg.from
    &&& msg.to != msg.from
}

/// Whether a message fits the history.
pub open spec fn message_fits(h: History, msg: EnvelopeView) -> bool {
    match msg.message {
        MessageView::Campaign { last_index, last_term } => {
            &&& h.campaigns.contains_key((msg.from, msg.term))
            &&& last_index == h.campaigns[(msg.from, msg.term)].len()
            &&& last_term == final_term(h.campaigns[(msg.from, msg.term)])
        },
        MessageView::CampaignResponse { vote } => vote ==> {
            &&& h.ballots.contains_key((msg.from, msg.term))
            &&& h.ballots[(msg.from, msg.term)].candidate == msg.to
        },
        MessageView::Heartbeat { commit_index, read_seq, .. } => {
            &&& is_from_leader(h, msg)
            &&& read_seq > 0 ==> h.inquiries.contains_key((msg.term, read_seq))
            &&& commit_index <= h.log_of(msg.term).len()
            &&& h.is_decided(h.log_of(msg.term).take(commit_index as int), msg.term)
        },
        MessageView::Append { base_index, base_term, entries } => {
            &&& is_from_leader(h, msg)
            &&& base_index + entries.len() <= h.log_of(msg.term).len()
            &&& entries == h.log_of(msg.term).subrange(
                base_index as int,
                base_index + entries.len(),
            )
            &&& base_index > 0 ==> base_term == h.log_of(msg.term)[base_index - 1].term
        },
        MessageView::Read { seq } => {
            &&& is_from_leader(h, msg)
            &&& seq > 0 ==> h.inquiries.contains_key((msg.term, seq))
        },
        MessageView::ReadResponse { seq } => seq > 0 ==> h.confirmed(msg.from, msg.term, seq),
        MessageView::InstallSnapshot {
            last_included_index,
            last_included_term,
            membership,
            ..
        } => {
            &&& is_from_leader(h, msg)
            &&& 0 < last_included_index <= h.log_of(msg.term).len()
            &&& last_included_term == h.log_of(msg.term)[last_included_index - 1].term
            &&& h.is_decided(h.log_of(msg.term).take(last_included_index as int), msg.term)
            &&& h.suits(
                h.log_of(msg.term).take(last_included_index as int),
                msg.term + 1,
                membership,
            )
        },
        MessageView::HeartbeatResponse { match_index, read_seq } => {
            &&& match_index > 0 ==> h.acked(msg.from, msg.term, match_index as nat)
            &&& read_seq > 0 ==> h.confirmed(msg.from, msg.term, read_seq)
        },
        MessageView::AppendResponse { match_index, .. } => match_index > 0 ==> h.acked(
            msg.from,
            msg.term,
            match_index as nat,
        ),
        MessageView::InstallSnapshotResponse { last_included_index } => last_included_index > 0
            ==> h.acked(msg.from, msg.term, last_included_index as nat),
        _ => true,
    }
}

/// Whether everything that a node sent fits the history.
pub open spec fn messages_fit(h: History, out: Seq<EnvelopeView>) -> bool {
    forall|k: int| 0 <= k < out.len() ==> message_fits(h, #[trigger] out[k])
}

// What stays true when the history goes on.

pub proof fn lemma_message_still_fits(h: History, next: History, node: NodeID, msg: EnvelopeView)
    requires
        h.wf(),
        goes_on(h, next, node),
        message_fits(h, msg),
    ensures
        message_fits(next, msg),
{
    reveal(goes_on);
    let term = msg.term;
    if h.reigns.contains_key(term) {
        let before = h.log_of(term);
        let after = next.log_of(term);
        match msg.message {
            MessageView::Heartbeat { commit_index, .. } => {
                lemma_still_decided(
                    h,
                    next,
                    node,
                    before.take(commit_index as int),
                    term,
                    term,
                );
                lemma_share_less(after, before, before.len() as int, commit_index as int);
            },
            MessageView::Append { base_index, base_term, entries } => {
                let end = base_index + entries.len();
                lemma_share_less(after, before, before.len() as int, end);
                assert(after.subrange(base_index as int, end) =~= after.take(end).subrange(
                    base_index as int,
                    end,
                ));
                assert(before.subrange(base_index as int, end) =~= before.take(end).subrange(
                    base_index as int,
                    end,
                ));
                if base_index > 0 {
                    lemma_share_at(after, before, before.len() as int, base_index - 1);
                }
            },
            MessageView::InstallSnapshot { last_included_index, membership, .. } => {
                lemma_suits_stays(
                    h,
                    next,
                    node,
                    before.take(last_included_index as int),
                    term + 1,
                    term + 1,
                    membership,
                );
                lemma_still_decided(
                    h,
                    next,
                    node,
                    before.take(last_included_index as int),
                    term,
                    term,
                );
                lemma_share_less(after, before, before.len() as int, last_included_index as int);
                lemma_share_at(after, before, before.len() as int, last_included_index - 1);
            },
            _ => {},
        }
    }
}

pub proof fn lemma_messages_still_fit(
    h: History,
    next: History,
    node: NodeID,
    out: Seq<EnvelopeView>,
)
    requires
        h.wf(),
        goes_on(h, next, node),
        messages_fit(h, out),
    ensures
        messages_fit(next, out),
{
    assert forall|k: int| 0 <= k < out.len() implies message_fits(next, #[trigger] out[k]) by {
        lemma_message_still_fits(h, next, node, out[k]);
    }
}

/// A log still fits when the history goes on without a change of it.
pub proof fn lemma_log_still_fits(
    h: History,
    next: History,
    node: NodeID,
    who: NodeID,
    log: LogView,
)
    requires
        h.wf(),
        goes_on(h, next, node),
        next.logs[who] == h.logs[who],
        log_fits(h, who, log),
    ensures
        log_fits(next, who, log),
{
    let whole = h.logs[who];
    lemma_still_rooted(h, next, node, whole);
    lemma_still_decided(h, next, node, whole.take(log.commit_index as int), log.term, log.term);
}

/// Another node still fits when the history goes on by what `node` does.
pub proof fn lemma_others_still_fit<S: State>(
    h: History,
    next: History,
    node: NodeID,
    other: NodeView<S>,
)
    requires
        h.wf(),
        goes_on(h, next, node),
        node_fits(h, other),
        other.base().id != node,
    ensures
        node_fits(next, other),
{
    reveal(goes_on);
    let core = other.base();
    let who = core.id;
    let term = core.term();
    assert(next.logs[who] == h.logs[who]);
    lemma_log_still_fits(h, next, node, who, core.log);
    let config = core.membership.active;
    lemma_suits_stays(h, next, node, h.logs[who], term + 1, term + 1, config);
    assert forall|t: Term, n: nat| next.acked(who, t, n) implies #[trigger] next.kept(
        next.logs[who],
        t,
        n as int,
        term + 1,
    ) by {
        assert(next.acks.contains_key((who, t)));
        assert(h.acked(who, t, n));
        lemma_ack(h, who, t);
        assert(h.kept(h.logs[who], t, n as int, term + 1));
        lemma_still_kept(h, next, node, h.logs[who], t, n as int, term + 1, term + 1);
    }
    assert(deeds_fit(next, who, core.log)) by {
        assert forall|t: Term| #[trigger]
            next.reigns.contains_key(t) && next.reigns[t].leader == who implies t <= term by {
            assert(h.reigns.contains_key(t));
        }
        assert forall|t: Term| #[trigger] next.ballots.contains_key((who, t)) implies t <= term
            && (t == term ==> core.log.vote == Some(next.ballots[(who, t)].candidate)) by {
            assert(h.ballots.contains_key((who, t)));
        }
    }
    match other {
        NodeView::Follower(..) => {},
        NodeView::Candidate(core, role) => {
            if role.phase == ElectionPhase::Election {
                lemma_suits_stays(h, next, node, h.logs[who], term as int, term as int, config);
                assert forall|voter: NodeID| #[trigger] role.votes.contains(voter) implies
                    next.ballots.contains_key((voter, term)) && next.ballots[(
                    voter,
                    term,
                )].candidate == who by {
                    assert(h.ballots.contains_key((voter, term)));
                }
                assert(h.campaigns.contains_key((who, term)));
                if next.reigns.contains_key(term) && next.reigns[term].leader == who {
                    assert(h.reigns.contains_key(term));
                }
            }
        },
        NodeView::Leader(core, role) => {
            assert(h.reigns.contains_key(term));
            assert(reads_fit(next, term, role)) by {
                assert forall|seq: ReadSequence| #[trigger]
                    next.inquiries.contains_key((term, seq)) implies {
                    &&& seq <= role.read_seq
                    &&& next.inquiries[(term, seq)].answer is Some || is_waiting(role, seq)
                } by {
                    assert(h.inquiries.contains_key((term, seq)));
                }
            }
        },
    }
}

// What a node does that leaves the history alone.

/// A node still fits in a later term, in which it has not voted.
pub proof fn lemma_later_term_fits(h: History, node: NodeID, log: LogView, term: Term)
    requires
        h.wf(),
        log_fits(h, node, log),
        deeds_fit(h, node, log),
        term > log.term,
    ensures
        h.adopting(node, term).wf(),
        goes_on(h, h.adopting(node, term), node),
        log_fits(h.adopting(node, term), node, LogView { term, vote: None, ..log }),
        deeds_fit(h.adopting(node, term), node, LogView { term, vote: None, ..log }),
{
    reveal(goes_on);
    let next = h.adopting(node, term);
    lemma_adopting(h, node, term);
    let whole = h.logs[node];
    lemma_still_rooted(h, next, node, whole);
    lemma_still_decided(h, next, node, whole.take(log.commit_index as int), log.term, term);
    assert forall|t: Term, n: nat| next.acked(node, t, n) implies #[trigger] next.kept(
        whole,
        t,
        n as int,
        term + 1,
    ) by {
        assert(h.acked(node, t, n));
        lemma_ack(h, node, t);
        assert(h.kept(whole, t, n as int, log.term + 1));
        lemma_still_kept(h, next, node, whole, t, n as int, log.term + 1, term + 1);
    }
}

/// Applying entries does not change the configuration, and a change is not taken to be
/// over while the log has one that is not committed.
pub proof fn lemma_apply_all<S: State>(
    log: LogView,
    state: S::Model,
    membership: MembershipStateView,
    entries: Seq<EntryView>,
    commit_index: Index,
)
    requires
        membership.change_pending || is_last_change(log, commit_index),
        forall|k: int| 0 <= k < entries.len() ==> (#[trigger] entries[k]).index <= commit_index,
    ensures
        ({
            let after = apply_all::<S>(log, state, membership, entries).1;
            &&& after.active == membership.active
            &&& after.change_pending || is_last_change(log, commit_index)
        }),
    decreases entries.len(),
{
    if entries.len() > 0 {
        let rest = entries.drop_last();
        assert forall|k: int| 0 <= k < rest.len() implies (#[trigger] rest[k]).index
            <= commit_index by {
            assert(rest[k] == entries[k]);
        }
        lemma_apply_all::<S>(log, state, membership, rest, commit_index);
        assert(entries[entries.len() - 1].index <= commit_index);
    }
}

/// What is committed is not after the commit index.
pub proof fn lemma_slice_committed(log: LogView, low: int)
    requires
        is_consistent(log),
    ensures
        ({
            let entries = log.slice(low, log.commit_index as int);
            forall|k: int|
                0 <= k < entries.len() ==> (#[trigger] entries[k]).index <= log.commit_index
        }),
{
    let entries = log.slice(low, log.commit_index as int);
    let from = if low < log.first_index {
        0
    } else {
        low - log.first_index
    };
    assert forall|k: int| 0 <= k < entries.len() implies (#[trigger] entries[k]).index
        <= log.commit_index by {
        assert(entries[k] == log.entries[from + k]);
    }
}

/// A node still fits when it has applied what is committed.
pub proof fn lemma_applying_fits<S: State>(h: History, core: Core<S>)
    requires
        h.wf(),
        core_fits(h, core),
    ensures
        core_fits(h, applying_committed(core)),
        applying_committed(core).log == core.log,
        applying_committed(core).out == core.out,
        applying_committed(core).id == core.id,
{
    let entries = core.log.slice(core.applied() + 1, core.log.commit_index as int);
    lemma_slice_committed(core.log, core.applied() + 1);
    lemma_apply_all::<S>(
        core.log,
        core.state,
        core.membership,
        entries,
        core.log.commit_index,
    );
}

/// What the log has at an index is what the whole log has there.
pub proof fn lemma_rest_at(log: LogView, whole: Seq<EntryView>, index: int)
    requires
        is_rest_of(log, whole),
        log.first_index - 1 <= index <= log.last_index(),
        index > 0,
    ensures
        log.term_at(index) == whole[index - 1].term,
        log.first_index <= index ==> log.at(index) == whole[index - 1],
{
    if index >= log.first_index {
        assert(log.entries[index - log.first_index] == whole[index - 1]);
    } else {
        assert(whole.take(index).last() == whole[index - 1]);
    }
}

/// The last entry of a log is that of the whole log.
pub proof fn lemma_rest_last(log: LogView, whole: Seq<EntryView>)
    requires
        is_rest_of(log, whole),
    ensures
        log.last_term() == final_term(whole),
{
    if log.entries.len() > 0 {
        assert(log.entries.last() == whole[whole.len() - 1]);
    } else {
        assert(whole.take(log.first_index - 1) =~= whole);
    }
}

} // verus!
