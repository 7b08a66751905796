//! What replication is for: followers come to have the leader's log, the leader finds out
//! how much of it they have, and what more than half of the voters have is committed and
//! applied.

use vstd::prelude::*;

use super::election_laws::{is_more_than_half, quorums_are_more_than_half, Storage};
use super::entry::{EntryView, Index, Term};
use super::ids::{ascending, NodeID};
use super::laws::{commits_need_a_quorum, reads_are_confirmed};
use super::leader::{
    lemma_applying_all, lemma_commit_target, lemma_confirming, lemma_reading, lemma_sending_keeps,
    lemma_settling_all,
};
use super::log::LogView;
use super::log_laws::{
    is_consistent, lemma_agreeing, slices_have_what_is_between, splice_keeps_committed,
};
use super::membership::MembershipView;
use super::message::{AnswerView, EnvelopeView, MessageView, ReadSequence, ResponseView};
use super::model::{
    by_id, changes_of, concluding, stepping, waiting_reads, waiting_writes, Core, LeaderView, Led,
    NodeView, Ticks, Write,
};
use super::restart::{lemma_apply_all, replay};
use super::state::State;
use crate::error::ErrorView;

verus! {

// Followers.

/// Whether a node takes the sender of a message for the leader of its term: the message
/// is of a later term, or the node leads nobody and knows no other leader.
pub open spec fn follows<S: State>(node: NodeView<S>, msg: EnvelopeView) -> bool {
    &&& node.base().voters().contains(msg.from)
    &&& {
        ||| msg.term > node.base().term()
        ||| msg.term == node.base().term() && match node {
            NodeView::Follower(_, role) => role.leader is None || role.leader == Some(msg.from),
            NodeView::Candidate(..) => true,
            NodeView::Leader(..) => false,
        }
    }
}

/// The log of a node once it is in the term of a message.
pub open spec fn log_in_term<S: State>(node: NodeView<S>, term: Term) -> LogView {
    if term > node.base().term() {
        LogView { term, vote: None, ..node.base().log }
    } else {
        node.base().log
    }
}

/// Whether a log has an entry with this index and term, among its entries or at the end
/// of its snapshot.
pub open spec fn has_entry(log: LogView, index: Index, term: Term) -> bool {
    ||| index == log.first_index - 1 && term == log.snapshot_term
    ||| exists|k: int|
        0 <= k < log.entries.len() && (#[trigger] log.entries[k]).index == index
            && log.entries[k].term == term
}

/// A log has an entry if and only if it is one of its entries or the end of its snapshot.
pub proof fn logs_have_their_entries(log: LogView, index: Index, term: Term)
    requires
        is_consistent(log),
        index > 0,
    ensures
        log.has(index as int, term) <==> has_entry(log, index, term),
{
    if log.has(index as int, term) && index >= log.first_index {
        assert(log.entries[index - log.first_index].index == index);
    }
    if has_entry(log, index, term) && !(index == log.first_index - 1 && term
        == log.snapshot_term) {
        let k = choose|k: int|
            0 <= k < log.entries.len() && (#[trigger] log.entries[k]).index == index
                && log.entries[k].term == term;
        assert(log.entries[k].index == log.first_index + k);
    }
}

/// A node takes entries from its leader if and only if it has the entry that they come
/// after, or they come first. It answers with the index of the last of them, or of the
/// entry before if there are none. Otherwise it answers with an index that the leader is to
/// go back to: a positive one, no later than the entry that it lacks and no later than one
/// past the end of its log, and the latest such. Its log is then as it was.
#[verifier::rlimit(40)]
#[verifier::spinoff_prover]
pub proof fn appends_are_answered<S: State>(
    node: NodeView<S>,
    msg: EnvelopeView,
    base_index: Index,
    base_term: Term,
    entries: Seq<EntryView>,
    timeout: Ticks,
    storage: Storage,
)
    requires
        is_consistent(node.base().log),
        node.base().log.last_index() < u64::MAX,
        follows(node, msg),
        msg.message == (MessageView::Append { base_index, base_term, entries }),
        forall|k: int| 0 <= k < entries.len() ==> #[trigger] entries[k].index == base_index + 1 + k,
    ensures
        ({
            let log = log_in_term(node, msg.term);
            let r = stepping(node, msg, timeout, storage);
            &&& r matches Ok(NodeView::Follower(next, role))
            &&& role.leader == Some(msg.from)
            &&& role.leader_seen == 0
            &&& next.state == node.base().state
            &&& next.out.len() > node.base().out.len()
            &&& next.out.last() == (EnvelopeView {
                from: node.base().id,
                term: msg.term,
                to: msg.from,
                message: next.out.last().message,
            })
            &&& next.out.last().message matches MessageView::AppendResponse {
                match_index,
                reject_index,
            }
            &&& if base_index == 0 || has_entry(log, base_index, base_term) {
                &&& match_index == base_index + entries.len()
                &&& reject_index == 0
                &&& next.log == log.splicing(entries)
            } else {
                &&& match_index == 0
                &&& 0 < reject_index <= base_index
                &&& reject_index <= log.last_index() + 1
                &&& reject_index == base_index || reject_index == log.last_index() + 1
                &&& next.log == log
            }
        }),
{
    if base_index > 0 {
        logs_have_their_entries(log_in_term(node, msg.term), base_index, base_term);
    }
    if entries.len() > 0 {
        assert(entries[entries.len() - 1].index == base_index + entries.len());
    }
}

/// A rejection takes the leader back: the leader that hears it sends an append that comes
/// after a strictly earlier entry than the one that was rejected, though never before what
/// it knows to match, or a snapshot if that is what the follower needs. So rejections come
/// to an end.
#[verifier::rlimit(40)]
#[verifier::spinoff_prover]
pub proof fn rejections_lead_back<S: State>(
    follower: NodeView<S>,
    msg: EnvelopeView,
    base_index: Index,
    base_term: Term,
    entries: Seq<EntryView>,
    core: Core<S>,
    role: LeaderView,
    timeout: Ticks,
    storage: Storage,
)
    requires
        is_consistent(follower.base().log),
        follower.base().log.last_index() < u64::MAX,
        follows(follower, msg),
        msg.message == (MessageView::Append { base_index, base_term, entries }),
        forall|k: int| 0 <= k < entries.len() ==> #[trigger] entries[k].index == base_index + 1 + k,
        base_index > 0,
        !has_entry(log_in_term(follower, msg.term), base_index, base_term),
        // The leader that sent it, and that still has it that the follower lacks it.
        is_consistent(core.log),
        core.term() == msg.term,
        core.id == msg.from,
        core.voters().contains(follower.base().id),
        core.log.last_index() < u64::MAX,
        base_index <= core.log.last_index(),
        role.progress.contains_key(follower.base().id),
        role.progress[follower.base().id].match_index < base_index,
        role.progress[follower.base().id].match_index <= log_in_term(
            follower,
            msg.term,
        ).last_index(),
        role.progress[follower.base().id].next_index > base_index,
    ensures
        ({
            let peer = follower.base().id;
            let known = role.progress[peer].match_index;
            &&& stepping(follower, msg, timeout, storage) matches Ok(rejecting)
            &&& stepping(
                NodeView::Leader(core, role),
                rejecting.base().out.last(),
                timeout,
                storage,
            ) matches Ok(after) ==> {
                &&& after matches NodeView::Leader(next, led)
                &&& next == (Core { out: next.out, ..core })
                &&& next.out.len() == core.out.len() + 1
                &&& next.out.last() == (EnvelopeView {
                    from: core.id,
                    term: core.term(),
                    to: peer,
                    message: next.out.last().message,
                })
                &&& match next.out.last().message {
                    MessageView::Append { base_index: earlier, base_term: term, entries: more } => {
                        &&& known <= earlier < base_index
                        &&& earlier <= log_in_term(follower, msg.term).last_index()
                        &&& earlier > 0 ==> has_entry(core.log, earlier, term)
                        &&& earlier > known ==> more.len() == 0 && led.progress[peer].next_index
                            == earlier + 1
                    },
                    MessageView::InstallSnapshot { last_included_index, .. } => {
                        &&& last_included_index == core.log.first_index - 1
                        &&& led.progress[peer].next_index <= last_included_index
                    },
                    _ => false,
                }
            }
        }),
{
    appends_are_answered(follower, msg, base_index, base_term, entries, timeout, storage);
    let answer = stepping(follower, msg, timeout, storage)->Ok_0.base().out.last();
    let led = Led { core, role, failed: None };
    let peer = follower.base().id;
    let index = answer.message->AppendResponse_reject_index;
    let noted = led.noting(peer);
    let progress = noted.role.progress[peer];
    assert(progress == role.progress[peer]);
    assert(index > progress.match_index);
    assert(progress.regresses(index));
    let back = noted.with_progress(peer, progress.regressing(index));
    assert(back.role.progress[peer].next_index == index);
    let after = back.sending_append(peer, true);
    if !back.needs_snapshot(peer) {
        assert(back.has_append(peer, true));
        let earlier = (index - 1) as u64;
        if earlier > 0 {
            logs_have_their_entries(core.log, earlier, core.log.term_at(earlier as int));
        }
        assert(after.core.out.last().message is Append);
    }
}

/// Entries that a log can take bring it in line with them: before them it is as it was; it
/// has each of them; and what it had after them is gone if one of them was not there before,
/// and stays otherwise.
pub proof fn splices_bring_logs_in_line(log: LogView, entries: Seq<EntryView>)
    requires
        is_consistent(log),
        entries.len() > 0,
        log.spliceable(entries),
    ensures
        ({
            let after = log.splicing(entries);
            let there = forall|k: int|
                0 <= k < entries.len() ==> log.holds((#[trigger] entries[k]).index as int)
                    && log.at(entries[k].index as int).term == entries[k].term;
            &&& after.first_index == log.first_index
            &&& forall|index: int|
                log.first_index <= index < entries[0].index ==> #[trigger] after.holds(index)
                    && after.at(index) == log.at(index)
            &&& forall|k: int|
                0 <= k < entries.len() && entries[k].index >= log.first_index
                    ==> #[trigger] after.holds(entries[k].index as int) && after.at(
                    entries[k].index as int,
                ) == entries[k]
            &&& there ==> after == log
            &&& !there ==> after.last_index() == entries.last().index
        }),
{
    lemma_agreeing(log, entries);
    splice_keeps_committed(log, entries);
    let n = log.agreeing(entries) as int;
    let after = log.splicing(entries);
    let there = forall|k: int|
        0 <= k < entries.len() ==> log.holds((#[trigger] entries[k]).index as int) && log.at(
            entries[k].index as int,
        ).term == entries[k].term;
    if n < entries.len() {
        lemma_stops_agreeing(log, entries);
        assert(!there) by {
            if there {
                assert(log.holds(entries[n].index as int));
            }
        }
        let kept = entries[n].index - log.first_index;
        assert(entries[n].index == entries[0].index + n);
        if n > 0 {
            assert(log.holds(entries[n - 1].index as int));
            assert(entries[n - 1].index == entries[0].index + (n - 1));
        }
        assert(entries[entries.len() - 1].index == entries[0].index + (entries.len() - 1));
        assert forall|k: int|
            0 <= k < entries.len() && entries[k].index
                >= log.first_index implies #[trigger] after.holds(entries[k].index as int)
            && after.at(entries[k].index as int) == entries[k] by {
            assert(entries[k].index == entries[0].index + k);
            if k < n {
                assert(log.holds(entries[k].index as int));
                lemma_same_entry(log, entries, k);
            } else {
                assert(after.entries[kept + (k - n)] == entries.skip(n)[k - n]);
            }
        }
        assert forall|index: int|
            log.first_index <= index < entries[0].index implies #[trigger] after.holds(index)
            && after.at(index) == log.at(index) by {
            assert(after.entries[index - log.first_index] == log.entries[index - log.first_index]);
        }
    } else {
        assert(there);
        assert forall|k: int|
            0 <= k < entries.len() && entries[k].index
                >= log.first_index implies #[trigger] after.holds(entries[k].index as int)
            && after.at(entries[k].index as int) == entries[k] by {
            assert(log.holds(entries[k].index as int));
            lemma_same_entry(log, entries, k);
        }
        assert(log.holds(entries[0].index as int));
    }
}

proof fn lemma_same_entry(log: LogView, entries: Seq<EntryView>, k: int)
    requires
        is_consistent(log),
        log.spliceable(entries),
        0 <= k < log.agreeing(entries) <= entries.len(),
    ensures
        log.at(entries[k].index as int) == entries[k],
{
    lemma_agreeing(log, entries);
    let index = entries[k].index;
    assert(log.holds(index as int));
    assert(log.entries[index - log.first_index].index == index);
}

/// The first of `entries` that does not count as agreeing is not in the log.
proof fn lemma_stops_agreeing(log: LogView, entries: Seq<EntryView>)
    requires
        log.agreeing(entries) < entries.len(),
    ensures
        ({
            let entry = entries[log.agreeing(entries) as int];
            !(log.holds(entry.index as int) && log.at(entry.index as int).term == entry.term)
        }),
    decreases entries.len(),
{
    if log.agreeing(entries) > 0 {
        lemma_stops_agreeing(log, entries.skip(1));
    }
}

/// A node answers a heartbeat of its leader with the leader's last index if it has that
/// entry, of the leader's term, and with 0 otherwise, and gives the number of the read
/// back. If it has it, then what the leader committed is committed here too, and applied in
/// order; otherwise nothing is. No entry changes.
#[verifier::rlimit(40)]
#[verifier::spinoff_prover]
pub proof fn heartbeats_are_answered<S: State>(
    node: NodeView<S>,
    msg: EnvelopeView,
    last_index: Index,
    commit_index: Index,
    read_seq: ReadSequence,
    timeout: Ticks,
    storage: Storage,
)
    requires
        is_consistent(node.base().log),
        follows(node, msg),
        msg.message == (MessageView::Heartbeat { last_index, commit_index, read_seq }),
        commit_index <= last_index,
    ensures
        ({
            let log = log_in_term(node, msg.term);
            let same = last_index > 0 && has_entry(log, last_index, msg.term);
            let advances = same && commit_index > log.commit_index;
            &&& stepping(node, msg, timeout, storage) matches Ok(NodeView::Follower(next, role))
            &&& role.leader == Some(msg.from)
            &&& role.leader_seen == 0
            &&& next.out.len() > node.base().out.len()
            &&& next.out.last() == (EnvelopeView {
                from: node.base().id,
                term: msg.term,
                to: msg.from,
                message: MessageView::HeartbeatResponse {
                    match_index: if same {
                        last_index
                    } else {
                        0
                    },
                    read_seq,
                },
            })
            &&& next.log.entries == log.entries
            &&& (next.log.term, next.log.vote, next.log.first_index) == (
                log.term,
                log.vote,
                log.first_index,
            )
            &&& next.log.commit_index == if advances {
                commit_index
            } else {
                log.commit_index
            }
            &&& next.log.commit_term == if advances {
                log.at(commit_index as int).term
            } else {
                log.commit_term
            }
            &&& next.state == if advances {
                replay::<S>(
                    node.base().state,
                    log.slice(node.base().applied() + 1, commit_index as int),
                )
            } else {
                node.base().state
            }
        }),
{
    let log = log_in_term(node, msg.term);
    if last_index > 0 {
        logs_have_their_entries(log, last_index, msg.term);
    }
    if last_index > 0 && has_entry(log, last_index, msg.term) && commit_index > log.commit_index {
        let later = log.committing(commit_index);
        let entries = later.slice(node.base().applied() + 1, commit_index as int);
        assert(entries == log.slice(node.base().applied() + 1, commit_index as int));
        lemma_apply_all::<S>(later, node.base().state, node.base().membership, entries);
    }
}

/// A node confirms to its leader the read that it asks about, and nothing else changes but
/// the term and the leader.
#[verifier::rlimit(40)]
pub proof fn read_requests_are_confirmed<S: State>(
    node: NodeView<S>,
    msg: EnvelopeView,
    seq: ReadSequence,
    timeout: Ticks,
    storage: Storage,
)
    requires
        follows(node, msg),
        msg.message == (MessageView::Read { seq }),
    ensures
        ({
            &&& stepping(node, msg, timeout, storage) matches Ok(NodeView::Follower(next, role))
            &&& role.leader == Some(msg.from)
            &&& next.log == log_in_term(node, msg.term)
            &&& next.state == node.base().state
            &&& next.out.len() > node.base().out.len()
            &&& next.out.last() == (EnvelopeView {
                from: node.base().id,
                term: msg.term,
                to: msg.from,
                message: MessageView::ReadResponse { seq },
            })
        }),
{
}

/// A node installs a snapshot of its leader if and only if it ends no earlier than its own
/// snapshot and than what it has applied. Its state is then that of the snapshot, and its
/// log begins after it, with everything before it committed. It answers with the index
/// either way, unless the snapshot cannot be read.
#[verifier::rlimit(40)]
#[verifier::spinoff_prover]
pub proof fn snapshots_are_installed<S: State>(
    node: NodeView<S>,
    msg: EnvelopeView,
    index: Index,
    term: Term,
    data: Seq<u8>,
    membership: MembershipView,
    timeout: Ticks,
    storage: Storage,
)
    requires
        follows(node, msg),
        node.base().log.first_index >= 1,
        msg.message == (MessageView::InstallSnapshot {
            last_included_index: index,
            last_included_term: term,
            data,
            membership,
        }),
        index < u64::MAX,
    ensures
        ({
            let log = log_in_term(node, msg.term);
            let newer = index + 1 >= log.first_index && index >= node.base().applied();
            let r = stepping(node, msg, timeout, storage);
            &&& newer && S::restoring(node.base().state, data, index) is Err <==> r is Err
            &&& r matches Ok(after) ==> {
                &&& after matches NodeView::Follower(next, role)
                &&& role.leader == Some(msg.from)
                &&& next.out.len() > node.base().out.len()
                &&& next.out.last() == (EnvelopeView {
                    from: node.base().id,
                    term: msg.term,
                    to: msg.from,
                    message: MessageView::InstallSnapshotResponse { last_included_index: index },
                })
                &&& !newer ==> next.log == log && next.state == node.base().state
                    && next.membership == node.base().membership
                &&& newer ==> {
                    &&& S::restoring(node.base().state, data, index) == Ok::<S::Model, ErrorView>(
                        next.state,
                    )
                    &&& next.log.entries == Seq::<EntryView>::empty()
                    &&& next.log.first_index == index + 1
                    &&& (next.log.last_index(), next.log.last_term()) == (index as int, term)
                    &&& (next.log.commit_index, next.log.commit_term) == (index, term)
                    &&& (next.log.term, next.log.vote) == (log.term, log.vote)
                    &&& next.log.snapshot == Some(data)
                    &&& next.membership.active == membership
                    &&& next.membership.change_pending == (membership is Joint)
                }
            }
        }),
{
}

// Leaders.

/// The voters that have the entry at `index`, as the leader knows it once `peer` is seen to
/// match up to `matched`.
pub open spec fn having<S: State>(
    core: Core<S>,
    role: LeaderView,
    peer: NodeID,
    matched: Index,
    index: int,
) -> Set<NodeID> {
    Set::new(
        |id: NodeID|
            {
                ||| id == core.id
                ||| id == peer && matched >= index
                ||| role.progress.contains_key(id) && role.progress[id].match_index >= index
            },
    )
}

/// What committing does to the log of a leader whose step it is part of.
pub(crate) proof fn lemma_committed<S: State>(led: Led<S>)
    requires
        led.failed is None,
        led.core.log.last_index() <= u64::MAX,
    ensures
        ({
            let target = led.commit_target(led.core.log.last_index());
            let after = led.committing().0;
            &&& after.core.log.commit_index == if target > led.core.log.commit_index {
                target
            } else {
                led.core.log.commit_index
            }
            &&& target <= led.core.log.commit_index ==> led.committing() == (led, false)
            &&& after.core.log.term == led.core.log.term
            &&& after.core.id == led.core.id
        }),
{
    let log = led.core.log;
    let target = led.commit_target(log.last_index());
    if target > log.commit_index {
        let committed = Led { core: Core { log: log.committing(target), ..led.core }, ..led };
        let entries = committed.core.log.slice(committed.core.applied() + 1, target as int);
        lemma_applying_all(committed, entries);
        let applied = committed.applying_all(entries);
        lemma_settling_all(applied, changes_of(entries));
        lemma_reading(applied.settling_all(changes_of(entries)).0);
    }
}

/// Whether a message tells a leader that its sender has its log up to `index`.
pub open spec fn reports_match(message: MessageView, index: Index) -> bool {
    index > 0 && match message {
        MessageView::AppendResponse { match_index, .. } => match_index == index,
        MessageView::HeartbeatResponse { match_index, .. } => match_index == index,
        MessageView::InstallSnapshotResponse { last_included_index } => last_included_index
            == index,
        _ => false,
    }
}

/// A leader commits what more than half of the voters have: after a peer reported that its
/// log matches further than was known, every entry of the leader's own term that more than half of the voters
/// have is committed, and so is what comes before it. What was not committed before is
/// committed only up to such an entry.
#[verifier::rlimit(40)]
#[verifier::spinoff_prover]
pub proof fn what_more_than_half_have_is_committed<S: State>(
    core: Core<S>,
    role: LeaderView,
    msg: EnvelopeView,
    matched: Index,
    timeout: Ticks,
    storage: Storage,
)
    requires
        core.voters().contains(msg.from),
        msg.from != core.id,
        msg.term == core.term(),
        reports_match(msg.message, matched),
        role.progress.contains_key(msg.from),
        role.progress[msg.from].match_index < matched <= core.log.last_index() <= u64::MAX,
    ensures
        ({
            let log = core.log;
            stepping(NodeView::Leader(core, role), msg, timeout, storage) matches Ok(after) ==> {
                let commit_index = after.base().log.commit_index;
                &&& commit_index >= log.commit_index
                &&& forall|index: int|
                    log.commit_index < index <= log.last_index() && (#[trigger] log.at(index)).term
                        == log.term && is_more_than_half(
                        core.membership.active,
                        having(core, role, msg.from, matched, index),
                    ) ==> index <= commit_index
                &&& commit_index > log.commit_index ==> {
                    &&& commit_index <= log.last_index()
                    &&& log.at(commit_index as int).term == log.term
                    &&& is_more_than_half(
                        core.membership.active,
                        having(core, role, msg.from, matched, commit_index as int),
                    )
                }
            }
        }),
{
    let log = core.log;
    let led = Led { core, role, failed: None };
    let from = msg.from;
    let noted = led.noting(from);
    let before = match msg.message {
        MessageView::HeartbeatResponse { read_seq, .. } => {
            lemma_confirming(noted, from, read_seq);
            lemma_reading(
                noted.with_progress(from, noted.role.progress[from].advancing_read(read_seq)),
            );
            noted.confirming(from, read_seq)
        },
        _ => noted,
    };
    assert(before.failed is None);
    assert(before.core == (Core { out: before.core.out, ..core }));
    assert(before.role.progress.dom() =~= role.progress.dom());
    let old = before.role.progress[from];
    assert(old.match_index == role.progress[from].match_index);
    let told = before.with_progress(from, old.advancing(matched));
    let last = log.last_index();
    commits_need_a_quorum(told, last);
    lemma_commit_target(told, last);
    lemma_committed(told);
    let target = told.commit_target(last);
    let committed = told.committing().0;
    lemma_sending_keeps(committed, from, false);
    assert forall|index: int| index > 0 implies #[trigger] told.matched_at(index) == having(
        core,
        role,
        from,
        matched,
        index,
    ) by {
        assert(told.matched_at(index) =~= having(core, role, from, matched, index));
    }
    assert forall|index: int|
        log.commit_index < index <= last && (#[trigger] log.at(index)).term == log.term
            && is_more_than_half(
            core.membership.active,
            having(core, role, from, matched, index),
        ) implies index <= target by {
        quorums_are_more_than_half(
            core.membership.active,
            having(core, role, from, matched, index),
        );
        assert(told.matched_at(index) == having(core, role, from, matched, index));
        assert(told.committable(index));
    }
    if target > log.commit_index {
        quorums_are_more_than_half(
            core.membership.active,
            having(core, role, from, matched, target as int),
        );
        assert(told.matched_at(target as int) == having(core, role, from, matched, target as int));
    }
}

/// Whether these messages went out, after those that were there, to a peer whose next entry
/// is the one at `next_index`: the entries from there on, as many as an append may carry,
/// after the one before them; a snapshot if these are compacted away; nothing if there are
/// none. The peer then waits for the entry at `later`.
pub open spec fn supplies<S: State>(
    core: Core<S>,
    to: NodeID,
    next_index: int,
    out: Seq<EnvelopeView>,
    later: int,
) -> bool {
    let log = core.log;
    let lacking = log.last_index() + 1 - next_index;
    let n = if lacking <= core.opts.max_append_entries {
        lacking
    } else {
        core.opts.max_append_entries as int
    };
    if next_index < log.first_index {
        &&& out.len() == core.out.len() + 1
        &&& out.drop_last() == core.out
        &&& (out.last().from, out.last().term, out.last().to) == (core.id, log.term, to)
        &&& out.last().message matches MessageView::InstallSnapshot {
            last_included_index,
            last_included_term,
            data,
            membership,
        }
        &&& last_included_index == log.first_index - 1
        &&& last_included_term == log.snapshot_term
        &&& S::snapshotting(core.state) == Ok::<Seq<u8>, ErrorView>(data)
        &&& membership == core.membership.active
        &&& later == next_index
    } else if lacking == 0 {
        &&& out == core.out
        &&& later == next_index
    } else {
        &&& out.len() == core.out.len() + 1
        &&& out.drop_last() == core.out
        &&& (out.last().from, out.last().term, out.last().to) == (core.id, log.term, to)
        &&& out.last().message matches MessageView::Append { base_index, base_term, entries }
        &&& base_index == next_index - 1
        &&& base_index > 0 ==> has_entry(log, base_index, base_term)
        &&& base_index == 0 ==> base_term == 0
        &&& entries.len() == n
        &&& forall|k: int|
            0 <= k < n ==> #[trigger] entries[k] == log.entries[next_index - log.first_index + k]
        &&& later == next_index + n
    }
}

proof fn lemma_supplies<S: State>(led: Led<S>, peer: NodeID)
    requires
        led.failed is None,
        is_consistent(led.core.log),
        led.core.log.last_index() < u64::MAX,
        led.role.progress.contains_key(peer),
        led.role.progress[peer].match_index < led.role.progress[peer].next_index
            <= led.core.log.last_index() + 1,
    ensures
        ({
            let after = led.sending_append(peer, false);
            after.failed is None ==> {
                &&& supplies(
                    led.core,
                    peer,
                    led.role.progress[peer].next_index as int,
                    after.core.out,
                    after.role.progress[peer].next_index as int,
                )
                &&& after.role.progress[peer].match_index == led.role.progress[peer].match_index
            }
        }),
        forall|other: NodeID|
            other != peer ==> (#[trigger] led.sending_append(peer, false).role.progress[other]
                == led.role.progress[other]),
{
    let log = led.core.log;
    let after = led.sending_append(peer, false);
    let progress = led.role.progress[peer];
    if after.core.out.len() > led.core.out.len() {
        assert(after.core.out.drop_last() =~= led.core.out);
    }
    if !led.needs_snapshot(peer) && progress.next_index <= log.last_index() {
        assert(led.has_append(peer, false));
        let base_index = (progress.next_index - 1) as u64;
        if base_index > 0 {
            logs_have_their_entries(log, base_index, log.term_at(base_index as int));
        }
        let rest = log.slice(progress.next_index as int, log.last_index());
        let entries = led.append_entries(peer, false);
        assert(rest.len() == log.last_index() + 1 - progress.next_index);
        assert forall|k: int| 0 <= k < entries.len() implies #[trigger] entries[k]
            == log.entries[progress.next_index - log.first_index + k] by {
            assert(entries[k] == rest[k]);
        }
        if entries.len() > 0 {
            let k = entries.len() - 1;
            assert(entries[k] == log.entries[progress.next_index - log.first_index + k]);
            assert(log.entries[progress.next_index - log.first_index + k].index
                == progress.next_index + k);
        }
    }
}

/// A peer that reported how far its log matches is heard from, and it is known to match up
/// to there, if that is further than before. If nothing is committed on account of it, then
/// the peer is sent what it lacks, and nobody else is sent anything.
#[verifier::rlimit(40)]
#[verifier::spinoff_prover]
pub proof fn peers_are_sent_what_they_lack<S: State>(
    core: Core<S>,
    role: LeaderView,
    msg: EnvelopeView,
    matched: Index,
    timeout: Ticks,
    storage: Storage,
)
    requires
        is_consistent(core.log),
        core.voters().contains(msg.from),
        msg.from != core.id,
        msg.term == core.term(),
        reports_match(msg.message, matched),
        msg.message !is HeartbeatResponse,
        role.progress.contains_key(msg.from),
        role.progress[msg.from].match_index < role.progress[msg.from].next_index
            <= core.log.last_index() + 1,
        matched <= core.log.last_index() < u64::MAX,
        stepping(NodeView::Leader(core, role), msg, timeout, storage) matches Ok(after)
            && after.base().log.commit_index == core.log.commit_index,
    ensures
        ({
            let old = role.progress[msg.from];
            let next_index = if old.next_index > matched {
                old.next_index as int
            } else {
                matched + 1
            };
            &&& stepping(NodeView::Leader(core, role), msg, timeout, storage) matches Ok(after)
            &&& after matches NodeView::Leader(next, led)
            &&& next == (Core { out: next.out, ..core })
            &&& led.progress.dom() == role.progress.dom()
            &&& led.progress[msg.from].match_index == if matched > old.match_index {
                matched
            } else {
                old.match_index
            }
            &&& supplies(
                core,
                msg.from,
                next_index,
                next.out,
                led.progress[msg.from].next_index as int,
            )
            &&& role.peer_seen.contains_key(msg.from) ==> led.peer_seen == role.peer_seen.insert(
                msg.from,
                0,
            )
            &&& forall|other: NodeID|
                other != msg.from ==> #[trigger] led.progress[other] == role.progress[other]
        }),
{
    let led = Led { core, role, failed: None };
    let from = msg.from;
    let noted = led.noting(from);
    let old = noted.role.progress[from];
    assert(old == role.progress[from]);
    let told = if matched <= old.match_index {
        noted
    } else {
        noted.with_progress(from, old.advancing(matched))
    };
    if matched > old.match_index {
        lemma_committed(told);
        lemma_sending_keeps(told.committing().0, from, false);
        assert(told.committing() == (told, false));
    }
    assert(noted.matching(from, matched) == (told, false));
    assert(told.core == core);
    assert(told.role.progress.dom() =~= role.progress.dom());
    lemma_sending_keeps(told, from, false);
    lemma_supplies(told, from);
    let after = told.sending_append(from, false);
    assert forall|other: NodeID| other != from implies #[trigger] after.role.progress[other]
        == role.progress[other] by {
        assert(told.role.progress[other] == role.progress[other]);
    }
}

/// What got lost is sent again: a peer that answers a heartbeat without having the leader's
/// last entry is sent an append that comes after an entry between what is known to match and
/// the last but one, with the entries that come next if that is where it is known to match, or
/// a snapshot if that is what it needs.
#[verifier::rlimit(40)]
#[verifier::spinoff_prover]
pub proof fn lost_entries_are_sent_again<S: State>(
    core: Core<S>,
    role: LeaderView,
    msg: EnvelopeView,
    read_seq: ReadSequence,
    timeout: Ticks,
    storage: Storage,
)
    requires
        is_consistent(core.log),
        core.log.last_index() < u64::MAX,
        core.opts.max_append_entries > 0,
        core.voters().contains(msg.from),
        msg.from != core.id,
        msg.term == core.term(),
        msg.message == (MessageView::HeartbeatResponse { match_index: 0, read_seq }),
        role.progress.contains_key(msg.from),
        role.progress[msg.from].match_index < role.progress[msg.from].next_index
            <= core.log.last_index() + 1,
        role.progress[msg.from].match_index < core.log.last_index(),
    ensures
        ({
            let known = role.progress[msg.from].match_index;
            stepping(NodeView::Leader(core, role), msg, timeout, storage) matches Ok(after) ==> {
                &&& after matches NodeView::Leader(next, led)
                &&& next == (Core { out: next.out, ..core })
                &&& role.peer_seen.contains_key(msg.from) ==> led.peer_seen
                    == role.peer_seen.insert(msg.from, 0)
                &&& next.out.len() > core.out.len()
                &&& (next.out.last().from, next.out.last().term, next.out.last().to) == (
                    core.id,
                    core.term(),
                    msg.from,
                )
                &&& match next.out.last().message {
                    MessageView::Append { base_index, base_term, entries } => {
                        &&& known <= base_index < core.log.last_index()
                        &&& base_index < role.progress[msg.from].next_index
                        &&& base_index > 0 ==> has_entry(core.log, base_index, base_term)
                        &&& base_index > known <==> entries.len() == 0
                        &&& forall|k: int|
                            0 <= k < entries.len() ==> #[trigger] entries[k] == core.log.at(
                                base_index + 1 + k,
                            )
                    },
                    MessageView::InstallSnapshot { last_included_index, data, .. } => {
                        &&& last_included_index == core.log.first_index - 1
                        &&& led.progress[msg.from].next_index <= last_included_index
                        &&& S::snapshotting(core.state) == Ok::<Seq<u8>, ErrorView>(data)
                    },
                    _ => false,
                }
            }
        }),
{
    let log = core.log;
    let from = msg.from;
    let led = Led { core, role, failed: None };
    let noted = led.noting(from);
    lemma_confirming(noted, from, read_seq);
    let asked = noted.with_progress(from, noted.role.progress[from].advancing_read(read_seq));
    lemma_reading(asked);
    reads_are_confirmed(asked);
    let before = noted.confirming(from, read_seq);
    let known = role.progress[from].match_index;
    let old = before.role.progress[from];
    assert((old.match_index, old.next_index) == (known, role.progress[from].next_index));
    assert(before.core.out.len() >= core.out.len());
    let last = log.last_index() as u64;
    let back = before.with_progress(from, old.regressing(last));
    let progress = back.role.progress[from];
    assert(progress.match_index == known);
    assert(known < progress.next_index <= last);
    let after = back.sending_append(from, true);
    lemma_sending_keeps(back, from, true);
    assert(after.role.progress[from].match_index == known);
    assert(after.matching(from, 0) == (after, false));
    if !back.needs_snapshot(from) {
        assert(back.has_append(from, true));
        let base_index = (progress.next_index - 1) as u64;
        if base_index > 0 {
            logs_have_their_entries(log, base_index, log.term_at(base_index as int));
        }
        let entries = back.append_entries(from, true);
        let rest = log.slice(progress.next_index as int, log.last_index());
        assert forall|k: int| 0 <= k < entries.len() implies #[trigger] entries[k] == log.at(
            base_index + 1 + k,
        ) by {
            assert(entries[k] == rest[k]);
        }
        assert(after.core.out.last().message is Append);
    }
}

/// Whether more than half of the voters confirmed a leader's office for a read.
pub open spec fn is_confirmed_by_most<S: State>(
    core: Core<S>,
    role: LeaderView,
    seq: ReadSequence,
) -> bool {
    seq == 0 || is_more_than_half(
        core.membership.active,
        Set::new(
            |id: NodeID|
                (id == core.id && role.read_seq >= seq) || (role.progress.contains_key(id)
                    && role.progress[id].read_seq >= seq),
        ),
    )
}

proof fn lemma_confirmed_by_most<S: State>(led: Led<S>, seq: ReadSequence)
    ensures
        led.is_confirmed(seq) == is_confirmed_by_most(led.core, led.role, seq),
{
    let role = led.role;
    let id = led.core.id;
    quorums_are_more_than_half(
        led.core.membership.active,
        Set::new(
            |peer: NodeID|
                (peer == id && role.read_seq >= seq) || (role.progress.contains_key(peer)
                    && role.progress[peer].read_seq >= seq),
        ),
    );
}

/// Reads that came before a leader committed in its term are answered as soon as it has: when
/// it first commits in its term, and applied all that is committed, then no read at the front
/// of those that wait is one that more than half of the voters confirmed.
pub proof fn early_reads_are_answered<S: State>(led: Led<S>)
    requires
        led.failed is None,
        led.core.log.last_index() <= u64::MAX,
        led.core.log.commit_term != led.core.term(),
        led.commit_target(led.core.log.last_index()) > led.core.log.commit_index,
        led.committing().0.failed is None,
    ensures
        ({
            let after = led.committing().0;
            after.core.applied() >= after.core.log.commit_index && after.role.reads.len() > 0
                ==> !is_confirmed_by_most(after.core, after.role, after.role.reads[0].seq)
        }),
{
    let log = led.core.log;
    let target = led.commit_target(log.last_index());
    commits_need_a_quorum(led, log.last_index());
    let committed = Led { core: Core { log: log.committing(target), ..led.core }, ..led };
    let entries = committed.core.log.slice(committed.core.applied() + 1, target as int);
    lemma_applying_all(committed, entries);
    let applied = committed.applying_all(entries);
    lemma_settling_all(applied, changes_of(entries));
    let (settled, step_down) = applied.settling_all(changes_of(entries));
    let n = reads_are_confirmed(settled);
    lemma_reading(settled);
    let read = settled.reading();
    let after = led.committing().0;
    assert(after.role == read.role);
    assert(after.core.membership == read.core.membership);
    assert(after.core.state == read.core.state);
    assert(settled.core.log.commit_term == settled.core.term());
    if n < settled.role.reads.len() {
        let seq = settled.role.reads[n].seq;
        assert(read.role.reads[0] == settled.role.reads[n]);
        lemma_confirmed_by_most(settled, seq);
    }
}

/// A heartbeat's answer that brings nothing new only counts as a sign of life.
#[verifier::rlimit(40)]
pub proof fn answers_are_signs_of_life<S: State>(
    core: Core<S>,
    role: LeaderView,
    msg: EnvelopeView,
    match_index: Index,
    read_seq: ReadSequence,
    timeout: Ticks,
    storage: Storage,
)
    requires
        core.voters().contains(msg.from),
        msg.term == core.term(),
        msg.message == (MessageView::HeartbeatResponse { match_index, read_seq }),
        role.progress.contains_key(msg.from),
        role.peer_seen.contains_key(msg.from),
        0 < match_index <= role.progress[msg.from].match_index,
        read_seq <= role.progress[msg.from].read_seq,
    ensures
        stepping(NodeView::Leader(core, role), msg, timeout, storage) == Ok::<
            NodeView<S>,
            ErrorView,
        >(
            NodeView::Leader(
                core,
                LeaderView { peer_seen: role.peer_seen.insert(msg.from, 0), ..role },
            ),
        ),
{
}

// What is committed is applied.

/// What an entry is to the state machine of a leader: one that changes the membership is
/// without a command.
pub open spec fn plainly(entry: EntryView) -> EntryView {
    if entry.membership is Some {
        EntryView { command: None, membership: None, ..entry }
    } else {
        entry
    }
}

/// The state after the first `n` of these entries.
pub open spec fn state_after<S: State>(state: S::Model, entries: Seq<EntryView>, n: int) -> S::Model {
    replay::<S>(state, entries.take(n).map_values(|entry: EntryView| plainly(entry)))
}

/// The answer to the client that waits for an entry, given the state before it.
pub open spec fn answer_to<S: State>(state: S::Model, entry: EntryView) -> AnswerView {
    if entry.membership is Some {
        Ok(ResponseView::ChangeMembership { index: entry.index })
    } else {
        match S::applying(state, entry).1 {
            Ok(data) => Ok(ResponseView::Write(data)),
            Err(e) => Err(e),
        }
    }
}

/// The client that waits for an entry.
pub open spec fn client_of(role: LeaderView, entry: EntryView) -> Option<Write> {
    let waiting = if entry.membership is Some {
        role.membership_writes
    } else {
        role.writes
    };
    if waiting.contains_key(entry.index) {
        Some(waiting[entry.index])
    } else {
        None
    }
}

/// The message that answers a client of this leader.
pub open spec fn answering_client<S: State>(
    core: Core<S>,
    write: Write,
    answer: AnswerView,
) -> EnvelopeView {
    EnvelopeView {
        from: core.id,
        term: core.term(),
        to: write.from,
        message: MessageView::ClientResponse { id: write.id, response: answer },
    }
}

pub(crate) proof fn lemma_state_after<S: State>(state: S::Model, entries: Seq<EntryView>, n: int)
    requires
        0 < n <= entries.len(),
    ensures
        state_after::<S>(state, entries, n) == S::applying(
            state_after::<S>(state, entries, n - 1),
            plainly(entries[n - 1]),
        ).0,
{
    let all = entries.take(n).map_values(|entry: EntryView| plainly(entry));
    assert(all.drop_last() =~= entries.take(n - 1).map_values(
        |entry: EntryView| plainly(entry),
    ));
    assert(all.last() == plainly(entries[n - 1]));
}

/// A leader that applies entries applies each to the state that those before it led to,
/// and answers the client that waits for it, once, with what came of it. Nobody waits for
/// these entries afterwards. Who waits for others still does.
pub proof fn applied_writes_are_answered<S: State>(led: Led<S>, entries: Seq<EntryView>)
    requires
        forall|j: int, k: int|
            0 <= j < k < entries.len() ==> (#[trigger] entries[j]).index != (
            #[trigger] entries[k]).index,
    ensures
        ({
            let after = led.applying_all(entries);
            &&& after.core.state == state_after::<S>(
                led.core.state,
                entries,
                entries.len() as int,
            )
            &&& after.core.out.len() >= led.core.out.len()
            &&& after.core.out.take(led.core.out.len() as int) == led.core.out
            &&& forall|k: int|
                0 <= k < entries.len() ==> (client_of(
                    led.role,
                    #[trigger] entries[k],
                ) matches Some(write) ==> after.core.out.contains(
                    answering_client(
                        led.core,
                        write,
                        answer_to::<S>(state_after::<S>(led.core.state, entries, k), entries[k]),
                    ),
                ))
            &&& forall|j: int|
                led.core.out.len() <= j < after.core.out.len() ==> exists|k: int|
                    0 <= k < entries.len() && answers_entry(
                        led,
                        entries,
                        #[trigger] entries[k],
                        k,
                        #[trigger] after.core.out[j],
                    )
            &&& forall|k: int| #![trigger entries[k]]
                0 <= k < entries.len() ==> !after.role.writes.contains_key(entries[k].index)
                    && !after.role.membership_writes.contains_key(entries[k].index)
            &&& forall|index: Index|
                (forall|k: int| 0 <= k < entries.len() ==> (#[trigger] entries[k]).index != index)
                    ==> (#[trigger] after.role.writes.contains_key(index)
                    == led.role.writes.contains_key(index)) && after.role.writes[index]
                    == led.role.writes[index] && (after.role.membership_writes.contains_key(index)
                    == led.role.membership_writes.contains_key(index))
                    && after.role.membership_writes[index] == led.role.membership_writes[index]
        }),
    decreases entries.len(),
{
    let after = led.applying_all(entries);
    let n = led.core.out.len() as int;
    if entries.len() == 0 {
        assert(entries.take(0).map_values(|entry: EntryView| plainly(entry)) =~= seq![]);
        assert(after.core.out.take(n) =~= led.core.out);
    } else {
        let front = entries.drop_last();
        let last = entries.len() - 1;
        let entry = entries.last();
        assert forall|j: int, k: int| 0 <= j < k < front.len() implies (
        #[trigger] front[j]).index != (#[trigger] front[k]).index by {
            assert(entries[j].index != entries[k].index);
        }
        applied_writes_are_answered(led, front);
        lemma_applying_all(led, front);
        let before = led.applying_all(front);
        assert forall|k: int| 0 <= k <= last implies #[trigger] entries.take(k) == front.take(
            k,
        ) by {
            assert(entries.take(k) =~= front.take(k));
        }
        assert(front.take(last) =~= front);
        assert(state_after::<S>(led.core.state, entries, last) == before.core.state);
        lemma_state_after::<S>(led.core.state, entries, entries.len() as int);
        assert forall|k: int| 0 <= k < front.len() implies (#[trigger] front[k]).index
            != entry.index by {
            assert(entries[k].index != entries[last].index);
        }
        assert(client_of(before.role, entry) == client_of(led.role, entry));
        assert(after.core.state == state_after::<S>(led.core.state, entries, entries.len() as int));
        assert(after.core.out.take(n) =~= led.core.out) by {
            assert(before.core.out.take(n) == led.core.out);
        }
        assert forall|k: int| 0 <= k < entries.len() implies (client_of(
            led.role,
            #[trigger] entries[k],
        ) matches Some(write) ==> after.core.out.contains(
            answering_client(
                led.core,
                write,
                answer_to::<S>(state_after::<S>(led.core.state, entries, k), entries[k]),
            ),
        )) by {
            if let Some(write) = client_of(led.role, entries[k]) {
                let answer = answering_client(
                    led.core,
                    write,
                    answer_to::<S>(state_after::<S>(led.core.state, entries, k), entries[k]),
                );
                if k < last {
                    assert(front[k] == entries[k]);
                    assert(entries.take(k) == front.take(k));
                    let j = choose|j: int|
                        0 <= j < before.core.out.len() && before.core.out[j] == answer;
                    assert(after.core.out[j] == answer);
                } else {
                    assert(after.core.out == before.core.out.push(answer));
                    assert(after.core.out[before.core.out.len() as int] == answer);
                }
            }
        }
        assert forall|j: int| n <= j < after.core.out.len() implies exists|k: int|
            0 <= k < entries.len() && answers_entry(
                led,
                entries,
                #[trigger] entries[k],
                k,
                #[trigger] after.core.out[j],
            ) by {
            if j < before.core.out.len() {
                assert(after.core.out[j] == before.core.out[j]);
                let k = choose|k: int|
                    0 <= k < front.len() && answers_entry(
                        led,
                        front,
                        #[trigger] front[k],
                        k,
                        before.core.out[j],
                    );
                assert(entries.take(k) == front.take(k));
                assert(answers_entry(led, entries, entries[k], k, after.core.out[j]));
            } else {
                assert(answers_entry(led, entries, entries[last], last, after.core.out[j]));
            }
        }
        assert forall|k: int| #![trigger entries[k]]
            0 <= k < entries.len() implies !after.role.writes.contains_key(entries[k].index)
            && !after.role.membership_writes.contains_key(entries[k].index) by {
            if k < last {
                assert(front[k] == entries[k]);
                assert(!before.role.writes.contains_key(front[k].index));
            }
        }
        assert forall|index: Index|
            (forall|k: int| 0 <= k < entries.len() ==> (#[trigger] entries[k]).index
                != index) implies (#[trigger] after.role.writes.contains_key(index)
            == led.role.writes.contains_key(index)) && after.role.writes[index]
            == led.role.writes[index] && (after.role.membership_writes.contains_key(index)
            == led.role.membership_writes.contains_key(index))
            && after.role.membership_writes[index] == led.role.membership_writes[index] by {
            assert(entries[last].index != index);
            assert forall|k: int| 0 <= k < front.len() implies (#[trigger] front[k]).index
                != index by {
                assert(entries[k].index != index);
            }
            assert(before.role.writes.contains_key(index) == led.role.writes.contains_key(index));
        }
    }
}

/// Whether a message answers the client that waits for one of these entries, the one with
/// this number.
pub open spec fn answers_entry<S: State>(
    led: Led<S>,
    entries: Seq<EntryView>,
    entry: EntryView,
    k: int,
    msg: EnvelopeView,
) -> bool {
    &&& client_of(led.role, entry) matches Some(write)
    &&& msg == answering_client(
        led.core,
        write,
        answer_to::<S>(state_after::<S>(led.core.state, entries, k), entry),
    )
}

// What a leader has sent stays sent.

/// Whether `after` begins with `before`.
pub open spec fn goes_on(before: Seq<EnvelopeView>, after: Seq<EnvelopeView>) -> bool {
    before.len() <= after.len() && after.take(before.len() as int) == before
}

proof fn lemma_goes_on(a: Seq<EnvelopeView>, b: Seq<EnvelopeView>, c: Seq<EnvelopeView>)
    requires
        goes_on(a, b),
        goes_on(b, c),
    ensures
        goes_on(a, c),
{
    assert(c.take(a.len() as int) =~= c.take(b.len() as int).take(a.len() as int));
}

proof fn lemma_still_sent(a: Seq<EnvelopeView>, b: Seq<EnvelopeView>, msg: EnvelopeView)
    requires
        goes_on(a, b),
        a.contains(msg),
    ensures
        b.contains(msg),
{
    let k = choose|k: int| 0 <= k < a.len() && a[k] == msg;
    assert(b.take(a.len() as int)[k] == b[k]);
}

proof fn lemma_sending_goes_on<S: State>(led: Led<S>, peer: NodeID, probe: bool)
    ensures
        goes_on(led.core.out, led.sending_append(peer, probe).core.out),
{
    let after = led.sending_append(peer, probe);
    assert(after.core.out.take(led.core.out.len() as int) =~= led.core.out);
}

proof fn lemma_replicating_goes_on<S: State>(led: Led<S>, peers: Seq<NodeID>, index: Index)
    ensures
        goes_on(led.core.out, led.replicating(peers, index).core.out),
    decreases peers.len(),
{
    if peers.len() > 0 {
        lemma_replicating_goes_on(led, peers.drop_last(), index);
        let before = led.replicating(peers.drop_last(), index);
        lemma_sending_goes_on(before, peers.last(), false);
        if before.role.progress[peers.last()].next_index == index {
            lemma_goes_on(
                led.core.out,
                before.core.out,
                before.sending_append(peers.last(), false).core.out,
            );
        }
    } else {
        assert(led.core.out.take(led.core.out.len() as int) =~= led.core.out);
    }
}

proof fn lemma_settling_goes_on<S: State>(led: Led<S>, changes: Seq<MembershipView>)
    ensures
        goes_on(led.core.out, led.settling_all(changes).0.core.out),
    decreases changes.len(),
{
    if changes.len() > 0 {
        lemma_settling_goes_on(led, changes.drop_last());
        let before = led.settling_all(changes.drop_last()).0;
        let next = before.settling(changes.last());
        assert(before.core.out.take(before.core.out.len() as int) =~= before.core.out);
        if before.failed is None {
            if let MembershipView::Joint { old, new } = changes.last() {
                let adopted = before.adopting(MembershipView::Simple(new));
                lemma_replicating_goes_on(
                    adopted,
                    ascending(adopted.core.peers()),
                    adopted.core.log.last_index() as u64,
                );
            }
        }
        lemma_goes_on(led.core.out, before.core.out, next.core.out);
    } else {
        assert(led.core.out.take(led.core.out.len() as int) =~= led.core.out);
    }
}

/// What comes of a step in which a leader committed up to `target`.
pub(crate) proof fn lemma_commits_apply<S: State>(led: Led<S>, target: Index)
    requires
        led.failed is None,
        is_consistent(led.core.log),
        led.core.log.last_index() <= u64::MAX,
        target == led.commit_target(led.core.log.last_index()),
        target > led.core.log.commit_index,
    ensures
        ({
            let after = led.committing().0;
            let entries = led.core.log.slice(led.core.applied() + 1, target as int);
            &&& after.core.state == state_after::<S>(
                led.core.state,
                entries,
                entries.len() as int,
            )
            &&& goes_on(led.core.out, after.core.out)
            &&& forall|k: int|
                0 <= k < entries.len() ==> (client_of(
                    led.role,
                    #[trigger] entries[k],
                ) matches Some(write) ==> after.core.out.contains(
                    answering_client(
                        led.core,
                        write,
                        answer_to::<S>(state_after::<S>(led.core.state, entries, k), entries[k]),
                    ),
                ))
        }),
{
    let log = led.core.log;
    let committed = Led { core: Core { log: log.committing(target), ..led.core }, ..led };
    let entries = log.slice(led.core.applied() + 1, target as int);
    assert(entries == committed.core.log.slice(committed.core.applied() + 1, target as int));
    slices_have_what_is_between(log, led.core.applied() + 1, target as int);
    assert forall|j: int, k: int| 0 <= j < k < entries.len() implies (#[trigger] entries[j]).index
        != (#[trigger] entries[k]).index by {
        assert(entries[j].index == entries[0].index + j);
        assert(entries[k].index == entries[0].index + k);
    }
    applied_writes_are_answered(committed, entries);
    let applied = committed.applying_all(entries);
    let changes = changes_of(entries);
    lemma_settling_all(applied, changes);
    lemma_settling_goes_on(applied, changes);
    let settled = applied.settling_all(changes).0;
    lemma_reading(settled);
    reads_are_confirmed(settled);
    let after = led.committing().0;
    assert(settled.core.out.take(settled.core.out.len() as int) =~= settled.core.out);
    assert(goes_on(settled.core.out, after.core.out));
    lemma_goes_on(applied.core.out, settled.core.out, after.core.out);
    lemma_goes_on(led.core.out, applied.core.out, after.core.out);
    assert forall|k: int| 0 <= k < entries.len() implies (client_of(
        led.role,
        #[trigger] entries[k],
    ) matches Some(write) ==> after.core.out.contains(
        answering_client(
            led.core,
            write,
            answer_to::<S>(state_after::<S>(led.core.state, entries, k), entries[k]),
        ),
    )) by {
        assert(client_of(committed.role, entries[k]) == client_of(led.role, entries[k]));
        if let Some(write) = client_of(led.role, entries[k]) {
            let answer = answering_client(
                led.core,
                write,
                answer_to::<S>(state_after::<S>(led.core.state, entries, k), entries[k]),
            );
            assert(answer == answering_client(
                committed.core,
                write,
                answer_to::<S>(state_after::<S>(led.core.state, entries, k), entries[k]),
            ));
            assert(applied.core.out.contains(answer));
            lemma_still_sent(applied.core.out, after.core.out, answer);
        }
    }
}

/// What is committed is applied: when a peer's report has a leader commit more, each entry
/// up to there that was not applied yet is applied in its order, and whoever waits for one
/// of them is answered with what came of it.
#[verifier::rlimit(40)]
#[verifier::spinoff_prover]
pub proof fn committed_writes_are_applied_and_answered<S: State>(
    core: Core<S>,
    role: LeaderView,
    msg: EnvelopeView,
    matched: Index,
    timeout: Ticks,
    storage: Storage,
)
    requires
        is_consistent(core.log),
        core.voters().contains(msg.from),
        msg.from != core.id,
        msg.term == core.term(),
        reports_match(msg.message, matched),
        role.progress.contains_key(msg.from),
        role.progress[msg.from].match_index < matched <= core.log.last_index() <= u64::MAX,
        stepping(NodeView::Leader(core, role), msg, timeout, storage) matches Ok(after)
            && after.base().log.commit_index > core.log.commit_index,
    ensures
        ({
            let after = stepping(NodeView::Leader(core, role), msg, timeout, storage)->Ok_0;
            let entries = core.log.slice(
                core.applied() + 1,
                after.base().log.commit_index as int,
            );
            &&& after.base().state == state_after::<S>(core.state, entries, entries.len() as int)
            &&& forall|k: int|
                0 <= k < entries.len() ==> (client_of(
                    role,
                    #[trigger] entries[k],
                ) matches Some(write) ==> after.base().out.contains(
                    answering_client(
                        core,
                        write,
                        answer_to::<S>(state_after::<S>(core.state, entries, k), entries[k]),
                    ),
                ))
        }),
{
    let log = core.log;
    let led = Led { core, role, failed: None };
    let from = msg.from;
    let noted = led.noting(from);
    let before = match msg.message {
        MessageView::HeartbeatResponse { read_seq, .. } => {
            lemma_confirming(noted, from, read_seq);
            lemma_reading(
                noted.with_progress(from, noted.role.progress[from].advancing_read(read_seq)),
            );
            noted.confirming(from, read_seq)
        },
        _ => noted,
    };
    assert(before.failed is None);
    assert(before.core == (Core { out: before.core.out, ..core }));
    assert((before.role.writes, before.role.membership_writes) == (
        role.writes,
        role.membership_writes,
    ));
    let old = before.role.progress[from];
    assert(old.match_index == role.progress[from].match_index);
    let told = before.with_progress(from, old.advancing(matched));
    lemma_committed(told);
    let (committed, step_down) = told.committing();
    let sent = if msg.message is HeartbeatResponse {
        committed
    } else {
        committed.sending_append(from, false)
    };
    lemma_sending_keeps(committed, from, false);
    lemma_sending_goes_on(committed, from, false);
    assert(committed.core.out.take(committed.core.out.len() as int) =~= committed.core.out);
    assert(goes_on(committed.core.out, sent.core.out));
    let after = stepping(NodeView::Leader(core, role), msg, timeout, storage)->Ok_0;
    assert(concluding(sent, step_down, timeout) == Ok::<NodeView<S>, ErrorView>(after));
    assert(goes_on(sent.core.out, after.base().out)) by {
        assert(sent.core.out.take(sent.core.out.len() as int) =~= sent.core.out);
        if step_down {
            let writes = by_id(waiting_writes(sent.role.writes));
            let changes = by_id(waiting_writes(sent.role.membership_writes));
            let reads = by_id(waiting_reads(sent.role.reads));
            let once = sent.core.aborting(writes);
            let twice = once.aborting(changes);
            assert(once.out.take(sent.core.out.len() as int) =~= sent.core.out);
            assert(twice.out.take(once.out.len() as int) =~= once.out);
            assert(twice.aborting(reads).out.take(twice.out.len() as int) =~= twice.out);
            lemma_goes_on(sent.core.out, once.out, twice.out);
            lemma_goes_on(sent.core.out, twice.out, twice.aborting(reads).out);
        }
    }
    lemma_goes_on(committed.core.out, sent.core.out, after.base().out);
    let target = told.commit_target(log.last_index());
    lemma_commits_apply(told, target);
    let entries = log.slice(core.applied() + 1, target as int);
    assert forall|k: int| 0 <= k < entries.len() implies (client_of(
        role,
        #[trigger] entries[k],
    ) matches Some(write) ==> after.base().out.contains(
        answering_client(
            core,
            write,
            answer_to::<S>(state_after::<S>(core.state, entries, k), entries[k]),
        ),
    )) by {
        assert(client_of(told.role, entries[k]) == client_of(role, entries[k]));
        if let Some(write) = client_of(role, entries[k]) {
            lemma_still_sent(
                committed.core.out,
                after.base().out,
                answering_client(
                    told.core,
                    write,
                    answer_to::<S>(state_after::<S>(core.state, entries, k), entries[k]),
                ),
            );
        }
    }
}

/// A leader that committed takes a snapshot if and only if as many entries as its threshold
/// says were applied since the last one, and it applied all that is committed. Its log then
/// begins after what the snapshot covers.
pub proof fn snapshots_are_taken_when_due<S: State>(led: Led<S>)
    requires
        led.failed is None,
        led.core.log.first_index >= 1,
        led.core.applied() < u64::MAX,
    ensures
        ({
            let applied = led.core.applied();
            let threshold = led.core.opts.snapshot_threshold;
            let due = threshold > 0 && applied >= led.core.log.first_index && applied + 1
                - led.core.log.first_index >= threshold && applied >= led.core.log.commit_index;
            let after = led.snapshotting();
            &&& !due ==> after == led
            &&& due && S::snapshotting(led.core.state) is Ok ==> {
                &&& after.failed is None
                &&& after.core.log.snapshot == Some(S::snapshotting(led.core.state)->Ok_0)
                &&& after.core.log.first_index == applied + 1
                &&& after.core.log.commit_index == led.core.log.commit_index
                &&& applied <= led.core.log.last_index() ==> after.core.log.last_index()
                    == led.core.log.last_index()
                &&& forall|index: int|
                    applied < index <= led.core.log.last_index() ==> #[trigger] after.core.log.at(
                        index,
                    ) == led.core.log.at(index)
                &&& after.core.out == led.core.out
                &&& after.role == led.role
            }
            &&& due && S::snapshotting(led.core.state) is Err ==> after.failed is Some
        }),
{
}

} // verus!
