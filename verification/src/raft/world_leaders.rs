//! What a leader does fits the history of its cluster.

use vstd::prelude::*;

use super::entry::{EntryView, Index, Term};
use super::history::{
    can_follow_config, confirmed_reads_have_no_rivals, last_change, leaders_are_complete, lemma_ack,
    lemma_commit, lemma_confirm, lemma_inquiry, lemma_last_change, lemma_part_suits, lemma_reign,
    lemma_rooted_entries, lemma_share_less, share, History, Inquiry, Reign,
};
use super::history_steps::{
    asks_nothing, goes_on, lemma_answering, lemma_committing, lemma_goes_on, lemma_goes_on_same,
    lemma_goes_on_twice, lemma_leading, lemma_still_decided, lemma_still_kept, lemma_suits_stays,
};
use super::ids::{ascending, lemma_ascending, NodeID};
use super::laws::commits_need_a_quorum;
use super::leader::{
    lemma_applied_bound, lemma_applying_all, lemma_commit_target, lemma_reading,
    lemma_replicating_keeps, lemma_settling_all,
};
use super::log::LogView;
use super::membership::MembershipView;
use super::message::{EnvelopeView, MessageView, ReadSequence};
use super::model::{changes_of, got, is_last_change, joint_count, Core, LeaderView, Led, Progress};
use super::state::State;
use super::world::{
    core_fits, deeds_fit, is_waiting, leader_fits, lemma_messages_still_fit, lemma_rest_at,
    lemma_slice_committed, log_fits, message_fits, messages_fit, reads_fit,
};
use super::restart::is_write;
use super::world_followers::{
    lemma_config_of_more, lemma_deeds_still, lemma_latest_change, lemma_latest_of_more,
};
use super::world_states::{
    carries, lemma_carries, lemma_moves_more, lemma_moves_same, lemma_plainly_twice,
    lemma_traces_applied, lemma_traces_nothing, lemma_traces_on, lemma_traces_replayed,
    lemma_traces_sending, lemma_traces_snapshotting, sends_plainly, traces,
};

verus! {

/// Whether a state has applied everything that was committed when a read came.
pub open spec fn is_current_for(applied: Index, inquiry: Inquiry) -> bool {
    forall|term: Term, n: nat| #[trigger]
        inquiry.known.contains((term, n)) ==> n <= applied
}

/// What nodes are held against: what was sent, which states nodes had, and the state
/// that all of them started with, if the state machine is followed from there.
#[verifier::reject_recursive_types(S)]
pub ghost struct Given<S: State> {
    pub sent: Set<EnvelopeView>,
    pub states: Set<(NodeID, S::Model)>,
    pub init: Option<S::Model>,
}

/// The answer to a read from a state.
pub open spec fn answer_from<S: State>(
    state: S::Model,
    inquiry: Inquiry,
    leader: NodeID,
    term: Term,
) -> EnvelopeView {
    EnvelopeView {
        from: leader,
        term,
        to: inquiry.from,
        message: MessageView::ClientResponse {
            id: inquiry.id,
            response: got(S::reading(state, inquiry.command)),
        },
    }
}

/// Whether an answer to a read is from a state of the leader that had applied
/// everything that was committed when the read came.
pub open spec fn is_answer<S: State>(
    states: Set<(NodeID, S::Model)>,
    inquiry: Inquiry,
    leader: NodeID,
    term: Term,
    answer: EnvelopeView,
) -> bool {
    exists|state: S::Model| #[trigger]
        answer_from::<S>(state, inquiry, leader, term) == answer && is_current_for(
            S::applied(state),
            inquiry,
        ) && states.contains((leader, state))
}

/// Whether every answer to a read is right, and was given before or is being sent.
pub open spec fn answers_fit<S: State>(
    h: History,
    given: Given<S>,
    out: Seq<EnvelopeView>,
) -> bool {
    forall|term: Term, seq: ReadSequence| #[trigger]
        h.inquiries.contains_key((term, seq)) ==> {
            let inquiry = h.inquiries[(term, seq)];
            inquiry.answer matches Some(answer) ==> {
                &&& is_answer::<S>(given.states, inquiry, h.reigns[term].leader, term, answer)
                &&& given.sent.contains(answer) || out.contains(answer)
            }
        }
}

/// Answers are right whatever else is sent.
pub proof fn lemma_answers_fit_more<S: State>(
    h: History,
    next: History,
    given: Given<S>,
    out: Seq<EnvelopeView>,
    more: Seq<EnvelopeView>,
)
    requires
        h.wf(),
        answers_fit::<S>(h, given, out),
        next.inquiries == h.inquiries,
        forall|term: Term| #[trigger]
            h.reigns.contains_key(term) ==> next.reigns[term].leader == h.reigns[term].leader,
        out.len() <= more.len(),
        forall|k: int| 0 <= k < out.len() ==> more[k] == #[trigger] out[k],
    ensures
        answers_fit::<S>(next, given, more),
{
    assert forall|term: Term, seq: ReadSequence| #[trigger]
        next.inquiries.contains_key((term, seq)) implies {
        let inquiry = next.inquiries[(term, seq)];
        inquiry.answer matches Some(answer) ==> {
            &&& is_answer::<S>(given.states, inquiry, next.reigns[term].leader, term, answer)
            &&& given.sent.contains(answer) || more.contains(answer)
        }
    } by {
        lemma_inquiry(h, term, seq);
        let inquiry = h.inquiries[(term, seq)];
        if let Some(answer) = inquiry.answer {
            if out.contains(answer) {
                let k = choose|k: int| 0 <= k < out.len() && out[k] == answer;
                assert(more[k] == out[k]);
            }
        }
    }
}

/// Whether a leader in the middle of a step fits the history.
pub open spec fn led_fits<S: State>(
    given: Given<S>,
    h: History,
    led: Led<S>,
) -> bool {
    &&& core_fits(h, led.core)
    &&& leader_fits(h, led.core, led.role)
    &&& messages_fit(h, led.core.out)
    &&& answers_fit::<S>(h, given, led.core.out)
    &&& traces(given, h, led.core)
}

/// A part of what is decided is decided.
pub proof fn lemma_decided_less(h: History, log: Seq<EntryView>, bound: Term, n: int)
    requires
        h.is_decided(log, bound),
        0 <= n <= log.len(),
    ensures
        h.is_decided(log.take(n), bound),
{
    if n > 0 {
        let (t, i) = choose|t: Term, i: nat| #[trigger]
            h.commits.contains((t, i)) && t <= bound && log.len() <= i && share(
                log,
                h.log_of(t),
                log.len() as int,
            );
        let part = log.take(n);
        lemma_share_less(log, h.log_of(t), log.len() as int, n);
        assert(part.take(n) =~= log.take(n));
        assert(h.commits.contains((t, i)) && t <= bound && part.len() <= i && share(
            part,
            h.log_of(t),
            part.len() as int,
        ));
    }
}

/// What is decided stays so in later terms.
pub proof fn lemma_decided_longer(h: History, log: Seq<EntryView>, bound: Term, longer: Term)
    requires
        h.is_decided(log, bound),
        bound <= longer,
    ensures
        h.is_decided(log, longer),
{
    if log.len() > 0 {
        let (t, i) = choose|t: Term, i: nat| #[trigger]
            h.commits.contains((t, i)) && t <= bound && log.len() <= i && share(
                log,
                h.log_of(t),
                log.len() as int,
            );
        assert(h.commits.contains((t, i)) && t <= longer);
    }
}

/// What a leader's append to a peer carries is what its log has there.
proof fn lemma_append_entries<S: State>(
    given: Given<S>,
    h: History,
    led: Led<S>,
    peer: NodeID,
    probe: bool,
)
    requires
        h.wf(),
        led_fits(given, h, led),
        led.role.progress.contains_key(peer),
        !led.needs_snapshot(peer),
        led.has_append(peer, probe),
    ensures
        ({
            let whole = h.logs[led.core.id];
            let base = led.role.progress[peer].next_index - 1;
            let entries = led.append_entries(peer, probe);
            &&& base + entries.len() <= whole.len()
            &&& entries == whole.subrange(base, base + entries.len())
            &&& base > 0 ==> led.core.log.term_at(base) == whole[base - 1].term
            &&& entries.len() > 0 ==> entries.last().index == base + entries.len()
        }),
{
    let log = led.core.log;
    let whole = h.logs[led.core.id];
    let next = led.role.progress[peer].next_index as int;
    let base = next - 1;
    if base > 0 {
        lemma_rest_at(log, whole, base);
    }
    let entries = led.append_entries(peer, probe);
    let rest = log.slice(next, log.last_index());
    assert(rest =~= whole.subrange(base, whole.len() as int));
    assert(entries =~= whole.subrange(base, base + entries.len()));
    if entries.len() > 0 {
        lemma_rooted_entries(h, whole);
        assert(entries.last() == whole[base + entries.len() - 1]);
    }
}

/// The snapshot that a leader has is of entries that are committed.
proof fn lemma_snapshot_decided<S: State>(given: Given<S>, h: History, led: Led<S>)
    requires
        h.wf(),
        led_fits(given, h, led),
        led.core.log.first_index > 1,
    ensures
        ({
            let log = led.core.log;
            let whole = h.logs[led.core.id];
            let index = log.first_index - 1;
            &&& 0 < index <= whole.len()
            &&& log.snapshot_term == whole[index - 1].term
            &&& h.is_decided(whole.take(index), log.term)
        }),
{
    let log = led.core.log;
    let whole = h.logs[led.core.id];
    let index = log.first_index - 1;
    lemma_rest_at(log, whole, index);
    lemma_decided_less(h, whole.take(log.commit_index as int), log.term, index);
    assert(whole.take(log.commit_index as int).take(index) =~= whole.take(index));
}

/// A leader that sends a message that fits.
pub proof fn lemma_sending_fits<S: State>(
    given: Given<S>,
    h: History,
    led: Led<S>,
    to: NodeID,
    message: MessageView,
)
    requires
        h.wf(),
        led_fits(given, h, led),
        message_fits(
            h,
            EnvelopeView { from: led.core.id, term: led.core.term(), to, message },
        ),
        given.init matches Some(init) ==> carries::<S>(
            init,
            h,
            EnvelopeView { from: led.core.id, term: led.core.term(), to, message },
        ),
    ensures
        led_fits(given, h, led.sending(to, message)),
{
    lemma_traces_sending(
        given,
        h,
        led.core,
        led.sending(to, message).core,
        EnvelopeView { from: led.core.id, term: led.core.term(), to, message },
    );
    lemma_answers_fit_more::<S>(h, h, given, led.core.out, led.sending(to, message).core.out);
}

/// A leader that sends a peer what it needs.
pub proof fn lemma_sending_append_fits<S: State>(
    given: Given<S>,
    h: History,
    led: Led<S>,
    peer: NodeID,
    probe: bool,
)
    requires
        h.wf(),
        led_fits(given, h, led),
    ensures
        led_fits(given, h, led.sending_append(peer, probe)),
{
    if led.failed is None && led.role.progress.contains_key(peer) {
        let progress = led.role.progress[peer];
        if led.needs_snapshot(peer) {
            lemma_snapshot_decided(given, h, led);
            if let Ok(data) = S::snapshotting(led.core.state) {
                let message = MessageView::InstallSnapshot {
                    last_included_index: led.core.log.snapshot_meta().0,
                    last_included_term: led.core.log.snapshot_meta().1,
                    data,
                    membership: led.core.membership.active,
                };
                lemma_part_suits(h, led.core.term(), led.core.log.first_index - 1);
                lemma_carries(
                    given,
                    h,
                    led.core,
                    data,
                    EnvelopeView { from: led.core.id, term: led.core.term(), to: peer, message },
                );
                lemma_sending_fits(given, h, led, peer, message);
            }
        } else if led.has_append(peer, probe) {
            lemma_append_entries(given, h, led, peer, probe);
            let base_index = (progress.next_index - 1) as u64;
            let base_term = if base_index == 0 {
                0
            } else {
                led.core.log.term_at(base_index as int)
            };
            let entries = led.append_entries(peer, probe);
            let moved = if entries.len() == 0 {
                led
            } else {
                led.with_progress(
                    peer,
                    Progress { next_index: (entries.last().index + 1) as u64, ..progress },
                )
            };
            assert(led_fits(given, h, moved));
            lemma_sending_fits(
                given,
                h,
                moved,
                peer,
                MessageView::Append { base_index, base_term, entries },
            );
        }
    }
}

/// A leader that sends those of its peers that wait for it the entry at `index`.
pub proof fn lemma_replicating_fits<S: State>(
    given: Given<S>,
    h: History,
    led: Led<S>,
    peers: Seq<NodeID>,
    index: Index,
)
    requires
        h.wf(),
        led_fits(given, h, led),
    ensures
        led_fits(given, h, led.replicating(peers, index)),
    decreases peers.len(),
{
    if peers.len() > 0 {
        lemma_replicating_fits(given, h, led, peers.drop_last(), index);
        lemma_sending_append_fits(
            given,
            h,
            led.replicating(peers.drop_last(), index),
            peers.last(),
            false,
        );
    }
}

/// A node's log and what it did, when it led and appended an entry.
pub proof fn lemma_led_log_fits(
    h: History,
    next: History,
    node: NodeID,
    log: LogView,
    entry: EntryView,
)
    requires
        h.wf(),
        next.wf(),
        goes_on(h, next, node),
        log_fits(h, node, log),
        deeds_fit(h, node, log),
        log.last_index() + 1 < u64::MAX,
        entry.index == log.last_index() + 1,
        entry.term == log.term,
        next.reigns.contains_key(log.term),
        next.reigns[log.term].leader == node,
        next.terms == h.terms,
        next.log_of(log.term) == next.logs[node],
        next.logs[node] == h.logs[node].push(entry),
        next.is_rooted(next.logs[node]),
        next.ballots == h.ballots,
        next.campaigns == h.campaigns,
        forall|t: Term| #[trigger]
            next.acks.contains_key((node, t)) && t != log.term ==> h.acks.contains_key((node, t))
                && next.acks[(node, t)] == h.acks[(node, t)],
        forall|t: Term| #[trigger]
            next.reigns.contains_key(t) && t != log.term ==> h.reigns.contains_key(t),
    ensures
        ({
            let after = LogView { entries: log.entries.push(entry), kept_term: None, ..log };
            &&& log_fits(next, node, after)
            &&& deeds_fit(next, node, after)
        }),
{
    let before = h.logs[node];
    let whole = next.logs[node];
    let after = LogView { entries: log.entries.push(entry), kept_term: None, ..log };
    lemma_goes_on(h, next, node);
    assert(after.entries =~= whole.skip(log.first_index - 1));
    assert(whole.take(log.first_index - 1) =~= before.take(log.first_index - 1));
    assert(whole.take(log.commit_index as int) =~= before.take(log.commit_index as int));
    lemma_still_decided(
        h,
        next,
        node,
        before.take(log.commit_index as int),
        log.term,
        log.term,
    );
    assert forall|k: int| 0 <= k < whole.len() implies (#[trigger] whole[k]).term <= log.term by {
        if k < before.len() {
            assert(whole[k] == before[k]);
        }
    }
    assert forall|t: Term, n: nat| next.acked(node, t, n) implies #[trigger] next.kept(
        whole,
        t,
        n as int,
        log.term + 1,
    ) by {
        assert(next.acks.contains_key((node, t)));
        lemma_ack(next, node, t);
        if t == log.term {
            assert(share(whole, next.log_of(t), n as int));
        } else {
            assert(h.acked(node, t, n));
            lemma_ack(h, node, t);
            assert(h.kept(before, t, n as int, log.term + 1));
            lemma_still_kept(h, next, node, before, t, n as int, log.term + 1, log.term + 1);
            if share(before, next.log_of(t), n as int) {
                assert(whole.take(n as int) =~= before.take(n as int));
            }
        }
    }
}

/// The configuration of a log with one more entry.
pub proof fn lemma_config_of_push(h: History, log: Seq<EntryView>, entry: EntryView)
    ensures
        h.config_at(log.push(entry)) == match entry.membership {
            Some(change) => change,
            None => h.config_at(log),
        },
{
    let more = log.push(entry);
    assert(more.drop_last() =~= log);
    lemma_last_change(log);
    if entry.membership is None && last_change(log) >= 0 {
        assert(more[last_change(log)] == log[last_change(log)]);
    }
}

/// The configuration of a leader is one that a node with its log can have.
pub proof fn lemma_leader_suits<S: State>(h: History, core: Core<S>, role: LeaderView)
    requires
        h.wf(),
        leader_fits(h, core, role),
    ensures
        h.suits(h.logs[core.id], core.term() + 1, core.membership.active),
{
    let log = h.logs[core.id];
    lemma_part_suits(h, core.term(), log.len() as int);
    assert(log.take(log.len() as int) =~= log);
}

/// The configuration of a term's leader when it appended an entry.
pub proof fn lemma_config_in_push(h: History, next: History, term: Term, entry: EntryView)
    requires
        h.wf(),
        h.reigns.contains_key(term),
        next.config == h.config,
        next.reigns[term] == (Reign { log: h.log_of(term).push(entry), ..h.reigns[term] }),
    ensures
        next.config_in(term, h.log_of(term).len() as int + 1) == match entry.membership {
            Some(change) => change,
            None => h.config_in(term, h.log_of(term).len() as int),
        },
{
    lemma_reign(h, term);
    let log = h.log_of(term);
    let more = log.push(entry);
    assert(log.take(log.len() as int) =~= log);
    assert(more.take(more.len() as int) =~= more);
    lemma_config_of_push(h, log, entry);
    assert(more.drop_last() =~= log);
}

/// A leader that proposes a command.
pub proof fn lemma_proposing_fits<S: State>(
    given: Given<S>,
    h: History,
    led: Led<S>,
    command: Option<Seq<u8>>,
) -> (next: History)
    requires
        h.wf(),
        led_fits(given, h, led),
        led.core.log.last_index() + 1 < u64::MAX,
        given.init is Some && command is Some ==> is_write::<S>(command->Some_0),
    ensures
        next.wf(),
        goes_on(h, next, led.core.id),
        asks_nothing(h, next),
        led_fits(given, next, led.proposing(command)),
        led.proposing(command).core.id == led.core.id,
{
    let node = led.core.id;
    let log = led.core.log;
    let term = log.term;
    let entry = EntryView {
        index: (log.last_index() + 1) as u64,
        term,
        command,
        membership: None,
    };
    let next = h.leading(node, term, entry);
    lemma_leading(h, node, term, entry);
    lemma_led_log_fits(h, next, node, log, entry);
    lemma_messages_still_fit(h, next, node, led.core.out);
    lemma_goes_on(h, next, node);
    lemma_answers_fit_more::<S>(h, next, given, led.core.out, led.core.out);
    lemma_config_in_push(h, next, term, entry);
    let appended = Led {
        core: Core { log: log.appending(command, None), ..led.core },
        ..led
    };
    lemma_moves_more(given, h, next, led.core, term, entry);
    lemma_traces_on(given, h, next, node, led.core, appended.core);
    assert(appended.core.log == (LogView { entries: log.entries.push(entry), kept_term: None, ..log }));
    lemma_leader_suits(next, appended.core, appended.role);
    assert(log.entries.push(entry).drop_last() =~= log.entries);
    let peers = ascending(appended.core.peers());
    let index = appended.core.log.last_index() as u64;
    lemma_replicating_fits(given, next, appended, peers, index);
    lemma_replicating_keeps(appended, peers, index);
    next
}

/// The last change of a log that is settled is committed.
proof fn lemma_settled(h: History, node: NodeID, log: LogView)
    requires
        h.wf(),
        log_fits(h, node, log),
        h.reigns.contains_key(log.term),
        h.log_of(log.term) == h.logs[node],
        is_last_change(log, log.commit_index),
        last_change(h.logs[node]) >= 0,
    ensures
        h.is_settled(
            h.logs[node],
            last_change(h.logs[node]),
            log.term,
            h.logs[node].len() as int,
        ),
{
    let whole = h.logs[node];
    let p = last_change(whole);
    let start = log.first_index - 1;
    let commit = log.commit_index as int;
    lemma_last_change(whole);
    lemma_latest_change(log.entries);
    lemma_config_of_more(h, whole.take(start), log.entries);
    assert(whole.take(start) + log.entries =~= whole);
    lemma_last_change(whole.take(start));
    lemma_last_change(log.entries);
    lemma_rooted_entries(h, whole);
    assert(p < commit) by {
        if last_change(log.entries) >= 0 {
            assert(log.entries[last_change(log.entries)] == whole[p]);
        }
    }
    let decided = whole.take(commit);
    let (t, n) = choose|t: Term, n: nat| #[trigger]
        h.commits.contains((t, n)) && t <= log.term && decided.len() <= n && share(
            decided,
            h.log_of(t),
            decided.len() as int,
        );
    lemma_commit(h, t, n);
    lemma_share_less(decided, h.log_of(t), commit, p + 1);
    assert(decided.take(p + 1) =~= whole.take(p + 1));
    assert(h.commits.contains((t, n)) && t <= log.term && p < n && share(
        whole,
        h.log_of(t),
        p + 1,
    ) && (t < log.term || h.spans[(t, n)] <= whole.len()));
}

/// A leader that matches what it knows of its peers with its configuration.
proof fn lemma_syncing_fits<S: State>(given: Given<S>, h: History, led: Led<S>)
    requires
        led_fits(given, h, led),
    ensures
        led_fits(given, h, led.syncing()),
        led.syncing().core == led.core,
        led.syncing().failed == led.failed,
{
}

/// A leader that appends a membership change and adopts it.
pub proof fn lemma_changing_fits<S: State>(
    given: Given<S>,
    h: History,
    led: Led<S>,
    change: MembershipView,
) -> (next: History)
    requires
        h.wf(),
        led_fits(given, h, led),
        led.core.log.last_index() + 1 < u64::MAX,
        can_follow_config(h.config_at(h.logs[led.core.id]), change),
        is_last_change(led.core.log, led.core.log.commit_index),
    ensures
        next.wf(),
        goes_on(h, next, led.core.id),
        asks_nothing(h, next),
        led_fits(given, next, led.changing(change)),
        led.changing(change).core.id == led.core.id,
{
    let node = led.core.id;
    let log = led.core.log;
    let term = log.term;
    let entry = EntryView {
        index: (log.last_index() + 1) as u64,
        term,
        command: None,
        membership: Some(change),
    };
    let next = h.leading(node, term, entry);
    if last_change(h.logs[node]) >= 0 {
        lemma_settled(h, node, log);
    }
    lemma_leading(h, node, term, entry);
    lemma_led_log_fits(h, next, node, log, entry);
    lemma_messages_still_fit(h, next, node, led.core.out);
    lemma_goes_on(h, next, node);
    lemma_answers_fit_more::<S>(h, next, given, led.core.out, led.core.out);
    lemma_config_in_push(h, next, term, entry);
    let appended = Led {
        core: Core {
            log: log.appending(None, Some(change)),
            membership: led.core.membership.applying(change),
            ..led.core
        },
        ..led
    };
    assert(appended.core.log == (LogView { entries: log.entries.push(entry), kept_term: None, ..log }));
    lemma_moves_more(given, h, next, led.core, term, entry);
    lemma_traces_on(given, h, next, node, led.core, appended.core);
    lemma_leader_suits(next, appended.core, appended.role);
    assert(led_fits(given, next, appended));
    lemma_syncing_fits(given, next, appended);
    let synced = appended.syncing();
    let peers = ascending(synced.core.peers());
    let index = synced.core.log.last_index() as u64;
    lemma_replicating_fits(given, next, synced, peers, index);
    lemma_replicating_keeps(synced, peers, index);
    next
}

/// Whether committed changes can be dealt with in order: at most one of them is
/// joint, and the last change in the leader's log is committed and is that one or its
/// target.
pub open spec fn is_orderly<S: State>(led: Led<S>, changes: Seq<MembershipView>) -> bool {
    &&& joint_count(changes) <= 1
    &&& forall|k: int|
        0 <= k < changes.len() ==> (#[trigger] changes[k] matches MembershipView::Joint {
            new,
            ..
        } ==> can_target(led.core.log, new))
}

/// Whether the last change in a log is committed and can lead to these voters.
pub open spec fn can_target(log: LogView, new: Set<NodeID>) -> bool {
    log.latest_membership() matches Some((index, change)) && index <= log.commit_index
        && can_follow_config(change, MembershipView::Simple(new))
}

/// A leader that deals with committed membership changes.
proof fn lemma_settling_fits<S: State>(
    given: Given<S>,
    h: History,
    led: Led<S>,
    changes: Seq<MembershipView>,
) -> (next: History)
    requires
        h.wf(),
        led_fits(given, h, led),
        is_orderly(led, changes),
        led.core.log.last_index() + joint_count(changes) < u64::MAX,
    ensures
        next.wf(),
        goes_on(h, next, led.core.id),
        asks_nothing(h, next),
        joint_count(changes) == 0 ==> next == h,
        led_fits(given, next, led.settling_all(changes).0),
        led.settling_all(changes).0.core.id == led.core.id,
        joint_count(changes) == 0 ==> led.settling_all(changes).0.core == led.core,
    decreases changes.len(),
{
    if changes.len() == 0 {
        lemma_goes_on_same(h, led.core.id);
        h
    } else {
        let rest = changes.drop_last();
        assert forall|k: int| 0 <= k < rest.len() implies (
        #[trigger] rest[k] matches MembershipView::Joint { new, .. } ==> can_target(
            led.core.log,
            new,
        )) by {
            assert(rest[k] == changes[k]);
        }
        let first = lemma_settling_fits(given, h, led, rest);
        let before = led.settling_all(rest).0;
        let last = changes[changes.len() - 1];
        if before.failed is Some {
            first
        } else {
            match last {
                MembershipView::Joint { old, new } => {
                    let simple = MembershipView::Simple(new);
                    lemma_config_of_rest(first, led.core.id, before.core.log);
                    let next = lemma_changing_fits(given, first, before, simple);
                    lemma_syncing_fits(given, next, before.changing(simple));
                    lemma_goes_on_twice(h, first, next, led.core.id);
                    next
                },
                MembershipView::Simple(_) => {
                    lemma_syncing_fits(given, first, before);
                    first
                },
            }
        }
    }
}

/// The configuration of a log is that of its last change, if it still has one.
pub proof fn lemma_config_of_rest(h: History, node: NodeID, log: LogView)
    requires
        log_fits(h, node, log),
    ensures
        log.latest_membership() matches Some((_, change)) ==> h.config_at(h.logs[node]) == change,
{
    let whole = h.logs[node];
    let start = log.first_index - 1;
    assert(whole.take(start) + log.entries =~= whole);
    lemma_config_of_more(h, whole.take(start), log.entries);
}

/// Whether a leader deals in order with what it commits next.
pub open spec fn settles_in_order<S: State>(led: Led<S>) -> bool {
    let target = led.commit_target(led.core.log.last_index());
    led.failed is None && target > led.core.log.commit_index ==> {
        let committed = Led {
            core: Core { log: led.core.log.committing(target), ..led.core },
            ..led
        };
        is_orderly(
            committed,
            changes_of(led.core.log.slice(led.core.applied() + 1, target as int)),
        )
    }
}

proof fn lemma_applying_messages<S: State>(h: History, led: Led<S>, entries: Seq<EntryView>)
    requires
        messages_fit(h, led.core.out),
    ensures
        messages_fit(h, led.applying_all(entries).core.out),
        led.core.out.len() <= led.applying_all(entries).core.out.len(),
        forall|k: int|
            0 <= k < led.core.out.len() ==> led.applying_all(entries).core.out[k]
                == #[trigger] led.core.out[k],
        sends_plainly(led.core.out, led.applying_all(entries).core.out),
    decreases entries.len(),
{
    if entries.len() > 0 {
        lemma_applying_messages(h, led, entries.drop_last());
        let before = led.applying_all(entries.drop_last()).core.out;
        assert(sends_plainly(before, led.applying_all(entries).core.out));
        lemma_plainly_twice(led.core.out, before, led.applying_all(entries).core.out);
    }
}

/// When a leader applies what is committed, a change is not taken to be over while the
/// log has one that is not committed.
proof fn lemma_applying_changes<S: State>(led: Led<S>, entries: Seq<EntryView>)
    requires
        led.core.membership.change_pending || is_last_change(
            led.core.log,
            led.core.log.commit_index,
        ),
        forall|k: int|
            0 <= k < entries.len() ==> (#[trigger] entries[k]).index <= led.core.log.commit_index,
    ensures
        ({
            let after = led.applying_all(entries).core;
            &&& after.log == led.core.log
            &&& after.membership.change_pending || is_last_change(
                led.core.log,
                led.core.log.commit_index,
            )
        }),
    decreases entries.len(),
{
    if entries.len() > 0 {
        let rest = entries.drop_last();
        assert forall|k: int| 0 <= k < rest.len() implies (#[trigger] rest[k]).index
            <= led.core.log.commit_index by {
            assert(rest[k] == entries[k]);
        }
        lemma_applying_changes(led, rest);
        assert(entries[entries.len() - 1].index <= led.core.log.commit_index);
    }
}

/// A leader that has committed in its term and applied what is committed has applied
/// what was committed when a confirmed read came.
proof fn lemma_confirmed_is_current<S: State>(
    given: Given<S>,
    h: History,
    led: Led<S>,
    seq: ReadSequence,
)
    requires
        h.wf(),
        led_fits(given, h, led),
        h.inquiries.contains_key((led.core.term(), seq)),
        led.is_confirmed(seq),
        led.core.log.commit_term >= led.core.term(),
        led.core.applied() >= led.core.log.commit_index,
    ensures
        is_current_for(led.core.applied(), h.inquiries[(led.core.term(), seq)]),
{
    let term = led.core.term();
    let node = led.core.id;
    let log = led.core.log;
    let whole = h.logs[node];
    let inquiry = h.inquiries[(term, seq)];
    let role = led.role;
    lemma_inquiry(h, term, seq);
    lemma_reign(h, term);
    let quorum = Set::new(
        |peer: NodeID|
            (peer == node && role.read_seq >= seq) || (role.progress.contains_key(peer)
                && role.progress[peer].read_seq >= seq),
    );
    assert(h.config_in(term, h.log_of(term).len() as int).quorum(quorum));
    assert forall|peer: NodeID| #[trigger] quorum.contains(peer) implies !inquiry.ahead.contains(
        peer,
    ) by {
        if peer != node {
            assert(h.confirmed(peer, term, role.progress[peer].read_seq));
            lemma_confirm(h, peer, term);
        }
    }
    assert forall|t: Term, n: nat| #[trigger] inquiry.known.contains((t, n)) implies n
        <= led.core.applied() by {
        confirmed_reads_have_no_rivals(h, term, seq, quorum, t);
        if t < term {
            leaders_are_complete(h, t, n, term);
            let last = log.commit_index - 1;
            let decided = whole.take(log.commit_index as int);
            assert(decided.len() > 0);
            assert(decided.last() == whole[last]);
            assert(whole[last].term == term);
            assert(h.log_of(term)[last].term == term);
        } else {
            assert(h.commits.contains((term, n)));
        }
    }
}

/// A leader that answers the reads that are confirmed.
proof fn lemma_serving_fits<S: State>(given: Given<S>, h: History, led: Led<S>) -> (next:
    History)
    requires
        h.wf(),
        led_fits(given, h, led),
        given.states.contains((led.core.id, led.core.state)),
        led.core.log.commit_term >= led.core.term(),
        led.core.applied() >= led.core.log.commit_index,
    ensures
        next.wf(),
        goes_on(h, next, led.core.id),
        asks_nothing(h, next),
        led_fits(given, next, led.serving()),
    decreases led.role.reads.len(),
{
    if led.role.reads.len() == 0 || !led.is_confirmed(led.role.reads[0].seq) {
        lemma_goes_on_same(h, led.core.id);
        h
    } else {
        let read = led.role.reads[0];
        let message = MessageView::ClientResponse {
            id: read.id,
            response: got(S::reading(led.core.state, read.command)),
        };
        let served = Led {
            core: led.core.sending(read.from, message),
            role: LeaderView { reads: led.role.reads.skip(1), ..led.role },
            ..led
        };
        let first = lemma_served_fits(given, h, led);
        let next = lemma_serving_fits(given, first, served);
        lemma_goes_on_twice(h, first, next, led.core.id);
        next
    }
}

/// A leader that answers the first read.
proof fn lemma_served_fits<S: State>(given: Given<S>, h: History, led: Led<S>) -> (next:
    History)
    requires
        h.wf(),
        led_fits(given, h, led),
        given.states.contains((led.core.id, led.core.state)),
        led.core.log.commit_term >= led.core.term(),
        led.core.applied() >= led.core.log.commit_index,
        led.role.reads.len() > 0,
        led.is_confirmed(led.role.reads[0].seq),
    ensures
        next.wf(),
        goes_on(h, next, led.core.id),
        asks_nothing(h, next),
        ({
            let read = led.role.reads[0];
            let message = MessageView::ClientResponse {
                id: read.id,
                response: got(S::reading(led.core.state, read.command)),
            };
            led_fits(
                given,
                next,
                Led {
                    core: led.core.sending(read.from, message),
                    role: LeaderView { reads: led.role.reads.skip(1), ..led.role },
                    ..led
                },
            )
        }),
{
    let node = led.core.id;
    let term = led.core.term();
    let reads = led.role.reads;
    let read = reads[0];
    let seq = read.seq;
    let message = MessageView::ClientResponse {
        id: read.id,
        response: got(S::reading(led.core.state, read.command)),
    };
    let answer = EnvelopeView { from: node, term, to: read.from, message };
    let inquiry = h.inquiries[(term, seq)];
    lemma_confirmed_is_current(given, h, led, seq);
    lemma_answering(h, node, term, seq, answer);
    let next = h.answering(term, seq, answer);
    lemma_deeds_still(h, next, node, led.core.log);
    lemma_messages_still_fit(h, next, node, led.core.out);
    lemma_suits_stays(
        h,
        next,
        node,
        h.logs[node],
        led.core.term() + 1,
        led.core.term() + 1,
        led.core.membership.active,
    );
    let role = LeaderView { reads: reads.skip(1), ..led.role };
    let out = led.core.out.push(answer);
    lemma_moves_same(given, h, next, led.core);
    lemma_traces_on(given, h, next, node, led.core, led.core.sending(read.from, message));
    assert(reads_fit(next, term, role)) by {
        assert forall|k: int| 0 <= k < role.reads.len() implies #[trigger] role.reads[k] == reads[k
            + 1] by {
        }
        assert forall|s: ReadSequence| #[trigger] next.inquiries.contains_key((term, s)) implies {
            &&& s <= role.read_seq
            &&& next.inquiries[(term, s)].answer is Some || is_waiting(role, s)
        } by {
            assert(h.inquiries.contains_key((term, s)));
            if s != seq && h.inquiries[(term, s)].answer is None {
                let k = choose|k: int| 0 <= k < reads.len() && (#[trigger] reads[k]).seq == s;
                assert(role.reads[k - 1].seq == s);
            }
        }
        assert forall|k: int| 0 <= k < role.reads.len() implies {
            let read = #[trigger] role.reads[k];
            let inquiry = next.inquiries[(term, read.seq)];
            &&& next.inquiries.contains_key((term, read.seq))
            &&& inquiry.from == read.from
            &&& inquiry.id == read.id
            &&& inquiry.command == read.command
            &&& inquiry.answer is None
        } by {
            assert(reads[0].seq < reads[k + 1].seq);
        }
    }
    assert(answers_fit::<S>(next, given, out)) by {
        assert forall|t: Term, s: ReadSequence| #[trigger]
            next.inquiries.contains_key((t, s)) implies {
            let inquiry = next.inquiries[(t, s)];
            inquiry.answer matches Some(answer) ==> {
                &&& is_answer::<S>(given.states, inquiry, next.reigns[t].leader, t, answer)
                &&& given.sent.contains(answer) || out.contains(answer)
            }
        } by {
            assert(h.inquiries.contains_key((t, s)));
            if (t, s) == (term, seq) {
                let after = next.inquiries[(t, s)];
                assert(answer_from::<S>(led.core.state, after, node, term) == answer);
                assert(is_current_for(led.core.applied(), after));
                assert(out.last() == answer);
                assert(out[out.len() - 1] == answer);
            } else if let Some(earlier) = h.inquiries[(t, s)].answer {
                if led.core.out.contains(earlier) {
                    let k = choose|k: int|
                        0 <= k < led.core.out.len() && led.core.out[k] == earlier;
                    assert(out[k] == earlier);
                }
            }
        }
    }
    next
}

/// A leader that answers reads.
pub proof fn lemma_reading_fits<S: State>(
    given: Given<S>,
    h: History,
    led: Led<S>,
) -> (next:
    History)
    requires
        h.wf(),
        led_fits(given, h, led),
        given.states.contains((led.core.id, led.core.state)),
    ensures
        next.wf(),
        goes_on(h, next, led.core.id),
        asks_nothing(h, next),
        led_fits(given, next, led.reading()),
        led.reading().core.id == led.core.id,
{
    lemma_reading(led);
    if led.failed is Some || led.core.log.commit_term < led.core.term() || led.core.applied()
        < led.core.log.commit_index {
        lemma_goes_on_same(h, led.core.id);
        h
    } else {
        lemma_serving_fits(given, h, led)
    }
}

/// A leader that takes a snapshot and compacts its log.
proof fn lemma_snapshotting_fits<S: State>(given: Given<S>, h: History, led: Led<S>)
    requires
        h.wf(),
        led_fits(given, h, led),
        led.core.applied() <= led.core.log.commit_index || !led.is_snapshot_due(),
    ensures
        led_fits(given, h, led.snapshotting()),
{
    let log = led.core.log;
    let whole = h.logs[led.core.id];
    let after = led.snapshotting();
    let index = led.core.applied();
    lemma_traces_snapshotting(given, h, led);
    if after.core.log != log {
        assert(index >= log.first_index);
        let compacted = after.core.log;
        lemma_rest_at(log, whole, index as int);
        assert(compacted.entries =~= whole.skip(index as int));
        assert(whole.take(index as int).last() == whole[index - 1]);
        assert(compacted.first_index == index + 1);
        let cut = index + 1 - log.first_index;
        assert(log.entries.take(cut) + log.entries.skip(cut) =~= log.entries);
        lemma_latest_of_more(log.entries.take(cut), log.entries.skip(cut));
    }
}

/// What a leader commits next is what a quorum has.
proof fn lemma_target_fits<S: State>(given: Given<S>, h: History, led: Led<S>)
    requires
        h.wf(),
        led_fits(given, h, led),
        led.commit_target(led.core.log.last_index()) > led.core.log.commit_index,
    ensures
        ({
            let target = led.commit_target(led.core.log.last_index());
            let next = h.committing(led.core.log.term, target as nat);
            &&& target <= led.core.log.last_index()
            &&& next.wf()
            &&& goes_on(h, next, led.core.id)
            &&& led_fits(
                given,
                next,
                Led { core: Core { log: led.core.log.committing(target), ..led.core }, ..led },
            )
        }),
{
    let node = led.core.id;
    let log = led.core.log;
    let term = log.term;
    let whole = h.logs[node];
    let target = led.commit_target(log.last_index());
    lemma_commit_target(led, log.last_index());
    commits_need_a_quorum(led, log.last_index());
    lemma_rest_at(log, whole, target as int);
    let quorum = led.matched_at(target as int);
    lemma_reign(h, term);
    assert forall|who: NodeID| #[trigger] quorum.contains(who) implies h.acked(
        who,
        term,
        target as nat,
    ) by {
        if who != node {
            assert(led.role.progress.contains_key(who));
        }
    }
    assert(whole[target - 1].term == term);
    let next = h.committing(term, target as nat);
    lemma_committing(h, node, term, target as nat, quorum);
    lemma_committed_fits(given, h, next, led, target);
}

/// A leader that applied what it committed.
proof fn lemma_applied_fits<S: State>(
    given: Given<S>,
    h: History,
    committed: Led<S>,
    entries: Seq<EntryView>,
    target: Index,
)
    requires
        h.wf(),
        led_fits(given, h, committed),
        target <= committed.core.log.last_index(),
        entries == committed.core.log.slice(committed.core.applied() + 1, target as int),
        target == committed.core.log.commit_index,
        given.init is Some ==> given.states.contains(
            (committed.core.id, committed.applying_all(entries).core.state),
        ),
    ensures
        led_fits(given, h, committed.applying_all(entries)),
        committed.core.applied() <= target ==> committed.applying_all(entries).core.applied()
            <= target,
        committed.core.applied() > target ==> committed.applying_all(entries) == committed,
{
    let log = committed.core.log;
    let whole = h.logs[committed.core.id];
    let low = committed.core.applied() + 1;
    let from = if low < log.first_index {
        0
    } else {
        low - log.first_index
    };
    lemma_rooted_entries(h, whole);
    assert forall|k: int| 0 <= k < entries.len() implies (#[trigger] entries[k]).index <= target
        && entries[k] == whole[from + k + log.first_index - 1] by {
        assert(entries[k] == log.entries[from + k]);
    }
    lemma_applying_all(committed, entries);
    lemma_applied_bound(committed, entries, target as int);
    lemma_applying_messages(h, committed, entries);
    let applied = committed.applying_all(entries);
    lemma_answers_fit_more::<S>(h, h, given, committed.core.out, applied.core.out);
    lemma_traces_replayed(given, h, committed);
    if given.init is Some {
        lemma_traces_applied(given, h, committed.core, applied.core);
    } else {
        lemma_traces_nothing(given, h, applied.core);
    }
    if committed.core.applied() > target {
        assert(entries.len() == 0);
    }
    lemma_slice_committed(committed.core.log, committed.core.applied() + 1);
    lemma_applying_changes(committed, entries);
}

/// A leader that commits what a quorum has.
pub proof fn lemma_committing_fits<S: State>(
    given: Given<S>,
    h: History,
    led: Led<S>,
) -> (next: History)
    requires
        h.wf(),
        led_fits(given, h, led),
        led.failed is None ==> led.can_commit(),
        settles_in_order(led),
        given.states.contains((led.core.id, led.committing().0.core.state)),
    ensures
        next.wf(),
        goes_on(h, next, led.core.id),
        asks_nothing(h, next),
        led_fits(given, next, led.committing().0),
        led.committing().0.core.id == led.core.id,
{
    let node = led.core.id;
    let log = led.core.log;
    let target = led.commit_target(log.last_index());
    if led.failed is Some || target <= log.commit_index {
        lemma_goes_on_same(h, node);
        h
    } else {
        let next = h.committing(log.term, target as nat);
        lemma_target_fits(given, h, led);
        let committed = Led { core: Core { log: log.committing(target), ..led.core }, ..led };
        let entries = committed.core.log.slice(committed.core.applied() + 1, target as int);
        assert(entries == log.slice(led.core.applied() + 1, target as int));
        lemma_applying_all(committed, entries);
        let applied = committed.applying_all(entries);
        let changes = changes_of(entries);
        assert(is_orderly(applied, changes));
        lemma_settling_all(applied, changes);
        lemma_reading(applied.settling_all(changes).0);
        assert(led.committing().0.core.state == applied.core.state);
        lemma_applied_fits(given, next, committed, entries, target);
        let last = lemma_settled_fits(
            given,
            next,
            applied,
            changes,
            log.commit_term != led.core.term(),
        );
        lemma_goes_on_twice(h, next, last, node);
        last
    }
}

/// A leader that has applied what it committed.
proof fn lemma_settled_fits<S: State>(
    given: Given<S>,
    h: History,
    applied: Led<S>,
    changes: Seq<MembershipView>,
    reads: bool,
) -> (next: History)
    requires
        h.wf(),
        led_fits(given, h, applied),
        is_orderly(applied, changes),
        given.states.contains((applied.core.id, applied.core.state)),
        applied.core.log.last_index() + joint_count(changes) < u64::MAX,
        applied.core.applied() <= applied.core.log.commit_index || !applied.is_snapshot_due(),
    ensures
        next.wf(),
        goes_on(h, next, applied.core.id),
        asks_nothing(h, next),
        ({
            let settled = applied.settling_all(changes).0;
            let read = if reads {
                settled.reading()
            } else {
                settled
            };
            &&& led_fits(given, next, read)
            &&& led_fits(given, next, read.snapshotting())
            &&& read.core.id == applied.core.id
        }),
{
    let node = applied.core.id;
    let later = lemma_settling_fits(given, h, applied, changes);
    let settled = applied.settling_all(changes).0;
    lemma_settling_all(applied, changes);
    lemma_reading(settled);
    if reads {
        let last = lemma_reading_fits(given, later, settled);
        lemma_snapshotting_fits(given, last, settled.reading());
        lemma_goes_on_twice(h, later, last, node);
        last
    } else {
        lemma_snapshotting_fits(given, later, settled);
        later
    }
}

proof fn lemma_committed_fits<S: State>(
    given: Given<S>,
    h: History,
    next: History,
    led: Led<S>,
    target: Index,
)
    requires
        h.wf(),
        led_fits(given, h, led),
        next == h.committing(led.core.log.term, target as nat),
        next.wf(),
        goes_on(h, next, led.core.id),
        led.core.log.commit_index < target <= led.core.log.last_index(),
        next.is_decided(h.logs[led.core.id].take(target as int), led.core.log.term),
    ensures
        led_fits(
            given, next,
            Led { core: Core { log: led.core.log.committing(target), ..led.core }, ..led },
        ),
{
    let node = led.core.id;
    let log = led.core.log;
    let whole = h.logs[node];
    lemma_deeds_still(h, next, node, log);
    lemma_suits_stays(
        h,
        next,
        node,
        h.logs[node],
        led.core.term() + 1,
        led.core.term() + 1,
        led.core.membership.active,
    );
    lemma_messages_still_fit(h, next, node, led.core.out);
    lemma_goes_on(h, next, node);
    lemma_answers_fit_more::<S>(h, next, given, led.core.out, led.core.out);
    lemma_rest_at(log, whole, target as int);
    assert(whole.take(target as int).last() == whole[target - 1]);
    lemma_moves_same(given, h, next, led.core);
    lemma_traces_on(
        given,
        h,
        next,
        node,
        led.core,
        Core { log: log.committing(target), ..led.core },
    );
}

/// A leader that sends a message to every peer.
pub proof fn lemma_broadcasting_fits<S: State>(
    given: Given<S>,
    h: History,
    led: Led<S>,
    message: MessageView,
)
    requires
        h.wf(),
        led_fits(given, h, led),
        forall|to: NodeID|
            to != led.core.id ==> #[trigger] message_fits(
                h,
                EnvelopeView { from: led.core.id, term: led.core.term(), to, message },
            ),
        !(message is InstallSnapshot),
    ensures
        messages_fit(h, led.core.broadcasting(message).out),
        led_fits(given, h, Led { core: led.core.broadcasting(message), ..led }),
{
    let peers = led.core.peers();
    lemma_ascending(peers);
    let to = ascending(peers);
    let before = led.core.out;
    let out = led.core.broadcasting(message).out;
    assert forall|k: int| 0 <= k < out.len() implies message_fits(h, #[trigger] out[k]) by {
        if k < before.len() {
            assert(out[k] == before[k]);
        } else {
            let peer = to[k - before.len()];
            assert(to.to_set().contains(peer));
            assert(out[k] == (EnvelopeView {
                from: led.core.id,
                term: led.core.term(),
                to: peer,
                message,
            }));
        }
    }
    lemma_answers_fit_more::<S>(h, h, given, before, out);
    lemma_goes_on_same(h, led.core.id);
    lemma_moves_same(given, h, h, led.core);
    lemma_traces_on(given, h, h, led.core.id, led.core, led.core.broadcasting(message));
}

/// A leader that sends a heartbeat.
pub proof fn lemma_heartbeating_fits<S: State>(given: Given<S>, h: History, led: Led<S>)
    requires
        h.wf(),
        led_fits(given, h, led),
    ensures
        led_fits(given, h, led.heartbeating()),
{
    lemma_broadcasting_fits(
        given,
        h,
        led,
        MessageView::Heartbeat {
            last_index: led.core.log.last_index() as u64,
            commit_index: led.core.log.commit_index,
            read_seq: led.role.read_seq,
        },
    );
}

/// Whether a leader deals in order with what it commits when a peer is seen to match.
pub open spec fn matches_in_order<S: State>(led: Led<S>, peer: NodeID, index: Index) -> bool {
    led.failed is None && index > led.role.progress[peer].match_index ==> settles_in_order(
        led.with_progress(peer, led.role.progress[peer].advancing(index)),
    )
}

/// A leader that hears that a peer has its entries up to `index`.
pub proof fn lemma_matching_fits<S: State>(
    given: Given<S>,
    h: History,
    led: Led<S>,
    peer: NodeID,
    index: Index,
) -> (next: History)
    requires
        h.wf(),
        led_fits(given, h, led),
        led.role.progress.contains_key(peer),
        index > 0 ==> h.acked(peer, led.core.term(), index as nat),
        led.failed is None ==> led.can_match(peer, index),
        matches_in_order(led, peer, index),
        given.states.contains((led.core.id, led.matching(peer, index).0.core.state)),
    ensures
        next.wf(),
        goes_on(h, next, led.core.id),
        asks_nothing(h, next),
        led_fits(given, next, led.matching(peer, index).0),
        led.matching(peer, index).0.core.id == led.core.id,
{
    if led.failed is Some || index <= led.role.progress[peer].match_index {
        lemma_goes_on_same(h, led.core.id);
        h
    } else {
        lemma_ack(h, peer, led.core.term());
        lemma_committing_fits(
            given,
            h,
            led.with_progress(peer, led.role.progress[peer].advancing(index)),
        )
    }
}

/// A leader that hears that a peer confirms a read.
pub proof fn lemma_confirming_fits<S: State>(
    given: Given<S>,
    h: History,
    led: Led<S>,
    peer: NodeID,
    seq: ReadSequence,
) -> (next: History)
    requires
        h.wf(),
        led_fits(given, h, led),
        given.states.contains((led.core.id, led.core.state)),
        led.role.progress.contains_key(peer),
        seq > 0 ==> h.confirmed(peer, led.core.term(), seq),
    ensures
        next.wf(),
        goes_on(h, next, led.core.id),
        asks_nothing(h, next),
        led_fits(given, next, led.confirming(peer, seq)),
        led.confirming(peer, seq).role.progress.contains_key(peer),
        led.confirming(peer, seq).core.id == led.core.id,
        led.confirming(peer, seq).core.log == led.core.log,
{
    if seq <= led.role.progress[peer].read_seq {
        lemma_goes_on_same(h, led.core.id);
        h
    } else {
        let confirmed = led.with_progress(peer, led.role.progress[peer].advancing_read(seq));
        lemma_reading(confirmed);
        lemma_reading_fits(given, h, confirmed)
    }
}

} // verus!
