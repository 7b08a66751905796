//! What holds of every node, whatever it is sent.

use vstd::prelude::*;
use super::session::session_command;

use super::entry::{EntryView, Index};
use super::ids::{ascending, NodeID};
use super::leader::{
    lemma_applied_bound, lemma_applying_all, lemma_commit_target, lemma_confirming, lemma_reading,
    lemma_replicating_keeps, lemma_same_target, lemma_sending_keeps, lemma_settling_all,
};
use super::log::LogView;
use super::log_laws::{is_consistent, lemma_agreeing, splice_keeps_committed};
use super::membership::{quorums_intersect, MembershipView};
use super::message::{Envelope, EnvelopeView, MessageView, ReadSequence, RequestID, RequestView};
use super::model::{
    admits, campaigning, can_tick, can_win, candidate_admits, candidate_receives, changes_of,
    conceding, concluding, counting, discovering, follower_step, follower_takes, got, is_foreign,
    is_known, is_prevote, joint_count, leader_step, leader_takes, new_follower, new_leader,
    quorum_window, stepping, stepping_down, ticking, winning, CandidateView, Core, ElectionPhase,
    FollowerView, LeaderView, Led, NodeView, ReadView, Ticks, Write,
};
use super::node::Node;
use super::state::State;
use crate::error::{ErrorView, Result};
use crate::storage::engine::{Engine, StatusView};

verus! {

/// What the view of every well-formed node is like.
pub open spec fn is_valid<S: State>(node: NodeView<S>) -> bool {
    &&& is_consistent(node.base().log)
    &&& node.base().log.last_index() <= u64::MAX
    &&& node matches NodeView::Leader(core, role) ==> (Led {
        core,
        role,
        failed: None,
    }).is_settled()
}

/// The view of every well-formed node is valid.
pub proof fn well_formed_is_valid<E: Engine, S: State>(node: Node<E, S>)
    requires
        node.wf(),
    ensures
        is_valid(node.view()),
{
    match node {
        Node::Candidate(raw) => raw.log.lemma_bounds(),
        Node::Follower(raw) => raw.log.lemma_bounds(),
        Node::Leader(raw) => raw.log.lemma_bounds(),
    }
}

// How a leader's log changes.

/// A log grew: its term and vote are the same, nothing was overwritten, the
/// commit index did not go back, and only committed entries were compacted away.
pub open spec fn grows(before: LogView, after: LogView) -> bool {
    &&& after.term == before.term
    &&& after.vote == before.vote
    &&& after.first_index >= before.first_index
    &&& after.commit_index >= before.commit_index
    &&& after.last_index() >= before.last_index()
    &&& forall|index: int|
        after.first_index <= index <= before.last_index() ==> #[trigger] after.at(index)
            == before.at(index)
    &&& after.first_index > before.first_index ==> after.first_index - 1 <= after.commit_index
}

proof fn lemma_grows_twice(a: LogView, b: LogView, c: LogView)
    requires
        grows(a, b),
        grows(b, c),
    ensures
        grows(a, c),
{
    assert forall|index: int| c.first_index <= index <= a.last_index() implies #[trigger] c.at(
        index,
    ) == a.at(index) by {
        assert(b.at(index) == a.at(index));
    }
}

proof fn lemma_appending_grows(
    log: LogView,
    command: Option<Seq<u8>>,
    membership: Option<MembershipView>,
)
    requires
        is_consistent(log),
        log.last_index() < u64::MAX,
    ensures
        grows(log, log.appending(command, membership)),
        is_consistent(log.appending(command, membership)),
{
}

proof fn lemma_settling_grows<S: State>(led: Led<S>, changes: Seq<MembershipView>)
    requires
        is_consistent(led.core.log),
        led.core.log.last_index() + joint_count(changes) <= u64::MAX,
    ensures
        grows(led.core.log, led.settling_all(changes).0.core.log),
        is_consistent(led.settling_all(changes).0.core.log),
        led.settling_all(changes).0.core.log.last_index() <= led.core.log.last_index()
            + joint_count(changes),
    decreases changes.len(),
{
    if changes.len() > 0 {
        let rest = changes.drop_last();
        lemma_settling_grows(led, rest);
        let before = led.settling_all(rest).0;
        let change = changes.last();
        if before.failed is None {
            if let MembershipView::Joint { old, new } = change {
                let simple = MembershipView::Simple(new);
                lemma_appending_grows(before.core.log, None, Some(simple));
                let synced = Led {
                    core: Core {
                        log: before.core.log.appending(None, Some(simple)),
                        membership: before.core.membership.applying(simple),
                        ..before.core
                    },
                    ..before
                }.syncing();
                lemma_replicating_keeps(
                    synced,
                    ascending(synced.core.peers()),
                    synced.core.log.last_index() as u64,
                );
                lemma_grows_twice(
                    led.core.log,
                    before.core.log,
                    led.settling_all(changes).0.core.log,
                );
            }
        }
    }
}

/// Committing only moves the commit index forward, appends, and compacts what is
/// committed.
pub proof fn committing_grows<S: State>(led: Led<S>)
    requires
        is_consistent(led.core.log),
        led.core.log.last_index() <= u64::MAX,
        led.can_commit(),
    ensures
        grows(led.core.log, led.committing().0.core.log),
        is_consistent(led.committing().0.core.log),
{
    let log = led.core.log;
    let target = led.commit_target(log.last_index());
    lemma_commit_target(led, log.last_index());
    if led.failed is None && target > log.commit_index {
        let committed = Led {
            core: Core { log: log.committing(target), ..led.core },
            ..led
        };
        let entries = committed.core.log.slice(committed.core.applied() + 1, target as int);
        assert(entries == log.slice(led.core.applied() + 1, target as int));
        let applied = committed.applying_all(entries);
        lemma_applying_all(committed, entries);
        assert forall|k: int| 0 <= k < entries.len() implies (#[trigger] entries[k]).index
            <= target by {
            let low = led.core.applied() + 1;
            let from = if low < log.first_index {
                0
            } else {
                low - log.first_index
            };
            assert(entries[k] == log.entries[from + k]);
        }
        lemma_applied_bound(committed, entries, target as int);
        let changes = changes_of(entries);
        lemma_settling_grows(applied, changes);
        lemma_settling_all(applied, changes);
        let (settled, step_down) = applied.settling_all(changes);
        lemma_reading(settled);
        let read = if log.commit_term != led.core.term() {
            settled.reading()
        } else {
            settled
        };
        assert(grows(log, committed.core.log));
        lemma_grows_twice(log, committed.core.log, settled.core.log);
        let last = led.committing().0;
        if !step_down {
            if led.core.applied() > target {
                assert(entries.len() == 0);
            }
            assert(grows(read.core.log, last.core.log));
            lemma_grows_twice(log, read.core.log, last.core.log);
        }
    }
}

proof fn lemma_proposing_grows<S: State>(led: Led<S>, command: Option<Seq<u8>>)
    requires
        is_consistent(led.core.log),
        led.core.log.last_index() < u64::MAX,
    ensures
        grows(led.core.log, led.proposing(command).core.log),
        is_consistent(led.proposing(command).core.log),
        led.proposing(command).core.log.last_index() == led.core.log.last_index() + 1,
{
    let appended = Led {
        core: Core { log: led.core.log.appending(command, None), ..led.core },
        ..led
    };
    lemma_appending_grows(led.core.log, command, None);
    lemma_replicating_keeps(
        appended,
        ascending(appended.core.peers()),
        appended.core.log.last_index() as u64,
    );
}

/// A leader that can commit still can when only what its clients wait for and
/// what it heard from its peers is different.
pub(crate) proof fn lemma_can_commit_same<S: State>(a: Led<S>, b: Led<S>)
    requires
        a.core == b.core,
        a.role.progress == b.role.progress,
        a.can_commit(),
    ensures
        b.can_commit(),
{
    lemma_same_target(a, b, a.core.log.last_index());
}

proof fn lemma_winning_grows<S: State>(core: Core<S>)
    requires
        is_consistent(core.log),
        can_win(core),
    ensures
        match winning(core) {
            Ok(next) => next is Leader && grows(core.log, next.base().log),
            Err(_) => true,
        },
{
    let led = Led {
        core,
        role: new_leader(core.peers(), core.log.last_index()),
        failed: None,
    };
    let proposed = led.proposing(None);
    lemma_proposing_grows(led, None);
    if proposed.failed is None {
        committing_grows(proposed);
        lemma_grows_twice(core.log, proposed.core.log, proposed.committing().0.core.log);
    }
}

proof fn lemma_request_grows<S: State>(
    led: Led<S>,
    from: NodeID,
    id: RequestID,
    request: RequestView,
    storage: std::result::Result<StatusView, ErrorView>,
)
    requires
        is_consistent(led.core.log),
        led.core.log.last_index() <= u64::MAX,
        led.failed is None,
        led.can_serve(request),
    ensures
        grows(led.core.log, led.requested(from, id, request, storage).0.core.log),
{
    let log = led.core.log;
    let write = Write { from, id };
    match request {
        RequestView::Write(_) | RequestView::WriteSession { .. } => {
            let command = match request {
                RequestView::Write(command) => command,
                RequestView::WriteSession { client_id, seq, command } =>
                    session_command(client_id, seq, command),
                _ => seq![],
            };
            let proposed = led.proposing(Some(command));
            lemma_proposing_grows(led, Some(command));
            if proposed.failed is None {
                let waiting = Led {
                    role: LeaderView {
                        writes: proposed.role.writes.insert(
                            proposed.core.log.last_index() as u64,
                            write,
                        ),
                        ..proposed.role
                    },
                    ..proposed
                };
                if waiting.core.is_alone() {
                    lemma_can_commit_same(proposed, waiting);
                    committing_grows(waiting);
                    lemma_grows_twice(log, waiting.core.log, waiting.committing().0.core.log);
                }
            }
        },
        RequestView::Read(command) => {
            let seq = (led.role.read_seq + 1) as u64;
            lemma_reading(
                Led {
                    core: led.core.broadcasting(MessageView::Read { seq }),
                    role: LeaderView {
                        read_seq: seq,
                        reads: led.role.reads.push(
                            ReadView { seq, from, id, command },
                        ),
                        ..led.role
                    },
                    ..led
                },
            );
        },
        RequestView::Status => {},
        RequestView::ChangeMembership { voters } => {
            if led.change_refused(voters) is None {
                let joint = MembershipView::Joint {
                    old: led.core.membership.active.target(),
                    new: voters,
                };
                lemma_appending_grows(log, None, Some(joint));
                let synced = Led {
                    core: Core {
                        log: log.appending(None, Some(joint)),
                        membership: led.core.membership.applying(joint),
                        ..led.core
                    },
                    ..led
                }.syncing();
                lemma_replicating_keeps(
                    synced,
                    ascending(synced.core.peers()),
                    synced.core.log.last_index() as u64,
                );
                let changed = led.changing(joint);
                if changed.failed is None {
                    let waiting = Led {
                        role: LeaderView {
                            membership_writes: changed.role.membership_writes.insert(
                                changed.core.log.last_index() as u64,
                                write,
                            ),
                            ..changed.role
                        },
                        ..changed
                    };
                    if waiting.core.is_alone() {
                        lemma_can_commit_same(changed, waiting);
                        committing_grows(waiting);
                        lemma_grows_twice(log, waiting.core.log, waiting.committing().0.core.log);
                    }
                }
            }
        },
    }
}

proof fn lemma_matching_grows<S: State>(led: Led<S>, peer: NodeID, index: Index)
    requires
        is_consistent(led.core.log),
        led.core.log.last_index() <= u64::MAX,
        led.can_match(peer, index),
    ensures
        grows(led.core.log, led.matching(peer, index).0.core.log),
{
    if led.failed is None && index > led.role.progress[peer].match_index {
        committing_grows(led.with_progress(peer, led.role.progress[peer].advancing(index)));
    }
}

proof fn lemma_leader_step_grows<S: State>(
    core: Core<S>,
    role: LeaderView,
    msg: EnvelopeView,
    timeout: Ticks,
    storage: std::result::Result<StatusView, ErrorView>,
)
    requires
        is_consistent(core.log),
        core.log.last_index() <= u64::MAX,
        leader_takes(core, role, msg),
    ensures
        match leader_step(core, role, msg, timeout, storage) {
            Ok(next) => grows(core.log, next.base().log),
            Err(_) => true,
        },
{
    let led = Led { core, role, failed: None };
    let from = msg.from;
    let known = role.progress.contains_key(from);
    match msg.message {
        MessageView::HeartbeatResponse { match_index, read_seq } if known => {
            let noted = led.noting(from);
            let confirmed = noted.confirming(from, read_seq);
            lemma_confirming(noted, from, read_seq);
            let last = core.log.last_index() as u64;
            if match_index == 0 {
                let moved = confirmed.with_progress(
                    from,
                    confirmed.role.progress[from].regressing(last),
                );
                lemma_sending_keeps(moved, from, true);
            } else {
                lemma_matching_grows(confirmed, from, match_index);
            }
        },
        MessageView::AppendResponse { match_index, reject_index } if known => {
            let noted = led.noting(from);
            if match_index > 0 {
                lemma_matching_grows(noted, from, match_index);
                lemma_sending_keeps(noted.matching(from, match_index).0, from, false);
            } else {
                let progress = noted.role.progress[from];
                lemma_sending_keeps(
                    noted.with_progress(from, progress.regressing(reject_index)),
                    from,
                    true,
                );
            }
        },
        MessageView::ReadResponse { seq } if known => {
            lemma_confirming(led.noting(from), from, seq);
        },
        MessageView::InstallSnapshotResponse { last_included_index } if known => {
            let noted = led.noting(from);
            lemma_matching_grows(noted, from, last_included_index);
            lemma_sending_keeps(noted.matching(from, last_included_index).0, from, false);
        },
        MessageView::ClientRequest { id, request } => {
            lemma_request_grows(led, from, id, request, storage);
        },
        _ => {},
    }
}

/// A leader only appends to its log: in its own term, no message makes it
/// overwrite an entry, take back a commit, or drop an entry that is not
/// committed.
pub proof fn leader_only_appends<S: State>(
    core: Core<S>,
    role: LeaderView,
    msg: EnvelopeView,
    timeout: Ticks,
    storage: std::result::Result<StatusView, ErrorView>,
)
    requires
        is_valid(NodeView::Leader(core, role)),
        admits(NodeView::Leader(core, role), msg),
        msg.term <= core.term(),
    ensures
        match stepping(NodeView::Leader(core, role), msg, timeout, storage) {
            Ok(next) => grows(core.log, next.base().log),
            Err(_) => true,
        },
{
    if is_known(core, msg.from) && !is_prevote(msg.message) && msg.term == core.term() {
        lemma_leader_step_grows(core, role, msg, timeout, storage);
    }
}

// What every message does to any node.

/// The term did not fall, and in the same term a vote that was cast stands.
pub open spec fn keeps_vote(before: LogView, after: LogView) -> bool {
    after.term > before.term || (after.term == before.term && (before.vote is None || after.vote
        == before.vote))
}

/// The commit index did not go back, and what was committed is unchanged where
/// the log still has it.
pub open spec fn keeps_committed(before: LogView, after: LogView) -> bool {
    &&& after.commit_index >= before.commit_index
    &&& forall|index: int|
        after.first_index <= index <= before.commit_index ==> after.holds(index)
            && #[trigger] after.at(index) == before.at(index)
}

/// Whether a message is a snapshot that ends before what `log` has committed. A
/// node can be sent one when its state machine is behind its commit index.
pub open spec fn is_old_snapshot(log: LogView, message: MessageView) -> bool {
    message matches MessageView::InstallSnapshot { last_included_index, .. } && last_included_index
        < log.commit_index
}

proof fn lemma_follower_step<S: State>(core: Core<S>, role: FollowerView, msg: EnvelopeView)
    requires
        is_consistent(core.log),
        core.log.last_index() <= u64::MAX,
        follower_takes(core, role, msg),
        msg.term == core.term(),
    ensures
        match follower_step(core, role, msg) {
            Ok(next) => {
                &&& next is Follower
                &&& keeps_vote(core.log, next.base().log)
                &&& next.base().log.term == core.log.term
                &&& !is_old_snapshot(core.log, msg.message) ==> keeps_committed(
                    core.log,
                    next.base().log,
                )
                &&& next.base().log.vote != core.log.vote ==> {
                    &&& msg.message matches MessageView::Campaign { last_index, last_term }
                    &&& core.is_current(last_index, last_term)
                    &&& next.base().log.vote == Some(msg.from)
                }
            },
            Err(_) => true,
        },
{
    match msg.message {
        MessageView::Append { base_index, base_term, entries } => {
            if !is_foreign(role, msg.from) && (base_index == 0 || core.log.has(
                base_index as int,
                base_term,
            )) {
                splice_keeps_committed(core.log, entries);
            }
        },
        _ => {},
    }
}

proof fn lemma_grown_keeps(before: LogView, after: LogView)
    requires
        is_consistent(before),
        grows(before, after),
    ensures
        keeps_vote(before, after),
        keeps_committed(before, after),
{
}

/// What a message does to a node's term, vote and committed entries.
///
/// - Terms never fall.
/// - A node votes at most once in a term.
/// - It votes for another node only when that node asks for it, with a log that
///   is at least as up to date as its own.
/// - The commit index never goes back and committed entries never change, unless
///   the message is a snapshot older than what the node has committed.
pub proof fn steps_are_safe<S: State>(
    node: NodeView<S>,
    msg: EnvelopeView,
    timeout: Ticks,
    storage: std::result::Result<StatusView, ErrorView>,
)
    requires
        is_valid(node),
        admits(node, msg),
    ensures
        match stepping(node, msg, timeout, storage) {
            Ok(next) => {
                let before = node.base().log;
                let after = next.base().log;
                &&& keeps_vote(before, after)
                &&& !is_old_snapshot(before, msg.message) ==> keeps_committed(before, after)
                &&& after.vote is Some && (after.vote != before.vote || after.term != before.term)
                    && after.vote != Some(node.base().id) ==> {
                    &&& msg.message matches MessageView::Campaign { last_index, last_term }
                    &&& node.base().is_current(last_index, last_term)
                    &&& after.vote == Some(msg.from)
                    &&& after.term == msg.term
                }
            },
            Err(_) => true,
        },
{
    let core = node.base();
    if is_known(core, msg.from) {
        match node {
            NodeView::Follower(core, role) => {
                if !is_prevote(msg.message) && msg.term > core.term() {
                    let (core, role) = discovering(core, role, msg.term, timeout);
                    lemma_takes_any_timeout(core, role, msg, 0);
                    lemma_follower_step(core, role, msg);
                } else if !is_prevote(msg.message) && msg.term == core.term() {
                    lemma_follower_step(core, role, msg);
                }
            },
            NodeView::Candidate(core, role) => {
                lemma_candidate_step(core, role, msg, timeout);
            },
            NodeView::Leader(core, role) => {
                if !is_prevote(msg.message) && msg.term > core.term() {
                    let (core, role) = stepping_down(core, role, msg.term, timeout);
                    lemma_takes_any_timeout(core, role, msg, 0);
                    lemma_follower_step(core, role, msg);
                } else {
                    if !is_prevote(msg.message) {
                        leader_only_appends(core, role, msg, timeout, storage);
                    }
                    match stepping(node, msg, timeout, storage) {
                        Ok(next) => lemma_grown_keeps(core.log, next.base().log),
                        Err(_) => {},
                    }
                }
            },
        }
    }
}

/// Whether a follower can take a message does not depend on its timeout.
pub(crate) proof fn lemma_takes_any_timeout<S: State>(
    core: Core<S>,
    role: FollowerView,
    msg: EnvelopeView,
    timeout: Ticks,
)
    ensures
        follower_takes(core, role, msg) == follower_takes(
            core,
            FollowerView { election_timeout: timeout, ..role },
            msg,
        ),
{
}

proof fn lemma_candidate_step<S: State>(
    core: Core<S>,
    role: CandidateView,
    msg: EnvelopeView,
    timeout: Ticks,
)
    requires
        is_consistent(core.log),
        core.log.last_index() <= u64::MAX,
        candidate_admits(core, role, msg),
    ensures
        match candidate_receives(core, role, msg, timeout) {
            Ok(next) => {
                let before = core.log;
                let after = next.base().log;
                &&& keeps_vote(before, after)
                &&& !is_old_snapshot(before, msg.message) ==> keeps_committed(before, after)
                &&& after.vote is Some && (after.vote != before.vote || after.term != before.term)
                    && after.vote != Some(core.id) ==> {
                    &&& msg.message matches MessageView::Campaign { last_index, last_term }
                    &&& core.is_current(last_index, last_term)
                    &&& after.vote == Some(msg.from)
                    &&& after.term == msg.term
                }
            },
            Err(_) => true,
        },
{
    if let MessageView::PreCampaignResponse { vote } = msg.message {
        if vote && role.phase == ElectionPhase::PreVote && core.quorum(
            counting(core, role, msg.from),
        ) {
            let (started, candidate) = campaigning(core, timeout);
            assert(started == campaigning(core, 0).0);
            if core.quorum(candidate.votes) {
                lemma_winning_grows(started);
                match winning(started) {
                    Ok(next) => lemma_grown_keeps(started.log, next.base().log),
                    Err(_) => {},
                }
            }
        }
    } else if msg.message is PreCampaign {
    } else if msg.term > core.term() {
        let (core, role) = conceding(core, msg.term, timeout);
        lemma_takes_any_timeout(core, role, msg, 0);
        lemma_follower_step(core, role, msg);
    } else if msg.term == core.term() {
        if let MessageView::CampaignResponse { vote } = msg.message {
            if vote && role.phase == ElectionPhase::Election && core.quorum(
                counting(core, role, msg.from),
            ) {
                lemma_winning_grows(core);
                match winning(core) {
                    Ok(next) => lemma_grown_keeps(core.log, next.base().log),
                    Err(_) => {},
                }
            }
        } else {
            let follower = new_follower(Some(msg.from), timeout);
            lemma_takes_any_timeout(core, follower, msg, 0);
            match msg.message {
                MessageView::Heartbeat { .. } => lemma_follower_step(core, follower, msg),
                MessageView::Append { .. } => lemma_follower_step(core, follower, msg),
                MessageView::Read { .. } => lemma_follower_step(core, follower, msg),
                MessageView::InstallSnapshot { .. } => lemma_follower_step(core, follower, msg),
                _ => {},
            }
        }
    }
}

/// What a tick does to a node's term, vote and log: the term does not fall, in
/// the same term the vote stands, and the entries and the commit index are
/// unchanged.
pub proof fn ticks_are_safe<S: State>(node: NodeView<S>, timeout: Ticks)
    requires
        can_tick(node),
    ensures
        ({
            let before = node.base().log;
            let after = ticking(node, timeout).base().log;
            &&& keeps_vote(before, after)
            &&& after == (LogView { term: after.term, vote: after.vote, ..before })
            &&& after.term == before.term ==> after.vote == before.vote
            &&& after.term != before.term ==> after.term == before.term + 1 && after.vote == Some(
                node.base().id,
            )
        }),
{
}

/// A message from a node that is no voter is ignored.
pub proof fn strangers_are_ignored<S: State>(
    node: NodeView<S>,
    msg: EnvelopeView,
    timeout: Ticks,
    storage: std::result::Result<StatusView, ErrorView>,
)
    requires
        msg.from != node.base().id,
        !node.base().voters().contains(msg.from),
    ensures
        stepping(node, msg, timeout, storage) == Ok::<NodeView<S>, ErrorView>(node),
{
}

/// A message of a past term is ignored, unless it is about a pre-vote.
pub proof fn past_terms_are_ignored<S: State>(
    node: NodeView<S>,
    msg: EnvelopeView,
    timeout: Ticks,
    storage: std::result::Result<StatusView, ErrorView>,
)
    requires
        msg.term < node.base().term(),
        !is_prevote(msg.message),
    ensures
        stepping(node, msg, timeout, storage) == Ok::<NodeView<S>, ErrorView>(node),
{
}

/// A node that ignores a message, from a stranger or of a past term, takes it without
/// fail and stays as it was, whether storage works or not.
pub proof fn ignored_messages_change_nothing<E: Engine, S: State>(
    node: Node<E, S>,
    msg: Envelope,
    timeout: Ticks,
    r: Result<Node<E, S>>,
)
    requires
        node.wf(),
        !is_known(node.view().base(), msg.from) || (msg.term < node.view().base().term()
            && !is_prevote(msg@.message)),
        call_ensures(Node::<E, S>::step_with, (node, msg, timeout), r) || call_ensures(
            Node::<E, S>::step,
            (node, msg),
            r,
        ),
    ensures
        r matches Ok(next) && next.wf() && next.view() == node.view(),
{
}

/// Being asked for a pre-vote changes nothing: the node answers, whatever the
/// term that is asked for.
pub proof fn prevotes_change_nothing<S: State>(
    node: NodeView<S>,
    msg: EnvelopeView,
    timeout: Ticks,
    storage: std::result::Result<StatusView, ErrorView>,
)
    requires
        msg.message is PreCampaign,
    ensures
        ({
            let next = stepping(node, msg, timeout, storage);
            &&& next is Ok
            &&& next->Ok_0.base() == (Core { out: next->Ok_0.base().out, ..node.base() })
            &&& next->Ok_0.silenced() == node.silenced()
        }),
{
}

/// A node raises its term for a pre-vote only once a quorum supports it.
pub proof fn support_comes_first<S: State>(
    node: NodeView<S>,
    msg: EnvelopeView,
    timeout: Ticks,
    storage: std::result::Result<StatusView, ErrorView>,
)
    requires
        is_valid(node),
        admits(node, msg),
        is_prevote(msg.message),
    ensures
        match stepping(node, msg, timeout, storage) {
            Ok(next) => next.base().term() != node.base().term() ==> {
                &&& node matches NodeView::Candidate(core, role)
                &&& role.phase == ElectionPhase::PreVote
                &&& msg.message == (MessageView::PreCampaignResponse { vote: true })
                &&& core.quorum(counting(core, role, msg.from))
            },
            Err(_) => true,
        },
{
}

/// A node comes to lead only with the votes of a quorum, its own among them, in
/// an election.
pub proof fn leaders_have_a_quorum<S: State>(
    node: NodeView<S>,
    msg: EnvelopeView,
    timeout: Ticks,
    storage: std::result::Result<StatusView, ErrorView>,
)
    requires
        is_valid(node),
        admits(node, msg),
        node !is Leader,
    ensures
        match stepping(node, msg, timeout, storage) {
            Ok(next) => next is Leader ==> {
                &&& node matches NodeView::Candidate(core, role)
                &&& {
                    ||| role.phase == ElectionPhase::Election && msg.term == core.term()
                        && msg.message == (MessageView::CampaignResponse { vote: true })
                        && core.quorum(counting(core, role, msg.from))
                    ||| role.phase == ElectionPhase::PreVote && core.quorum(set![core.id])
                }
            },
            Err(_) => true,
        },
{
}

/// No term has two leaders: two candidates of one term and configuration, each with
/// votes of a quorum, are the same, where every voter voted for one of them.
pub proof fn one_leader_per_term<S: State>(
    a: Core<S>,
    a_role: CandidateView,
    b: Core<S>,
    b_role: CandidateView,
    voted: Map<NodeID, NodeID>,
)
    requires
        a.term() == b.term(),
        a.membership.active == b.membership.active,
        a.quorum(a_role.votes),
        b.quorum(b_role.votes),
        forall|voter: NodeID| #[trigger]
            a_role.votes.contains(voter) ==> voted.contains_pair(voter, a.id),
        forall|voter: NodeID| #[trigger]
            b_role.votes.contains(voter) ==> voted.contains_pair(voter, b.id),
    ensures
        a.id == b.id,
{
    quorums_intersect(a.membership.active, a_role.votes, b_role.votes);
    let voter = choose|voter: NodeID|
        a.voters().contains(voter) && #[trigger] a_role.votes.contains(voter)
            && b_role.votes.contains(voter);
    assert(voted.contains_pair(voter, a.id) && voted.contains_pair(voter, b.id));
}

// Leaders.

/// The entry that a leader commits up to is of its own term, and a quorum has
/// it; and no later entry is such.
pub proof fn commits_need_a_quorum<S: State>(led: Led<S>, index: int)
    requires
        0 <= index <= led.core.log.last_index() <= u64::MAX,
    ensures
        ({
            let target = led.commit_target(index);
            &&& target > led.core.log.commit_index ==> {
                &&& target <= index
                &&& led.core.log.at(target as int).term == led.core.term()
                &&& led.core.quorum(led.matched_at(target as int))
            }
            &&& forall|later: int|
                led.core.log.commit_index < later && target < later <= index ==> !led.committable(
                    later,
                )
        }),
    decreases index,
{
    if index > led.core.log.commit_index && !led.committable(index) {
        commits_need_a_quorum(led, index - 1);
    }
}

/// Reads are answered in the order in which they came, each only once a quorum
/// confirmed the leadership for it, and by a leader that has committed in its
/// term and applied all that is committed. None that can be answered is left
/// waiting.
pub proof fn reads_are_confirmed<S: State>(led: Led<S>) -> (n: int)
    ensures
        0 <= n <= led.role.reads.len(),
        led.reading().role.reads == led.role.reads.skip(n),
        led.reading().core.out.len() == led.core.out.len() + n,
        led.reading().core.out.take(led.core.out.len() as int) == led.core.out,
        forall|k: int| 0 <= k < n ==> led.is_confirmed((#[trigger] led.role.reads[k]).seq),
        forall|k: int|
            0 <= k < n ==> led.reading().core.out[led.core.out.len() + k] == (EnvelopeView {
                from: led.core.id,
                term: led.core.term(),
                to: (#[trigger] led.role.reads[k]).from,
                message: MessageView::ClientResponse {
                    id: led.role.reads[k].id,
                    response: got(
                        S::reading(led.core.state, led.role.reads[k].command),
                    ),
                },
            }),
        n > 0 ==> led.core.log.commit_term >= led.core.term() && led.core.applied()
            >= led.core.log.commit_index,
        led.failed is None && led.core.log.commit_term >= led.core.term() && led.core.applied()
            >= led.core.log.commit_index && n < led.role.reads.len() ==> !led.is_confirmed(
            led.role.reads[n].seq,
        ),
{
    if led.failed is Some || led.core.log.commit_term < led.core.term() || led.core.applied()
        < led.core.log.commit_index {
        assert(led.role.reads.skip(0) =~= led.role.reads);
        assert(led.core.out.take(led.core.out.len() as int) =~= led.core.out);
        0
    } else {
        lemma_served(led)
    }
}

proof fn lemma_served<S: State>(led: Led<S>) -> (n: int)
    ensures
        0 <= n <= led.role.reads.len(),
        led.serving().role.reads == led.role.reads.skip(n),
        led.serving().core.out.len() == led.core.out.len() + n,
        led.serving().core.out.take(led.core.out.len() as int) == led.core.out,
        forall|k: int| 0 <= k < n ==> led.is_confirmed((#[trigger] led.role.reads[k]).seq),
        forall|k: int|
            0 <= k < n ==> led.serving().core.out[led.core.out.len() + k] == (EnvelopeView {
                from: led.core.id,
                term: led.core.term(),
                to: (#[trigger] led.role.reads[k]).from,
                message: MessageView::ClientResponse {
                    id: led.role.reads[k].id,
                    response: got(
                        S::reading(led.core.state, led.role.reads[k].command),
                    ),
                },
            }),
        n < led.role.reads.len() ==> !led.is_confirmed(led.role.reads[n].seq),
    decreases led.role.reads.len(),
{
    let reads = led.role.reads;
    if reads.len() == 0 || !led.is_confirmed(reads[0].seq) {
        assert(reads.skip(0) =~= reads);
        assert(led.core.out.take(led.core.out.len() as int) =~= led.core.out);
        0
    } else {
        let read = reads[0];
        let next = Led {
            core: led.core.sending(
                read.from,
                MessageView::ClientResponse {
                    id: read.id,
                    response: got(S::reading(led.core.state, read.command)),
                },
            ),
            role: LeaderView { reads: reads.skip(1), ..led.role },
            ..led
        };
        let n = lemma_served(next);
        assert(reads.skip(1).skip(n) =~= reads.skip(n + 1));
        assert forall|seq: ReadSequence| next.is_confirmed(seq)
            == #[trigger] led.is_confirmed(seq) by {
            let role = led.role;
            let id = led.core.id;
            assert(Set::new(
                |peer: NodeID|
                    (peer == id && role.read_seq >= seq) || (role.progress.contains_key(peer)
                        && role.progress[peer].read_seq >= seq),
            ) =~= Set::new(
                |peer: NodeID|
                    (peer == id && next.role.read_seq >= seq) || (next.role.progress.contains_key(
                        peer,
                    ) && next.role.progress[peer].read_seq >= seq),
            ));
        }
        let out = led.serving().core.out;
        let len = led.core.out.len() as int;
        assert(out.take(len) =~= led.core.out) by {
            assert(out.take(len + 1).take(len) =~= out.take(len));
            assert(next.core.out.take(len) =~= led.core.out);
        }
        assert forall|k: int| 0 <= k < n + 1 implies led.is_confirmed(
            (#[trigger] reads[k]).seq,
        ) && out[len + k] == (EnvelopeView {
            from: led.core.id,
            term: led.core.term(),
            to: reads[k].from,
            message: MessageView::ClientResponse {
                id: reads[k].id,
                response: got(S::reading(led.core.state, reads[k].command)),
            },
        }) by {
            if k == 0 {
                assert(out[len] == out.take(len + 1)[len]);
            } else {
                assert(reads.skip(1)[k - 1] == reads[k]);
            }
        }
        if n + 1 < reads.len() {
            assert(reads.skip(1)[n] == reads[n + 1]);
        }
        n + 1
    }
}

/// There is at most one membership change at a time: while one is pending,
/// another is answered with an error and changes nothing else.
pub proof fn one_change_at_a_time<S: State>(
    led: Led<S>,
    from: NodeID,
    id: RequestID,
    voters: Set<NodeID>,
    storage: std::result::Result<StatusView, ErrorView>,
)
    requires
        led.failed is None,
        led.core.membership.change_pending,
    ensures
        led.requested(from, id, RequestView::ChangeMembership { voters }, storage) == (
            led.sending(
                from,
                MessageView::ClientResponse {
                    id,
                    response: Err(
                        ErrorView::InvalidInput("membership change already in progress"@),
                    ),
                },
            ),
            false,
        ),
{
}

/// A leader that commits a configuration without itself steps down, in the same
/// term.
pub proof fn removed_leader_steps_down<S: State>(led: Led<S>, voters: Set<NodeID>, timeout: Ticks)
    requires
        led.core.log.last_index() <= u64::MAX,
        led.failed is None,
        led.core.membership.active == MembershipView::Simple(voters),
        !voters.contains(led.core.id),
        ({
            let target = led.commit_target(led.core.log.last_index());
            &&& target > led.core.log.commit_index
            &&& changes_of(led.core.log.slice(led.core.applied() + 1, target as int)) == seq![
                MembershipView::Simple(voters),
            ]
        }),
    ensures
        ({
            let (after, step_down) = led.committing();
            &&& step_down
            &&& concluding(after, step_down, timeout) matches Ok(next)
            &&& next is Follower
            &&& next.base().term() == led.core.term()
        }),
{
    let log = led.core.log;
    let target = led.commit_target(log.last_index());
    let committed = Led { core: Core { log: log.committing(target), ..led.core }, ..led };
    let entries = committed.core.log.slice(committed.core.applied() + 1, target as int);
    assert(entries == log.slice(led.core.applied() + 1, target as int));
    lemma_applying_all(committed, entries);
    let applied = committed.applying_all(entries);
    let changes = seq![MembershipView::Simple(voters)];
    assert(changes.drop_last() =~= seq![]);
    assert(applied.settling_all(changes.drop_last()) == (applied, false));
    let (settled, step_down) = applied.settling_all(changes);
    assert(step_down);
    lemma_reading(settled);
}

/// A leader that checks its quorum and has heard from nobody for too long steps
/// down at the next tick, and aborts what its clients wait for.
pub proof fn isolated_leader_steps_down<S: State>(
    core: Core<S>,
    role: LeaderView,
    voters: Set<NodeID>,
    timeout: Ticks,
)
    requires
        core.opts.check_quorum,
        core.membership.active == MembershipView::Simple(voters),
        voters.finite(),
        voters.len() > 1,
        forall|peer: NodeID| #[trigger]
            role.peer_seen.contains_key(peer) && peer != core.id ==> role.peer_seen[peer] + 1
                >= quorum_window(core.opts),
    ensures
        ticking(NodeView::Leader(core, role), timeout) is Follower,
{
    let next = role.peer_seen.map_values(
        |seen: Ticks|
            if seen < u8::MAX {
                (seen + 1) as u8
            } else {
                seen
            },
    );
    let heard = Set::new(
        |peer: NodeID|
            peer == core.id || (next.contains_key(peer) && next[peer] < quorum_window(core.opts)),
    );
    assert(heard =~= set![core.id]) by {
        assert forall|peer: NodeID| heard.contains(peer) implies peer == core.id by {
            if peer != core.id {
                assert(role.peer_seen.contains_key(peer));
            }
        }
    }
    let both = voters.intersect(heard);
    vstd::set_lib::lemma_len_subset(both, set![core.id]);
}

// Followers.

/// A follower that accepts an append has every entry of it afterwards, with its
/// term, and answers with the index of the last one.
pub proof fn accepted_entries_are_held(log: LogView, entries: Seq<EntryView>)
    requires
        is_consistent(log),
        log.spliceable(entries),
    ensures
        forall|k: int|
            0 <= k < entries.len() ==> log.splicing(entries).has(
                (#[trigger] entries[k]).index as int,
                entries[k].term,
            ),
{
    lemma_agreeing(log, entries);
    splice_keeps_committed(log, entries);
    let n = log.agreeing(entries) as int;
    let after = log.splicing(entries);
    assert forall|k: int| 0 <= k < entries.len() implies after.has(
        (#[trigger] entries[k]).index as int,
        entries[k].term,
    ) by {
        if n < entries.len() {
            let kept = entries[n].index - log.first_index;
            assert(entries[n].index == entries[0].index + n);
            assert(entries[k].index == entries[0].index + k);
            if n > 0 {
                assert(log.holds(entries[n - 1].index as int));
                assert(entries[n - 1].index == entries[0].index + (n - 1));
            }
            if k < n {
                assert(log.holds(entries[k].index as int));
                assert(after.entries[entries[k].index - log.first_index]
                    == log.entries[entries[k].index - log.first_index]);
            } else {
                assert(after.entries[kept + (k - n)] == entries.skip(n)[k - n]);
            }
        }
    }
}

} // verus!
