//! What a node loses when it starts again: nothing. Its state is what its storage
//! leads to, the snapshot and the committed entries after it, whatever the node
//! was sent.

use vstd::prelude::*;

use super::entry::{EntryView, Index};
use super::ids::{ascending, NodeID};
use super::kv::{read_command, snapshot_restores, Kv, KvView};
use super::laws::{is_valid, lemma_can_commit_same, lemma_takes_any_timeout};
use super::leader::{
    lemma_applying_all, lemma_commit_target, lemma_confirming, lemma_reading,
    lemma_replicating_keeps, lemma_sending_keeps, lemma_settling_all,
};
use super::log::LogView;
use super::log_laws::{is_consistent, lemma_agreeing, splice_keeps_committed};
use super::membership::{MembershipStateView, MembershipView};
use super::message::{EnvelopeView, MessageView, RequestID, RequestView};
use super::model::{
    aborting_forwarded, admits, apply_all, applying_committed, campaigning, can_tick, can_win,
    candidate_admits, candidate_receives, changes_of, conceding, concluding, counting, discovering,
    follower_step, follower_takes, installs, is_foreign, is_known, is_prevote, joint_count,
    leader_step, leader_takes, new_follower, new_leader, opened, stepping, stepping_down, ticking,
    winning, CandidateView, Core, ElectionPhase, FollowerView, LeaderView, Led, NodeView, Options,
    ReadView, Ticks, Write,
};
use super::runtime::recovered;
use super::session::{
    blank, session_command, session_round_trip, session_snapshot_restores, sessions_fit, unwrapped,
    SessionState, SessionView,
};
use super::state::State;
use super::table::table_fits;
use crate::encoding::bincode::read_byte_string;
use crate::error::ErrorView;
use crate::storage::engine::StatusView;

verus! {

/// A state after entries were applied, one after the other.
pub open spec fn replay<S: State>(model: S::Model, entries: Seq<EntryView>) -> S::Model
    decreases entries.len(),
{
    if entries.len() == 0 {
        model
    } else {
        S::applying(replay::<S>(model, entries.drop_last()), entries.last()).0
    }
}

/// Whether an entry moves the state machine on to its index, whatever the state.
/// A change of the membership carries no command.
pub open spec fn moves_on<S: State>(entry: EntryView) -> bool {
    &&& forall|model: S::Model|
        S::applied((#[trigger] S::applying(model, entry)).0) == entry.index
    &&& entry.membership is Some ==> entry.command is None
}

pub open spec fn all_move_on<S: State>(entries: Seq<EntryView>) -> bool {
    forall|k: int| 0 <= k < entries.len() ==> moves_on::<S>(#[trigger] entries[k])
}

/// Whether an entry without a command moves the state machine on, and does nothing
/// else that depends on the membership.
pub open spec fn is_steady<S: State>() -> bool {
    forall|model: S::Model, entry: EntryView|
        entry.command is None ==> {
            let r = #[trigger] S::applying(model, entry);
            &&& S::applied(r.0) == entry.index
            &&& r.0 == S::applying(model, EntryView { membership: None, ..entry }).0
        }
}

/// Whether a snapshot of a state leads back to it, from the state that a process
/// starts with.
pub open spec fn comes_back<S: State>(init: S::Model, model: S::Model) -> bool {
    S::snapshotting(model) matches Ok(data) ==> S::restoring(init, data, S::applied(model)) == Ok::<
        S::Model,
        ErrorView,
    >(model)
}

/// Whether a snapshot leads to the same state from the one that a process starts
/// with as from `model`, and no further back than its index.
pub open spec fn replaces<S: State>(
    init: S::Model,
    model: S::Model,
    data: Seq<u8>,
    index: Index,
) -> bool {
    S::restoring(model, data, index) matches Ok(restored) ==> {
        &&& S::restoring(init, data, index) == Ok::<S::Model, ErrorView>(restored)
        &&& S::applied(restored) >= index
    }
}

/// Whether a node that starts again on this log, with the state machine in its
/// first state, has the same state again.
pub open spec fn is_kept<S: State>(core: Core<S>, init: S::Model) -> bool {
    &&& recovered::<S>(core.log, init) matches Ok(base)
    &&& S::applied(base) >= core.log.first_index - 1
    &&& core.applied() >= core.log.commit_index
    &&& core.state == replay::<S>(
        base,
        core.log.slice(S::applied(base) + 1, core.log.commit_index as int),
    )
}

/// Whether what a message adds to a log moves the state machine on.
pub open spec fn brings_on<S: State>(message: MessageView) -> bool {
    match message {
        MessageView::Append { entries, .. } => all_move_on::<S>(entries),
        MessageView::ClientRequest { request, .. } => match request {
            RequestView::Write(command) => is_write::<S>(command),
            RequestView::WriteSession { client_id, seq, command } => is_write::<S>(
                session_command(client_id, seq, command),
            ),
            _ => true,
        },
        _ => true,
    }
}

/// Whether a command moves the state machine on, wherever it stands in the log.
pub open spec fn is_write<S: State>(command: Seq<u8>) -> bool {
    forall|entry: EntryView|
        entry.command == Some(command) && entry.membership is None ==> #[trigger] moves_on::<S>(
            entry,
        )
}

/// Whether a snapshot in a message replaces the state of a node.
pub open spec fn carries_whole_state<S: State>(
    init: S::Model,
    model: S::Model,
    message: MessageView,
) -> bool {
    message matches MessageView::InstallSnapshot { last_included_index, data, .. } ==> {
        &&& last_included_index > 0
        &&& replaces::<S>(init, model, data, last_included_index)
    }
}

// Replaying.

pub proof fn lemma_replay_twice<S: State>(model: S::Model, a: Seq<EntryView>, b: Seq<EntryView>)
    ensures
        replay::<S>(model, a + b) == replay::<S>(replay::<S>(model, a), b),
    decreases b.len(),
{
    if b.len() == 0 {
        assert(a + b =~= a);
    } else {
        assert((a + b).drop_last() =~= a + b.drop_last());
        lemma_replay_twice::<S>(model, a, b.drop_last());
    }
}

/// Applying is replaying.
pub proof fn lemma_apply_all<S: State>(
    log: LogView,
    model: S::Model,
    membership: MembershipStateView,
    entries: Seq<EntryView>,
)
    ensures
        apply_all::<S>(log, model, membership, entries).0 == replay::<S>(model, entries),
    decreases entries.len(),
{
    if entries.len() > 0 {
        lemma_apply_all::<S>(log, model, membership, entries.drop_last());
    }
}

/// A leader that applies entries replays them.
pub proof fn lemma_led_applies<S: State>(led: Led<S>, entries: Seq<EntryView>)
    requires
        is_steady::<S>(),
        all_move_on::<S>(entries),
    ensures
        led.applying_all(entries).core.state == replay::<S>(led.core.state, entries),
    decreases entries.len(),
{
    if entries.len() > 0 {
        let front = entries.drop_last();
        assert forall|k: int| 0 <= k < front.len() implies moves_on::<S>(#[trigger] front[k]) by {
            assert(front[k] == entries[k]);
        }
        lemma_led_applies(led, front);
        let entry = entries.last();
        assert(moves_on::<S>(entries[entries.len() - 1]));
        if entry.membership is Some {
            let bare = EntryView { command: None, membership: None, ..entry };
            assert(bare == EntryView { membership: None, ..entry });
            assert(S::applying(replay::<S>(led.core.state, front), entry).0 == S::applying(
                replay::<S>(led.core.state, front),
                bare,
            ).0);
        }
    }
}

/// Replaying entries leads to the index of the last of them.
pub proof fn lemma_replayed<S: State>(model: S::Model, entries: Seq<EntryView>)
    requires
        all_move_on::<S>(entries),
    ensures
        S::applied(replay::<S>(model, entries)) == if entries.len() == 0 {
            S::applied(model)
        } else {
            entries.last().index
        },
{
    if entries.len() > 0 {
        assert(moves_on::<S>(entries[entries.len() - 1]));
    }
}

/// A slice of a log moves the state machine on if the log does.
proof fn lemma_slice_moves<S: State>(log: LogView, low: int, high: int)
    requires
        all_move_on::<S>(log.entries),
        is_consistent(log),
        low >= log.first_index,
        high <= log.last_index(),
    ensures
        all_move_on::<S>(log.slice(low, high)),
        low <= high ==> log.slice(low, high).len() == high - low + 1 && log.slice(
            low,
            high,
        ).last().index == high,
        low > high ==> log.slice(low, high).len() == 0,
{
    let slice = log.slice(low, high);
    assert forall|k: int| 0 <= k < slice.len() implies moves_on::<S>(#[trigger] slice[k]) by {
        assert(slice[k] == log.entries[low - log.first_index + k]);
    }
    if low <= high {
        assert(slice.last() == log.entries[high - log.first_index]);
    }
}

/// How far a kept state has come.
proof fn lemma_how_far<S: State>(core: Core<S>, init: S::Model)
    requires
        is_kept(core, init),
        all_move_on::<S>(core.log.entries),
        is_consistent(core.log),
    ensures
        ({
            let base = recovered::<S>(core.log, init)->Ok_0;
            core.applied() == if S::applied(base) >= core.log.commit_index {
                S::applied(base) as int
            } else {
                core.log.commit_index as int
            }
        }),
{
    let base = recovered::<S>(core.log, init)->Ok_0;
    let low = S::applied(base) + 1;
    let high = core.log.commit_index as int;
    lemma_slice_moves::<S>(core.log, low, high);
    lemma_replayed::<S>(base, core.log.slice(low, high));
}

// What keeps the state.

/// What a node keeps, and all that it would replay moves it on.
spec fn is_safe<S: State>(core: Core<S>, init: S::Model) -> bool {
    &&& is_kept(core, init)
    &&& all_move_on::<S>(core.log.entries)
    &&& is_consistent(core.log)
}

/// Two logs with the same snapshot and the same committed entries.
spec fn same_committed(before: LogView, after: LogView) -> bool {
    &&& after.first_index == before.first_index
    &&& after.snapshot == before.snapshot
    &&& after.commit_index == before.commit_index
    &&& after.last_index() >= before.commit_index
    &&& forall|index: int|
        before.first_index <= index <= before.commit_index ==> #[trigger] after.at(index)
            == before.at(index)
}

/// What is not committed does not matter.
proof fn lemma_quiet<S: State>(before: Core<S>, after: Core<S>, init: S::Model)
    requires
        is_safe(before, init),
        after.state == before.state,
        same_committed(before.log, after.log),
        all_move_on::<S>(after.log.entries),
        is_consistent(after.log),
    ensures
        is_safe(after, init),
{
    let base = recovered::<S>(before.log, init)->Ok_0;
    let low = S::applied(base) + 1;
    let high = before.log.commit_index as int;
    let a = before.log.slice(low, high);
    let b = after.log.slice(low, high);
    assert(a.len() == b.len());
    assert forall|k: int| 0 <= k < a.len() implies a[k] == b[k] by {
        let index = low + k;
        assert(a[k] == before.log.at(index));
        assert(b[k] == after.log.at(index));
    }
    assert(a =~= b);
    assert(recovered::<S>(after.log, init) == recovered::<S>(before.log, init));
}

/// Committing entries and applying them keeps the state.
proof fn lemma_applied<S: State>(before: Core<S>, after: Core<S>, init: S::Model)
    requires
        is_safe(before, init),
        after.log.first_index == before.log.first_index,
        after.log.snapshot == before.log.snapshot,
        after.log.entries == before.log.entries,
        before.log.commit_index <= after.log.commit_index <= before.log.last_index(),
        after.state == replay::<S>(
            before.state,
            before.log.slice(before.applied() + 1, after.log.commit_index as int),
        ),
    ensures
        is_safe(after, init),
{
    let base = recovered::<S>(before.log, init)->Ok_0;
    let b = S::applied(base) as int;
    let c = before.log.commit_index as int;
    let to = after.log.commit_index as int;
    let log = before.log;
    lemma_how_far(before, init);
    let a = before.applied() as int;
    lemma_slice_moves::<S>(log, a + 1, to);
    lemma_replayed::<S>(before.state, log.slice(a + 1, to));
    assert(recovered::<S>(after.log, init) == recovered::<S>(before.log, init));
    assert(after.log.slice(b + 1, to) == log.slice(b + 1, to));
    lemma_slice_moves::<S>(log, b + 1, c);
    lemma_slice_moves::<S>(log, b + 1, to);
    if b >= c {
        assert(before.state == base);
        assert(a == b);
    } else {
        assert(log.slice(b + 1, to) =~= log.slice(b + 1, c) + log.slice(c + 1, to));
        lemma_replay_twice::<S>(base, log.slice(b + 1, c), log.slice(c + 1, to));
    }
}

/// A snapshot of the whole state keeps it.
proof fn lemma_snapshotted<S: State>(led: Led<S>, init: S::Model)
    requires
        is_safe(led.core, init),
        comes_back::<S>(init, led.core.state),
        led.core.applied() <= led.core.log.commit_index || !led.is_snapshot_due(),
        led.core.log.last_index() < u64::MAX,
    ensures
        is_safe(led.snapshotting().core, init),
        led.snapshotting().core.state == led.core.state,
{
    let after = led.snapshotting();
    if led.failed is None && led.is_snapshot_due() && led.core.applied()
        >= led.core.log.commit_index {
        if let Ok(data) = S::snapshotting(led.core.state) {
            let log = led.core.log;
            let applied = led.core.applied();
            let new = after.core.log;
            assert(applied == log.commit_index);
            assert(new.first_index == applied + 1);
            assert forall|k: int| 0 <= k < new.entries.len() implies moves_on::<S>(
                #[trigger] new.entries[k],
            ) by {
                assert(new.entries[k] == log.entries[k + applied + 1 - log.first_index]);
            }
            assert(new.snapshot_meta().0 == applied);
            assert(recovered::<S>(new, init) == Ok::<S::Model, ErrorView>(led.core.state));
            assert(new.slice(applied + 1, new.commit_index as int) =~= seq![]);
        }
    }
}

// Leaders.

/// A log with one more entry has committed the same.
proof fn lemma_appended<S: State>(
    log: LogView,
    command: Option<Seq<u8>>,
    membership: Option<MembershipView>,
)
    requires
        is_consistent(log),
        log.last_index() < u64::MAX,
        all_move_on::<S>(log.entries),
        is_steady::<S>(),
        command is None || (membership is None && is_write::<S>(command->0)),
    ensures
        same_committed(log, log.appending(command, membership)),
        is_consistent(log.appending(command, membership)),
        all_move_on::<S>(log.appending(command, membership).entries),
{
    let new = log.appending(command, membership);
    let entry = new.entries.last();
    assert(moves_on::<S>(entry));
    assert forall|k: int| 0 <= k < new.entries.len() implies moves_on::<S>(
        #[trigger] new.entries[k],
    ) by {
        if k < log.entries.len() {
            assert(new.entries[k] == log.entries[k]);
        }
    }
}

/// Dealing with committed changes of the membership only appends.
proof fn lemma_settled<S: State>(led: Led<S>, changes: Seq<MembershipView>, init: S::Model)
    requires
        is_steady::<S>(),
        is_safe(led.core, init),
        led.core.log.last_index() + joint_count(changes) <= u64::MAX,
    ensures
        is_safe(led.settling_all(changes).0.core, init),
        led.settling_all(changes).0.core.log.last_index() <= led.core.log.last_index()
            + joint_count(changes),
    decreases changes.len(),
{
    if changes.len() > 0 {
        let rest = changes.drop_last();
        lemma_settled(led, rest, init);
        let before = led.settling_all(rest).0;
        let after = led.settling_all(changes).0;
        if before.failed is None {
            match changes.last() {
                MembershipView::Joint { old, new } => {
                    let simple = MembershipView::Simple(new);
                    lemma_appended::<S>(before.core.log, None, Some(simple));
                    let synced = Led {
                        core: Core {
                            log: before.core.log.appending(None, Some(simple)),
                            membership: before.core.membership.applying(simple),
                            ..before.core
                        },
                        ..before
                    }.syncing();
                    lemma_replicating_keeps(
                        synced,
                        ascending(synced.core.peers()),
                        synced.core.log.last_index() as u64,
                    );
                    lemma_quiet(before.core, after.core, init);
                },
                MembershipView::Simple(_) => {
                    lemma_quiet(before.core, after.core, init);
                },
            }
        }
    }
}

/// Committing keeps the state.
proof fn lemma_committed<S: State>(led: Led<S>, init: S::Model)
    requires
        is_steady::<S>(),
        is_safe(led.core, init),
        led.core.log.last_index() <= u64::MAX,
        led.can_commit(),
        comes_back::<S>(init, led.committing().0.core.state),
    ensures
        is_safe(led.committing().0.core, init),
{
    let log = led.core.log;
    let target = led.commit_target(log.last_index());
    lemma_commit_target(led, log.last_index());
    if led.failed is None && target > log.commit_index {
        let committed = Led {
            core: Core { log: log.committing(target), ..led.core },
            ..led
        };
        let entries = committed.core.log.slice(committed.core.applied() + 1, target as int);
        assert(entries == log.slice(led.core.applied() + 1, target as int));
        let applied = committed.applying_all(entries);
        lemma_applying_all(committed, entries);
        lemma_how_far(led.core, init);
        lemma_slice_moves::<S>(log, led.core.applied() + 1, target as int);
        lemma_led_applies(committed, entries);
        lemma_applied(led.core, applied.core, init);
        lemma_replayed::<S>(led.core.state, entries);
        let changes = changes_of(entries);
        lemma_settled(applied, changes, init);
        lemma_settling_all(applied, changes);
        let (settled, step_down) = applied.settling_all(changes);
        lemma_reading(settled);
        let read = if log.commit_term != led.core.term() {
            settled.reading()
        } else {
            settled
        };
        lemma_quiet(settled.core, read.core, init);
        if !step_down {
            if led.core.applied() > target {
                assert(entries.len() == 0);
            }
            let last = read.snapshotting();
            assert(last == led.committing().0);
            assert(last.core.state == read.core.state);
            lemma_snapshotted(read, init);
        }
    }
}

proof fn lemma_proposed<S: State>(led: Led<S>, command: Option<Seq<u8>>, init: S::Model)
    requires
        is_steady::<S>(),
        is_safe(led.core, init),
        led.core.log.last_index() < u64::MAX,
        command is None || is_write::<S>(command->0),
    ensures
        is_safe(led.proposing(command).core, init),
        led.proposing(command).core.log.last_index() == led.core.log.last_index() + 1,
{
    let appended = Led {
        core: Core { log: led.core.log.appending(command, None), ..led.core },
        ..led
    };
    lemma_appended::<S>(led.core.log, command, None);
    lemma_replicating_keeps(
        appended,
        ascending(appended.core.peers()),
        appended.core.log.last_index() as u64,
    );
    lemma_quiet(led.core, led.proposing(command).core, init);
}

proof fn lemma_won<S: State>(core: Core<S>, init: S::Model)
    requires
        is_steady::<S>(),
        is_safe(core, init),
        can_win(core),
    ensures
        match winning(core) {
            Ok(next) => comes_back::<S>(init, next.base().state) ==> is_safe(next.base(), init),
            Err(_) => true,
        },
{
    let led = Led { core, role: new_leader(core.peers(), core.log.last_index()), failed: None };
    let proposed = led.proposing(None);
    lemma_proposed(led, None, init);
    match winning(core) {
        Ok(next) => {
            let done = proposed.committing().0;
            assert(next.base().state == done.core.state);
            if comes_back::<S>(init, next.base().state) {
                if proposed.failed is None {
                    lemma_committed(proposed, init);
                }
                lemma_quiet(done.core, next.base(), init);
            }
        },
        Err(_) => {},
    }
}

proof fn lemma_concluded<S: State>(
    led: Led<S>,
    step_down: bool,
    timeout: Ticks,
    init: S::Model,
)
    requires
        comes_back::<S>(init, led.core.state) ==> is_safe(led.core, init),
    ensures
        match concluding(led, step_down, timeout) {
            Ok(next) => comes_back::<S>(init, next.base().state) ==> is_safe(next.base(), init),
            Err(_) => true,
        },
{
    match concluding(led, step_down, timeout) {
        Ok(next) => {
            if comes_back::<S>(init, next.base().state) {
                lemma_quiet(led.core, next.base(), init);
            }
        },
        Err(_) => {},
    }
}

proof fn lemma_requested<S: State>(
    led: Led<S>,
    from: NodeID,
    id: RequestID,
    request: RequestView,
    storage: std::result::Result<StatusView, ErrorView>,
    init: S::Model,
)
    requires
        is_steady::<S>(),
        is_safe(led.core, init),
        led.core.log.last_index() <= u64::MAX,
        led.failed is None,
        led.can_serve(request),
        brings_on::<S>(MessageView::ClientRequest { id, request }),
    ensures
        comes_back::<S>(init, led.requested(from, id, request, storage).0.core.state) ==> is_safe(
            led.requested(from, id, request, storage).0.core,
            init,
        ),
{
    let write = Write { from, id };
    let after = led.requested(from, id, request, storage).0;
    match request {
        RequestView::Write(_) | RequestView::WriteSession { .. } => {
            let command = match request {
                RequestView::Write(command) => command,
                RequestView::WriteSession { client_id, seq, command } => session_command(
                    client_id,
                    seq,
                    command,
                ),
                _ => seq![],
            };
            let proposed = led.proposing(Some(command));
            lemma_proposed(led, Some(command), init);
            if proposed.failed is None {
                let waiting = Led {
                    role: LeaderView {
                        writes: proposed.role.writes.insert(
                            proposed.core.log.last_index() as u64,
                            write,
                        ),
                        ..proposed.role
                    },
                    ..proposed
                };
                if waiting.core.is_alone() && comes_back::<S>(init, after.core.state) {
                    lemma_can_commit_same(proposed, waiting);
                    lemma_committed(waiting, init);
                }
            }
        },
        RequestView::Read(command) => {
            let seq = (led.role.read_seq + 1) as u64;
            lemma_reading(
                Led {
                    core: led.core.broadcasting(MessageView::Read { seq }),
                    role: LeaderView {
                        read_seq: seq,
                        reads: led.role.reads.push(ReadView { seq, from, id, command }),
                        ..led.role
                    },
                    ..led
                },
            );
            lemma_quiet(led.core, after.core, init);
        },
        RequestView::Status => {
            lemma_quiet(led.core, after.core, init);
        },
        RequestView::ChangeMembership { voters } => {
            if led.change_refused(voters) is None {
                let joint = MembershipView::Joint {
                    old: led.core.membership.active.target(),
                    new: voters,
                };
                lemma_appended::<S>(led.core.log, None, Some(joint));
                let synced = Led {
                    core: Core {
                        log: led.core.log.appending(None, Some(joint)),
                        membership: led.core.membership.applying(joint),
                        ..led.core
                    },
                    ..led
                }.syncing();
                lemma_replicating_keeps(
                    synced,
                    ascending(synced.core.peers()),
                    synced.core.log.last_index() as u64,
                );
                let changed = led.changing(joint);
                lemma_quiet(led.core, changed.core, init);
                if changed.failed is None {
                    let waiting = Led {
                        role: LeaderView {
                            membership_writes: changed.role.membership_writes.insert(
                                changed.core.log.last_index() as u64,
                                write,
                            ),
                            ..changed.role
                        },
                        ..changed
                    };
                    if waiting.core.is_alone() && comes_back::<S>(init, after.core.state) {
                        lemma_can_commit_same(changed, waiting);
                        lemma_committed(waiting, init);
                    }
                } else {
                    lemma_quiet(changed.core, after.core, init);
                }
            } else {
                lemma_quiet(led.core, after.core, init);
            }
        },
    }
}

proof fn lemma_matched<S: State>(led: Led<S>, peer: NodeID, index: Index, init: S::Model)
    requires
        is_steady::<S>(),
        is_safe(led.core, init),
        led.core.log.last_index() <= u64::MAX,
        led.can_match(peer, index),
    ensures
        comes_back::<S>(init, led.matching(peer, index).0.core.state) ==> is_safe(
            led.matching(peer, index).0.core,
            init,
        ),
{
    if led.failed is None && index > led.role.progress[peer].match_index && comes_back::<S>(
        init,
        led.matching(peer, index).0.core.state,
    ) {
        lemma_committed(led.with_progress(peer, led.role.progress[peer].advancing(index)), init);
    }
}

proof fn lemma_leader_keeps<S: State>(
    core: Core<S>,
    role: LeaderView,
    msg: EnvelopeView,
    timeout: Ticks,
    storage: std::result::Result<StatusView, ErrorView>,
    init: S::Model,
)
    requires
        is_steady::<S>(),
        is_safe(core, init),
        core.log.last_index() <= u64::MAX,
        leader_takes(core, role, msg),
        brings_on::<S>(msg.message),
    ensures
        match leader_step(core, role, msg, timeout, storage) {
            Ok(next) => comes_back::<S>(init, next.base().state) ==> is_safe(next.base(), init),
            Err(_) => true,
        },
{
    let led = Led { core, role, failed: None };
    let from = msg.from;
    let known = role.progress.contains_key(from);
    match msg.message {
        MessageView::HeartbeatResponse { match_index, read_seq } if known => {
            let noted = led.noting(from);
            let confirmed = noted.confirming(from, read_seq);
            lemma_confirming(noted, from, read_seq);
            lemma_quiet(core, confirmed.core, init);
            let last = core.log.last_index() as u64;
            if match_index == 0 {
                let moved = confirmed.with_progress(
                    from,
                    confirmed.role.progress[from].regressing(last),
                );
                lemma_sending_keeps(moved, from, true);
                let (done, step_down) = led.heard_heartbeat(from, match_index, read_seq);
                lemma_quiet(core, done.core, init);
                lemma_concluded(done, step_down, timeout, init);
            } else {
                lemma_matched(confirmed, from, match_index, init);
                let (done, step_down) = led.heard_heartbeat(from, match_index, read_seq);
                lemma_concluded(done, step_down, timeout, init);
            }
        },
        MessageView::AppendResponse { match_index, reject_index } if known => {
            let noted = led.noting(from);
            lemma_quiet(core, noted.core, init);
            if match_index > 0 {
                lemma_matched(noted, from, match_index, init);
                lemma_heard(led, from, match_index, timeout, init);
            } else {
                let progress = noted.role.progress[from];
                lemma_sending_keeps(
                    noted.with_progress(from, progress.regressing(reject_index)),
                    from,
                    true,
                );
                let done = led.heard_reject(from, reject_index);
                lemma_quiet(core, done.core, init);
                lemma_concluded(done, false, timeout, init);
            }
        },
        MessageView::ReadResponse { seq } if known => {
            lemma_confirming(led.noting(from), from, seq);
            let done = led.noting(from).confirming(from, seq);
            lemma_quiet(core, done.core, init);
            lemma_concluded(done, false, timeout, init);
        },
        MessageView::InstallSnapshotResponse { last_included_index } if known => {
            let noted = led.noting(from);
            lemma_quiet(core, noted.core, init);
            lemma_matched(noted, from, last_included_index, init);
            lemma_heard(led, from, last_included_index, timeout, init);
        },
        MessageView::ClientRequest { id, request } => {
            lemma_requested(led, from, id, request, storage, init);
            let (done, step_down) = led.requested(from, id, request, storage);
            lemma_concluded(done, step_down, timeout, init);
        },
        MessageView::Campaign { .. } => {
            let done = led.sending(from, MessageView::CampaignResponse { vote: false });
            lemma_quiet(core, done.core, init);
            lemma_concluded(done, false, timeout, init);
        },
        _ => {
            lemma_concluded(led, false, timeout, init);
        },
    }
}

proof fn lemma_heard<S: State>(
    led: Led<S>,
    from: NodeID,
    index: Index,
    timeout: Ticks,
    init: S::Model,
)
    requires
        ({
            let matched = led.noting(from).matching(from, index).0;
            comes_back::<S>(init, matched.core.state) ==> is_safe(matched.core, init)
        }),
    ensures
        ({
            let (done, step_down) = led.heard_match(from, index);
            match concluding(done, step_down, timeout) {
                Ok(next) => comes_back::<S>(init, next.base().state) ==> is_safe(
                    next.base(),
                    init,
                ),
                Err(_) => true,
            }
        }),
{
    let matched = led.noting(from).matching(from, index).0;
    lemma_sending_keeps(matched, from, false);
    let (done, step_down) = led.heard_match(from, index);
    if comes_back::<S>(init, matched.core.state) {
        lemma_quiet(matched.core, done.core, init);
    }
    lemma_concluded(done, step_down, timeout, init);
}

// Followers and candidates.

/// Applying what is committed keeps the state.
proof fn lemma_caught_up<S: State>(before: Core<S>, after: Core<S>, init: S::Model)
    requires
        is_safe(before, init),
        after.state == before.state,
        after.log == before.log.committing(after.log.commit_index),
        before.log.commit_index <= after.log.commit_index <= before.log.last_index(),
    ensures
        is_safe(applying_committed(after), init),
{
    let entries = after.log.slice(after.applied() + 1, after.log.commit_index as int);
    lemma_apply_all::<S>(after.log, after.state, after.membership, entries);
    assert(entries == before.log.slice(before.applied() + 1, after.log.commit_index as int));
    lemma_applied(before, applying_committed(after), init);
}

proof fn lemma_follower_keeps<S: State>(
    core: Core<S>,
    role: FollowerView,
    msg: EnvelopeView,
    init: S::Model,
)
    requires
        is_steady::<S>(),
        is_safe(core, init),
        core.log.last_index() <= u64::MAX,
        follower_takes(core, role, msg),
        brings_on::<S>(msg.message),
        carries_whole_state::<S>(init, core.state, msg.message),
    ensures
        match follower_step(core, role, msg) {
            Ok(next) => is_safe(next.base(), init),
            Err(_) => true,
        },
{
    match follower_step(core, role, msg) {
        Ok(next) => {
            let after = next.base();
            let foreign = is_foreign(role, msg.from);
            match msg.message {
                MessageView::Heartbeat { last_index, commit_index, .. } if !foreign && core.log.has(
                    last_index as int,
                    msg.term,
                ) && commit_index > core.log.commit_index => {
                    let committed = Core {
                        log: core.log.committing(commit_index),
                        out: after.out,
                        ..core
                    };
                    lemma_caught_up(core, committed, init);
                    assert(after == applying_committed(committed));
                },
                MessageView::Append { base_index, base_term, entries } if !foreign && (base_index
                    == 0 || core.log.has(base_index as int, base_term)) => {
                    splice_keeps_committed(core.log, entries);
                    lemma_spliced::<S>(core.log, entries);
                    lemma_quiet(core, after, init);
                },
                MessageView::InstallSnapshot { last_included_index, data, .. } if !foreign
                    && installs(core, last_included_index) => {
                    assert(after.log.snapshot_meta().0 == last_included_index);
                    assert(recovered::<S>(after.log, init) == Ok::<S::Model, ErrorView>(
                        after.state,
                    ));
                    let base = after.state;
                    assert(after.log.slice(
                        S::applied(base) + 1,
                        after.log.commit_index as int,
                    ) =~= seq![]);
                },
                _ => {
                    lemma_quiet(core, after, init);
                },
            }
        },
        Err(_) => {},
    }
}

/// A spliced log moves the state machine on if what is spliced does.
proof fn lemma_spliced<S: State>(log: LogView, entries: Seq<EntryView>)
    requires
        is_consistent(log),
        log.spliceable(entries),
        all_move_on::<S>(log.entries),
        all_move_on::<S>(entries),
    ensures
        all_move_on::<S>(log.splicing(entries).entries),
        same_committed(log, log.splicing(entries)),
{
    lemma_agreeing(log, entries);
    splice_keeps_committed(log, entries);
    let n = log.agreeing(entries) as int;
    let new = log.splicing(entries);
    if n < entries.len() {
        assert(entries[n].index == entries[0].index + n);
        if n > 0 {
            assert(log.holds(entries[n - 1].index as int));
            assert(entries[n - 1].index == entries[0].index + (n - 1));
        }
        let kept = entries[n].index - log.first_index;
        assert forall|k: int| 0 <= k < new.entries.len() implies moves_on::<S>(
            #[trigger] new.entries[k],
        ) by {
            if k < kept {
                assert(new.entries[k] == log.entries[k]);
            } else {
                assert(new.entries[k] == entries[n + k - kept]);
            }
        }
    }
    assert(log.commit_index <= new.last_index()) by {
        if log.commit_index >= log.first_index {
            assert(new.holds(log.commit_index as int));
        }
    }
    assert forall|index: int| log.first_index <= index <= log.commit_index implies #[trigger] new.at(
        index,
    ) == log.at(index) by {
        assert(new.holds(index));
    }
}

proof fn lemma_candidate_keeps<S: State>(
    core: Core<S>,
    role: CandidateView,
    msg: EnvelopeView,
    timeout: Ticks,
    init: S::Model,
)
    requires
        is_steady::<S>(),
        is_safe(core, init),
        core.log.last_index() <= u64::MAX,
        candidate_admits(core, role, msg),
        brings_on::<S>(msg.message),
        carries_whole_state::<S>(init, core.state, msg.message),
    ensures
        match candidate_receives(core, role, msg, timeout) {
            Ok(next) => comes_back::<S>(init, next.base().state) ==> is_safe(next.base(), init),
            Err(_) => true,
        },
{
    match candidate_receives(core, role, msg, timeout) {
        Ok(next) => {
            if let MessageView::PreCampaignResponse { vote } = msg.message {
                if vote && role.phase == ElectionPhase::PreVote && core.quorum(
                    counting(core, role, msg.from),
                ) {
                    let (started, candidate) = campaigning(core, timeout);
                    assert(started == campaigning(core, 0).0);
                    lemma_quiet(core, started, init);
                    if core.quorum(candidate.votes) {
                        lemma_won(started, init);
                    }
                } else {
                    lemma_quiet(core, next.base(), init);
                }
            } else if msg.message is PreCampaign || msg.term < core.term() {
                lemma_quiet(core, next.base(), init);
            } else if msg.term > core.term() {
                let (later, follower) = conceding(core, msg.term, timeout);
                lemma_quiet(core, later, init);
                lemma_takes_any_timeout(later, follower, msg, 0);
                lemma_follower_keeps(later, follower, msg, init);
            } else {
                let follower = new_follower(Some(msg.from), timeout);
                lemma_takes_any_timeout(core, follower, msg, 0);
                match msg.message {
                    MessageView::CampaignResponse { vote } if vote && role.phase
                        == ElectionPhase::Election && core.quorum(
                        counting(core, role, msg.from),
                    ) => lemma_won(core, init),
                    MessageView::Heartbeat { .. } => lemma_follower_keeps(
                        core,
                        follower,
                        msg,
                        init,
                    ),
                    MessageView::Append { .. } => lemma_follower_keeps(core, follower, msg, init),
                    MessageView::Read { .. } => lemma_follower_keeps(core, follower, msg, init),
                    MessageView::InstallSnapshot { .. } => lemma_follower_keeps(
                        core,
                        follower,
                        msg,
                        init,
                    ),
                    _ => lemma_quiet(core, next.base(), init),
                }
            }
        },
        Err(_) => {},
    }
}

// The laws.

/// Whatever a node is sent, a node that starts again on its log has the same state
/// again.
///
/// This is so as long as what the message adds to the log moves the state machine
/// on, a snapshot in it replaces the state, and a snapshot of the state that the
/// node comes to leads back to it.
pub proof fn steps_keep_the_state<S: State>(
    node: NodeView<S>,
    msg: EnvelopeView,
    timeout: Ticks,
    storage: std::result::Result<StatusView, ErrorView>,
    init: S::Model,
)
    requires
        is_valid(node),
        admits(node, msg),
        is_steady::<S>(),
        is_kept(node.base(), init),
        all_move_on::<S>(node.base().log.entries),
        brings_on::<S>(msg.message),
        carries_whole_state::<S>(init, node.base().state, msg.message),
    ensures
        match stepping(node, msg, timeout, storage) {
            Ok(next) => comes_back::<S>(init, next.base().state) ==> {
                &&& is_kept(next.base(), init)
                &&& all_move_on::<S>(next.base().log.entries)
            },
            Err(_) => true,
        },
{
    let core = node.base();
    match stepping(node, msg, timeout, storage) {
        Ok(next) => {
            if is_known(core, msg.from) {
                match node {
                    NodeView::Follower(core, role) => {
                        if is_prevote(msg.message) || msg.term < core.term() {
                            lemma_quiet(core, next.base(), init);
                        } else if msg.term > core.term() {
                            let (later, follower) = discovering(core, role, msg.term, timeout);
                            lemma_quiet(core, later, init);
                            lemma_takes_any_timeout(later, follower, msg, 0);
                            lemma_follower_keeps(later, follower, msg, init);
                        } else {
                            lemma_follower_keeps(core, role, msg, init);
                        }
                    },
                    NodeView::Candidate(core, role) => {
                        lemma_candidate_keeps(core, role, msg, timeout, init);
                    },
                    NodeView::Leader(core, role) => {
                        if is_prevote(msg.message) || msg.term < core.term() {
                            lemma_quiet(core, next.base(), init);
                        } else if msg.term > core.term() {
                            let (later, follower) = stepping_down(core, role, msg.term, timeout);
                            lemma_quiet(core, later, init);
                            lemma_takes_any_timeout(later, follower, msg, 0);
                            lemma_follower_keeps(later, follower, msg, init);
                        } else {
                            lemma_leader_keeps(core, role, msg, timeout, storage, init);
                        }
                    },
                }
            }
        },
        Err(_) => {},
    }
}

/// However much time passes, a node that starts again on its log has the same state
/// again.
pub proof fn ticks_keep_the_state<S: State>(node: NodeView<S>, timeout: Ticks, init: S::Model)
    requires
        is_valid(node),
        can_tick(node),
        is_kept(node.base(), init),
        all_move_on::<S>(node.base().log.entries),
    ensures
        is_kept(ticking(node, timeout).base(), init),
        all_move_on::<S>(ticking(node, timeout).base().log.entries),
{
    let core = node.base();
    let after = ticking(node, timeout).base();
    match node {
        NodeView::Follower(core, role) => {
            if role.leader_seen + 1 >= role.election_timeout {
                lemma_caught_up(core, aborting_forwarded(core, role), init);
                let ready = applying_committed(aborting_forwarded(core, role));
                lemma_quiet(ready, after, init);
            } else {
                lemma_quiet(core, after, init);
            }
        },
        _ => lemma_quiet(core, after, init),
    }
}

/// A node that starts again on its log has the state that it had. A node that is
/// alone leads at once; it applies no more than its own empty entry then.
pub proof fn restarting_restores_the_state<S: State>(
    core: Core<S>,
    init: S::Model,
    peers: Set<NodeID>,
    opts: Options,
)
    requires
        is_kept(core, init),
    ensures
        recovered::<S>(core.log, init) is Ok,
        applying_committed(
            opened::<S>(core.id, peers, core.log, recovered::<S>(core.log, init)->Ok_0, opts),
        ).state == core.state,
{
    let base = recovered::<S>(core.log, init)->Ok_0;
    let start = opened::<S>(core.id, peers, core.log, base, opts);
    lemma_apply_all::<S>(
        core.log,
        base,
        start.membership,
        core.log.slice(S::applied(base) + 1, core.log.commit_index as int),
    );
}

/// A node keeps its state from its start on.
pub proof fn started_nodes_are_kept<S: State>(
    id: NodeID,
    peers: Set<NodeID>,
    log: LogView,
    init: S::Model,
    opts: Options,
)
    requires
        is_consistent(log),
        all_move_on::<S>(log.entries),
        recovered::<S>(log, init) is Ok,
        S::applied(recovered::<S>(log, init)->Ok_0) >= log.first_index - 1,
    ensures
        is_kept(
            applying_committed(
                opened::<S>(id, peers, log, recovered::<S>(log, init)->Ok_0, opts),
            ),
            init,
        ),
{
    let base = recovered::<S>(log, init)->Ok_0;
    let start = opened::<S>(id, peers, log, base, opts);
    let low = S::applied(base) + 1;
    let high = log.commit_index as int;
    lemma_apply_all::<S>(log, base, start.membership, log.slice(low, high));
    lemma_slice_moves::<S>(log, low, high);
    lemma_replayed::<S>(base, log.slice(low, high));
}

// The library's own state machines.

/// The store comes back from its snapshots, and a snapshot replaces whatever it
/// held.
pub proof fn stores_come_back(store: Kv, init: KvView, other: KvView, data: Seq<u8>, index: Index)
    requires
        store.wf(),
        table_fits(store@.data),
    ensures
        is_steady::<Kv>(),
        comes_back::<Kv>(init, store@),
        replaces::<Kv>(init, other, data, index),
{
    snapshot_restores(store, init, store@.applied);
}

/// Entries that are empty or set a value move the store on.
pub proof fn puts_move_the_store_on(entry: EntryView)
    requires
        entry.command matches Some(command) ==> entry.membership is None && read_command(
            command,
        ) is Some && read_command(command)->0 is Put,
    ensures
        moves_on::<Kv>(entry),
{
}

/// Sessions come back from snapshots if the state machine under them does.
pub proof fn sessions_come_back<S: State>(
    init: SessionView<S::Model>,
    model: SessionView<S::Model>,
    other: SessionView<S::Model>,
    data: Seq<u8>,
    index: Index,
)
    requires
        is_steady::<S>(),
        comes_back::<S>(init.inner, model.inner),
        S::snapshotting(model.inner) matches Ok(inner) ==> inner.len() <= u64::MAX,
        sessions_fit(model.sessions),
        forall|inner: Seq<u8>| #[trigger] replaces::<S>(init.inner, other.inner, inner, index),
    ensures
        is_steady::<SessionState<S>>(),
        comes_back::<SessionState<S>>(init, model),
        replaces::<SessionState<S>>(init, other, data, index),
{
    if S::snapshotting(model.inner) is Ok {
        session_snapshot_restores::<S>(model, init, S::applied(model.inner));
    }
    if let Some((inner, _)) = read_byte_string(data) {
        assert(replaces::<S>(init.inner, other.inner, inner, index));
    }
}

/// A client's write moves the sessions on if its command moves on the state machine
/// under them.
pub proof fn session_writes_move_on<S: State>(
    entry: EntryView,
    client_id: u128,
    seq: u64,
    payload: Seq<u8>,
)
    requires
        is_steady::<S>(),
        entry.command == Some(session_command(client_id, seq, payload)),
        entry.membership is None,
        payload.len() <= u64::MAX,
        moves_on::<S>(unwrapped(entry, payload)),
    ensures
        moves_on::<SessionState<S>>(entry),
{
    session_round_trip(client_id, seq, payload);
    assert forall|model: SessionView<S::Model>| SessionState::<S>::applied(
        (#[trigger] SessionState::<S>::applying(model, entry)).0,
    ) == entry.index by {
        assert(S::applied(S::applying(model.inner, blank(entry)).0) == entry.index);
        assert(S::applied(S::applying(model.inner, unwrapped(entry, payload)).0) == entry.index);
    }
}

} // verus!
