//! What the states of a cluster's nodes have to do with what the cluster committed:
//! each is what its entries lead to, one after the other, up to the last one applied.

use vstd::prelude::*;

use super::entry::{EntryView, Index, Term};
use super::history::{decisions_agree, lemma_rooted_entries, lemma_share_at, History, Reign};
use super::history_steps::{goes_on, lemma_still_decided};
use super::ids::NodeID;
use super::log::LogView;
use super::message::{EnvelopeView, MessageView, RequestView};
use super::model::{applying_committed, Core, Led};
use super::restart::{
    all_move_on, is_steady, is_write, lemma_apply_all, lemma_led_applies, lemma_replay_twice,
    lemma_replayed, moves_on, replaces, replay,
};
use super::runtime::recovered;
use super::session::session_command;
use super::state::State;
use super::world::log_fits;
use super::world_leaders::Given;
use crate::error::ErrorView;

verus! {

/// Whether a state is what these entries lead to, which are committed.
pub open spec fn is_state_of<S: State>(
    init: S::Model,
    h: History,
    bound: Term,
    state: S::Model,
    done: Seq<EntryView>,
) -> bool {
    &&& h.is_decided(done, bound)
    &&& done.len() == S::applied(state)
    &&& state == replay::<S>(init, done)
}

/// Whether a state is what committed entries lead to.
pub open spec fn is_traced<S: State>(
    init: S::Model,
    h: History,
    bound: Term,
    state: S::Model,
) -> bool {
    exists|done: Seq<EntryView>| #[trigger] is_state_of::<S>(init, h, bound, state, done)
}

/// Whether a snapshot leads to a state that committed entries lead to, no further back
/// than its index.
pub open spec fn leads_to<S: State>(
    init: S::Model,
    h: History,
    bound: Term,
    data: Seq<u8>,
    index: Index,
) -> bool {
    S::restoring(init, data, index) matches Ok(state) && S::applied(state) >= index && is_traced::<
        S,
    >(init, h, bound, state)
}

/// Whether a message, if it is a snapshot, leads to such a state.
pub open spec fn carries<S: State>(init: S::Model, h: History, msg: EnvelopeView) -> bool {
    msg.message matches MessageView::InstallSnapshot { last_included_index, data, .. } ==> {
        &&& last_included_index > 0
        &&& leads_to::<S>(init, h, msg.term, data, last_included_index)
    }
}

/// Whether every entry of every leader moves the state machine on.
pub open spec fn moves_all<S: State>(h: History) -> bool {
    forall|term: Term| #[trigger]
        h.reigns.contains_key(term) ==> all_move_on::<S>(h.log_of(term))
}

/// Whether a snapshot of a state leads back to it, from the state that a process
/// starts with, wherever it is said to end.
pub open spec fn leads_back<S: State>(init: S::Model, state: S::Model) -> bool {
    S::snapshotting(state) matches Ok(data) ==> forall|index: Index|
        0 < index <= S::applied(state) ==> #[trigger] S::restoring(init, data, index) == Ok::<
            S::Model,
            ErrorView,
        >(state)
}

/// Whether a state machine can be followed from its first state on: entries without a
/// command move it on, a snapshot replaces whatever it held, and the snapshots of these
/// states lead back to them.
pub open spec fn is_replayable<S: State>(
    init: S::Model,
    states: Set<(NodeID, S::Model)>,
) -> bool {
    &&& S::applied(init) == 0
    &&& is_steady::<S>()
    &&& forall|model: S::Model, data: Seq<u8>, index: Index|
        index > 0 ==> #[trigger] replaces::<S>(init, model, data, index)
    &&& forall|id: NodeID, state: S::Model| #[trigger]
        states.contains((id, state)) ==> leads_back::<S>(init, state)
}

/// Whether a client's request, if it is a write, moves the state machine on.
pub open spec fn asks_on<S: State>(message: MessageView) -> bool {
    message matches MessageView::ClientRequest { request, .. } ==> match request {
        RequestView::Write(command) => is_write::<S>(command),
        RequestView::WriteSession { client_id, seq, command } => is_write::<S>(
            session_command(client_id, seq, command),
        ),
        _ => true,
    }
}

/// Whether the snapshot of a log leads to a state that committed entries lead to.
pub open spec fn is_saved<S: State>(init: S::Model, h: History, log: LogView) -> bool {
    log.first_index > 1 ==> (log.snapshot matches Some(data) && leads_to::<S>(
        init,
        h,
        log.term,
        data,
        (log.first_index - 1) as u64,
    ))
}

/// Whether what a node applied, stored and sent is what was committed, if the state
/// machine is followed.
#[verifier::opaque]
pub open spec fn traces<S: State>(given: Given<S>, h: History, core: Core<S>) -> bool {
    given.init matches Some(init) ==> {
        &&& is_replayable::<S>(init, given.states)
        &&& moves_all::<S>(h)
        &&& leads_back::<S>(init, core.state)
        &&& is_traced::<S>(init, h, core.term(), core.state)
        &&& S::applied(core.state) >= core.log.first_index - 1
        &&& is_saved::<S>(init, h, core.log)
        &&& forall|k: int|
            0 <= k < core.out.len() ==> carries::<S>(init, h, #[trigger] core.out[k])
    }
}

/// Nothing is asked where the state machine is not followed.
pub proof fn lemma_traces_nothing<S: State>(given: Given<S>, h: History, core: Core<S>)
    requires
        given.init is None,
    ensures
        traces(given, h, core),
{
    reveal(traces);
}

/// Whether a node sends more, but no more snapshots.
pub open spec fn sends_plainly(before: Seq<EnvelopeView>, after: Seq<EnvelopeView>) -> bool {
    &&& before.len() <= after.len()
    &&& forall|k: int| 0 <= k < before.len() ==> after[k] == #[trigger] before[k]
    &&& forall|k: int|
        before.len() <= k < after.len() ==> !((#[trigger] after[k]).message is InstallSnapshot)
}

/// Sending plainly twice is sending plainly.
pub proof fn lemma_plainly_twice(
    a: Seq<EnvelopeView>,
    b: Seq<EnvelopeView>,
    c: Seq<EnvelopeView>,
)
    requires
        sends_plainly(a, b),
        sends_plainly(b, c),
    ensures
        sends_plainly(a, c),
{
    assert forall|k: int| 0 <= k < a.len() implies c[k] == #[trigger] a[k] by {
        assert(b[k] == a[k]);
    }
    assert forall|k: int| a.len() <= k < c.len() implies !((
    #[trigger] c[k]).message is InstallSnapshot) by {
        if k < b.len() {
            assert(c[k] == b[k]);
        }
    }
}

/// The entries of a rooted log move the state machine on.
pub proof fn lemma_rooted_moves<S: State>(h: History, log: Seq<EntryView>)
    requires
        h.wf(),
        moves_all::<S>(h),
        h.is_rooted(log),
    ensures
        all_move_on::<S>(log),
{
    assert forall|k: int| 0 <= k < log.len() implies moves_on::<S>(#[trigger] log[k]) by {
        let term = log[k].term;
        assert(h.reigns.contains_key(term));
        lemma_share_at(log, h.log_of(term), k + 1, k);
        assert(moves_on::<S>(h.log_of(term)[k]));
    }
}

/// What was traced stays so.
pub proof fn lemma_still_traced<S: State>(
    init: S::Model,
    h: History,
    next: History,
    node: NodeID,
    bound: Term,
    longer: Term,
    state: S::Model,
)
    requires
        h.wf(),
        goes_on(h, next, node),
        is_traced::<S>(init, h, bound, state),
        bound <= longer,
    ensures
        is_traced::<S>(init, next, longer, state),
{
    let done = choose|done: Seq<EntryView>| #[trigger]
        is_state_of::<S>(init, h, bound, state, done);
    lemma_still_decided(h, next, node, done, bound, longer);
    assert(is_state_of::<S>(init, next, longer, state, done));
}

pub proof fn lemma_still_carries<S: State>(
    init: S::Model,
    h: History,
    next: History,
    node: NodeID,
    msg: EnvelopeView,
)
    requires
        h.wf(),
        goes_on(h, next, node),
        carries::<S>(init, h, msg),
    ensures
        carries::<S>(init, next, msg),
{
    if let MessageView::InstallSnapshot { last_included_index, data, .. } = msg.message {
        let state = S::restoring(init, data, last_included_index)->Ok_0;
        lemma_still_traced::<S>(init, h, next, node, msg.term, msg.term, state);
    }
}

proof fn lemma_still_saved<S: State>(
    init: S::Model,
    h: History,
    next: History,
    node: NodeID,
    before: LogView,
    after: LogView,
)
    requires
        h.wf(),
        goes_on(h, next, node),
        is_saved::<S>(init, h, before),
        after.first_index == before.first_index,
        after.snapshot == before.snapshot,
        before.term <= after.term,
    ensures
        is_saved::<S>(init, next, after),
{
    if before.first_index > 1 {
        let data = before.snapshot->Some_0;
        let state = S::restoring(init, data, (before.first_index - 1) as u64)->Ok_0;
        lemma_still_traced::<S>(init, h, next, node, before.term, after.term, state);
    }
}

/// A node that keeps its state and its snapshot, and sends no more snapshots.
pub proof fn lemma_traces_on<S: State>(
    given: Given<S>,
    h: History,
    next: History,
    node: NodeID,
    before: Core<S>,
    after: Core<S>,
)
    requires
        h.wf(),
        goes_on(h, next, node),
        traces(given, h, before),
        given.init is Some ==> moves_all::<S>(next),
        after.id == before.id,
        after.state == before.state,
        after.log.first_index == before.log.first_index,
        after.log.snapshot == before.log.snapshot,
        before.term() <= after.term(),
        sends_plainly(before.out, after.out),
    ensures
        traces(given, next, after),
{
    reveal(traces);
    if let Some(init) = given.init {
        lemma_still_traced::<S>(init, h, next, node, before.term(), after.term(), before.state);
        lemma_still_saved::<S>(init, h, next, node, before.log, after.log);
        assert forall|k: int| 0 <= k < after.out.len() implies carries::<S>(
            init,
            next,
            #[trigger] after.out[k],
        ) by {
            if k < before.out.len() {
                assert(after.out[k] == before.out[k]);
                lemma_still_carries::<S>(init, h, next, node, before.out[k]);
            }
        }
    }
}

/// The entries between what was applied and what is committed lead on to a state that
/// committed entries lead to.
pub proof fn lemma_traced_further<S: State>(
    init: S::Model,
    h: History,
    node: NodeID,
    log: LogView,
    state: S::Model,
)
    requires
        h.wf(),
        log_fits(h, node, log),
        moves_all::<S>(h),
        is_traced::<S>(init, h, log.term, state),
        S::applied(state) >= log.first_index - 1,
    ensures
        ({
            let entries = log.slice(S::applied(state) + 1, log.commit_index as int);
            let after = replay::<S>(state, entries);
            &&& all_move_on::<S>(entries)
            &&& is_traced::<S>(init, h, log.term, after)
            &&& S::applied(after) >= log.first_index - 1
            &&& S::applied(after) >= log.commit_index
        }),
{
    let done = choose|done: Seq<EntryView>| #[trigger]
        is_state_of::<S>(init, h, log.term, state, done);
    let whole = h.logs[node];
    let applied = S::applied(state) as int;
    let commit = log.commit_index as int;
    let entries = log.slice(applied + 1, commit);
    let after = replay::<S>(state, entries);
    lemma_rooted_moves::<S>(h, whole);
    if applied >= commit {
        assert(entries =~= seq![]);
        assert(after == state);
    } else {
        let decided = whole.take(commit);
        decisions_agree(h, done, decided, applied);
        assert(done.take(applied) =~= done);
        assert(entries =~= whole.subrange(applied, commit));
        assert(decided =~= done + entries);
        lemma_replay_twice::<S>(init, done, entries);
        lemma_rooted_entries(h, whole);
        assert forall|k: int| 0 <= k < entries.len() implies moves_on::<S>(#[trigger] entries[k]) by {
            assert(entries[k] == whole[applied + k]);
        }
        lemma_replayed::<S>(state, entries);
        assert(entries.last() == whole[commit - 1]);
        assert(is_state_of::<S>(init, h, log.term, after, decided));
    }
}

/// A node that applies what is committed.
pub proof fn lemma_traces_applied<S: State>(
    given: Given<S>,
    h: History,
    before: Core<S>,
    after: Core<S>,
)
    requires
        h.wf(),
        traces(given, h, before),
        log_fits(h, before.id, before.log),
        after.id == before.id,
        after.log == before.log,
        after.state == replay::<S>(
            before.state,
            before.log.slice(before.applied() + 1, before.log.commit_index as int),
        ),
        given.init matches Some(init) ==> given.states.contains((after.id, after.state))
            || leads_back::<S>(init, after.state),
        sends_plainly(before.out, after.out),
    ensures
        traces(given, h, after),
{
    reveal(traces);
    if let Some(init) = given.init {
        lemma_traced_further::<S>(init, h, before.id, before.log, before.state);
        assert forall|k: int| 0 <= k < after.out.len() implies carries::<S>(
            init,
            h,
            #[trigger] after.out[k],
        ) by {
            if k < before.out.len() {
                assert(after.out[k] == before.out[k]);
            }
        }
    }
}

/// A node that keeps its state and its snapshot, while no leader appends.
pub proof fn lemma_traces_after<S: State>(
    given: Given<S>,
    h: History,
    next: History,
    before: Core<S>,
    after: Core<S>,
)
    requires
        h.wf(),
        goes_on(h, next, before.id),
        traces(given, h, before),
        next.reigns == h.reigns,
        after.id == before.id,
        after.state == before.state,
        after.log.first_index == before.log.first_index,
        after.log.snapshot == before.log.snapshot,
        before.term() <= after.term(),
        sends_plainly(before.out, after.out),
    ensures
        traces(given, next, after),
{
    lemma_moves_same(given, h, next, before);
    lemma_traces_on(given, h, next, before.id, before, after);
}

/// A node that catches up with what is committed.
pub proof fn lemma_traces_catching_up<S: State>(given: Given<S>, h: History, core: Core<S>)
    requires
        h.wf(),
        traces(given, h, core),
        log_fits(h, core.id, core.log),
        given.init matches Some(init) ==> {
            let state = applying_committed(core).state;
            given.states.contains((core.id, state)) || leads_back::<S>(init, state)
        },
    ensures
        traces(given, h, applying_committed(core)),
{
    let entries = core.log.slice(core.applied() + 1, core.log.commit_index as int);
    lemma_apply_all::<S>(core.log, core.state, core.membership, entries);
    lemma_traces_applied(given, h, core, applying_committed(core));
}

/// A node that opens the log that it has, with the state that its snapshot leads to,
/// and catches up.
pub proof fn lemma_traces_opened<S: State>(
    given: Given<S>,
    h: History,
    before: Core<S>,
    opened: Core<S>,
)
    requires
        h.wf(),
        traces(given, h, before),
        log_fits(h, before.id, before.log),
        opened.id == before.id,
        opened.log == before.log,
        opened.out == Seq::<EnvelopeView>::empty(),
        given.init matches Some(init) ==> {
            &&& recovered::<S>(opened.log, init) == Ok::<S::Model, ErrorView>(opened.state)
            &&& leads_back::<S>(init, applying_committed(opened).state)
        },
    ensures
        traces(given, h, applying_committed(opened)),
        given.init is Some ==> applying_committed(opened).applied() >= opened.log.commit_index,
{
    reveal(traces);
    if let Some(init) = given.init {
        let log = opened.log;
        let entries = log.slice(opened.applied() + 1, log.commit_index as int);
        lemma_apply_all::<S>(opened.log, opened.state, opened.membership, entries);
        if log.first_index == 1 {
            let none = Seq::<EntryView>::empty();
            assert(is_state_of::<S>(init, h, log.term, init, none));
        }
        lemma_traced_further::<S>(init, h, opened.id, log, opened.state);
    }
}

/// What a node sent is on its way.
pub proof fn lemma_traces_silenced<S: State>(
    given: Given<S>,
    sent: Set<EnvelopeView>,
    h: History,
    core: Core<S>,
    silenced: Core<S>,
)
    requires
        traces(given, h, core),
        silenced == (Core { out: seq![], ..core }),
    ensures
        traces(Given { sent, ..given }, h, silenced),
        given.init matches Some(init) ==> {
            &&& moves_all::<S>(h)
            &&& forall|k: int|
                0 <= k < core.out.len() ==> carries::<S>(init, h, #[trigger] core.out[k])
        },
{
    reveal(traces);
}

/// A node that did nothing, when another one moved.
pub proof fn lemma_others_still_trace<S: State>(
    given: Given<S>,
    sent: Set<EnvelopeView>,
    h: History,
    next: History,
    mover: NodeID,
    core: Core<S>,
)
    requires
        h.wf(),
        goes_on(h, next, mover),
        traces(given, h, core),
        given.init is Some ==> moves_all::<S>(next),
    ensures
        traces(Given { sent, ..given }, next, core),
{
    lemma_traces_on(given, h, next, mover, core, core);
    reveal(traces);
}

/// A new node, whose log is empty.
pub proof fn lemma_traces_new<S: State>(given: Given<S>, h: History, core: Core<S>)
    requires
        given.init matches Some(init) ==> {
            &&& is_replayable::<S>(init, given.states)
            &&& given.states.contains((core.id, core.state))
            &&& core.state == init
        },
        h.reigns == Map::<Term, Reign>::empty(),
        core.log.first_index == 1,
        core.out == Seq::<EnvelopeView>::empty(),
    ensures
        traces(given, h, core),
{
    reveal(traces);
    if let Some(init) = given.init {
        assert(is_state_of::<S>(init, h, core.term(), init, seq![]));
    }
}

/// A follower that installed a snapshot.
pub proof fn lemma_traces_installed<S: State>(
    given: Given<S>,
    h: History,
    next: History,
    before: Core<S>,
    msg: EnvelopeView,
    after: Core<S>,
)
    requires
        h.wf(),
        goes_on(h, next, before.id),
        traces(given, h, before),
        next.reigns == h.reigns,
        given.init matches Some(init) ==> carries::<S>(init, h, msg),
        msg.term == before.term(),
        msg.message matches MessageView::InstallSnapshot { last_included_index, data, .. } && {
            &&& S::restoring(before.state, data, last_included_index) == Ok::<S::Model, ErrorView>(
                after.state,
            )
            &&& after.log.snapshot == Some(data)
            &&& after.log.first_index == last_included_index + 1
        },
        after.id == before.id,
        after.term() == before.term(),
        given.init is Some ==> given.states.contains((after.id, after.state)),
        sends_plainly(before.out, after.out),
    ensures
        traces(given, next, after),
{
    reveal(traces);
    lemma_moves_same(given, h, next, before);
    if let Some(init) = given.init {
        lemma_still_carries::<S>(init, h, next, before.id, msg);
        match msg.message {
            MessageView::InstallSnapshot { last_included_index, data, .. } => {
                assert(replaces::<S>(init, before.state, data, last_included_index));
            },
            _ => {},
        }
        assert forall|k: int| 0 <= k < after.out.len() implies carries::<S>(
            init,
            next,
            #[trigger] after.out[k],
        ) by {
            if k < before.out.len() {
                assert(after.out[k] == before.out[k]);
                lemma_still_carries::<S>(init, h, next, before.id, before.out[k]);
            }
        }
    }
}

/// What a leader applies, its state machine takes one entry after the other.
pub proof fn lemma_traces_replayed<S: State>(given: Given<S>, h: History, led: Led<S>)
    requires
        h.wf(),
        traces(given, h, led.core),
        log_fits(h, led.core.id, led.core.log),
    ensures
        given.init is Some ==> ({
            let entries = led.core.log.slice(
                led.core.applied() + 1,
                led.core.log.commit_index as int,
            );
            led.applying_all(entries).core.state == replay::<S>(led.core.state, entries)
        }),
{
    reveal(traces);
    if let Some(init) = given.init {
        let entries = led.core.log.slice(led.core.applied() + 1, led.core.log.commit_index as int);
        lemma_traced_further::<S>(init, h, led.core.id, led.core.log, led.core.state);
        lemma_led_applies(led, entries);
    }
}

/// A leader that takes a snapshot.
pub proof fn lemma_traces_snapshotting<S: State>(given: Given<S>, h: History, led: Led<S>)
    requires
        h.wf(),
        traces(given, h, led.core),
        led.core.applied() <= led.core.log.commit_index || !led.is_snapshot_due(),
        led.core.log.first_index >= 1,
        led.core.log.last_index() < u64::MAX,
        led.core.log.commit_index <= led.core.log.last_index(),
    ensures
        traces(given, h, led.snapshotting().core),
{
    reveal(traces);
    if let Some(init) = given.init {
        let after = led.snapshotting();
        if after.core.log != led.core.log {
            let index = led.core.applied();
            let data = S::snapshotting(led.core.state)->Ok_0;
            assert(led.is_snapshot_due());
            assert(leads_back::<S>(init, led.core.state));
            assert(S::restoring(init, data, index) == Ok::<S::Model, ErrorView>(led.core.state));
            let log = after.core.log;
            assert(log.snapshot == Some(data));
            if log.first_index != led.core.log.first_index {
                assert(log.first_index == index + 1);
            }
        }
    }
}

/// A leader that sends its snapshot.
pub proof fn lemma_carries<S: State>(
    given: Given<S>,
    h: History,
    core: Core<S>,
    data: Seq<u8>,
    msg: EnvelopeView,
)
    requires
        traces(given, h, core),
        core.log.first_index > 1,
        S::snapshotting(core.state) == Ok::<Seq<u8>, ErrorView>(data),
        msg.term == core.term(),
        msg.message matches MessageView::InstallSnapshot {
            last_included_index,
            data: sent,
            ..
        } && last_included_index == core.log.first_index - 1 && sent == data,
    ensures
        given.init matches Some(init) ==> carries::<S>(init, h, msg),
{
    reveal(traces);
    if let Some(init) = given.init {
        assert(leads_back::<S>(init, core.state));
        let index = (core.log.first_index - 1) as u64;
        assert(S::restoring(init, data, index) == Ok::<S::Model, ErrorView>(core.state));
    }
}

/// A node that sends one more message.
pub proof fn lemma_traces_sending<S: State>(
    given: Given<S>,
    h: History,
    before: Core<S>,
    after: Core<S>,
    msg: EnvelopeView,
)
    requires
        traces(given, h, before),
        after == (Core { out: before.out.push(msg), ..before }),
        given.init matches Some(init) ==> carries::<S>(init, h, msg),
    ensures
        traces(given, h, after),
{
    reveal(traces);
    if let Some(init) = given.init {
        assert forall|k: int| 0 <= k < after.out.len() implies carries::<S>(
            init,
            h,
            #[trigger] after.out[k],
        ) by {
            if k < before.out.len() {
                assert(after.out[k] == before.out[k]);
            }
        }
    }
}

/// Every entry still moves the state machine on when no leader appended one.
pub proof fn lemma_moves_same<S: State>(given: Given<S>, h: History, next: History, core: Core<S>)
    requires
        traces(given, h, core),
        next.reigns == h.reigns,
    ensures
        given.init is Some ==> moves_all::<S>(next),
{
    reveal(traces);
    if given.init is Some {
        assert forall|term: Term| #[trigger] next.reigns.contains_key(term) implies all_move_on::<
            S,
        >(next.log_of(term)) by {
            assert(h.reigns.contains_key(term));
        }
    }
}

/// Every entry still moves the state machine on when a leader appended one that does.
pub proof fn lemma_moves_more<S: State>(
    given: Given<S>,
    h: History,
    next: History,
    core: Core<S>,
    term: Term,
    entry: EntryView,
)
    requires
        h.wf(),
        traces(given, h, core),
        next.reigns.contains_key(term),
        forall|t: Term| #[trigger]
            next.reigns.contains_key(t) && t != term ==> h.reigns.contains_key(t)
                && next.log_of(t) == h.log_of(t),
        next.log_of(term) == h.logs[core.id].push(entry),
        h.is_rooted(h.logs[core.id]),
        given.init is Some && entry.command is Some ==> entry.membership is None && is_write::<S>(
            entry.command->Some_0,
        ),
    ensures
        given.init is Some ==> moves_all::<S>(next),
{
    reveal(traces);
    if given.init is Some {
        let whole = h.logs[core.id];
        lemma_rooted_moves::<S>(h, whole);
        assert(moves_on::<S>(entry)) by {
            if entry.command is None {
                assert forall|model: S::Model|
                    S::applied((#[trigger] S::applying(model, entry)).0) == entry.index by {
                }
            }
        }
        assert forall|t: Term| #[trigger] next.reigns.contains_key(t) implies all_move_on::<S>(
            next.log_of(t),
        ) by {
            if t == term {
                let log = next.log_of(t);
                assert forall|k: int| 0 <= k < log.len() implies moves_on::<S>(
                    #[trigger] log[k],
                ) by {
                    if k < whole.len() {
                        assert(log[k] == whole[k]);
                    }
                }
            }
        }
    }
}

} // verus!
