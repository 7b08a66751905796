//! What clients can rely on: where their requests go, and what is answered.

use vstd::prelude::*;

use super::election_laws::{
    goes_to_all, is_more_than_half, lemma_goes_to_all, lemma_replicated, newest_to,
    quorums_are_more_than_half, Storage,
};
use super::entry::{EntryView, Index};
use super::ids::{ascending, lemma_ascending, NodeID};
use super::laws::reads_are_confirmed;
use super::leader::lemma_reading;
use super::log::LogView;
use super::log_laws::is_consistent;
use super::membership::MembershipView;
use super::message::{EnvelopeView, MessageView, ReadSequence, RequestID, RequestView, ResponseView};
use super::model::{
    by_id, increasing_indexes, indexes_in_order, insert_by_id, requests_in_order, stepping,
    waiting_reads, waiting_writes, Core, FollowerView, LeaderView, Led, NodeView, ReadView, Ticks,
    Write,
};
use super::order::lemma_requests_in_order;
use super::replication_laws::{
    answer_to, answering_client, client_of, lemma_commits_apply, lemma_committed, lemma_state_after,
    state_after,
};
use super::session::{read_session, session_command, session_round_trip, SessionCommandView};
use super::state::State;
use crate::error::ErrorView;
use crate::storage::engine::StatusView as StorageStatusView;

verus! {

// Followers and candidates.

/// A follower hands the request of a client of its own to its leader, as it is, and keeps
/// it in mind. Without a leader, and if it comes from another node, the request is aborted.
#[verifier::rlimit(40)]
pub proof fn requests_go_to_the_leader<S: State>(
    core: Core<S>,
    role: FollowerView,
    msg: EnvelopeView,
    id: RequestID,
    request: RequestView,
    timeout: Ticks,
    storage: Storage,
)
    requires
        msg.from == core.id || core.voters().contains(msg.from),
        msg.term == core.term(),
        role.leader != Some(msg.from),
        msg.message == (MessageView::ClientRequest { id, request }),
    ensures
        ({
            let r = stepping(NodeView::Follower(core, role), msg, timeout, storage);
            &&& r matches Ok(NodeView::Follower(next, after))
            &&& next == (Core { out: next.out, ..core })
            &&& msg.from == core.id && role.leader is Some ==> {
                &&& next.out == core.out.push(
                    EnvelopeView {
                        from: core.id,
                        term: core.term(),
                        to: role.leader->0,
                        message: MessageView::ClientRequest { id, request },
                    },
                )
                &&& after == (FollowerView { forwarded: role.forwarded.insert(id), ..role })
            }
            &&& !(msg.from == core.id && role.leader is Some) ==> {
                &&& next.out == core.out.push(
                    EnvelopeView {
                        from: core.id,
                        term: core.term(),
                        to: msg.from,
                        message: MessageView::ClientResponse { id, response: Err(ErrorView::Abort) },
                    },
                )
                &&& after == role
            }
        }),
{
}

/// A follower hands its leader's answer to a request that it handed on to its own client,
/// once, as it is. Other answers are dropped.
#[verifier::rlimit(40)]
pub proof fn answers_come_back<S: State>(
    core: Core<S>,
    role: FollowerView,
    msg: EnvelopeView,
    id: RequestID,
    response: std::result::Result<ResponseView, ErrorView>,
    timeout: Ticks,
    storage: Storage,
)
    requires
        msg.from == core.id || core.voters().contains(msg.from),
        msg.term == core.term(),
        msg.message == (MessageView::ClientResponse { id, response }),
    ensures
        ({
            let awaited = role.leader == Some(msg.from) && role.forwarded.contains(id);
            let r = stepping(NodeView::Follower(core, role), msg, timeout, storage);
            &&& r matches Ok(NodeView::Follower(next, after))
            &&& next == (Core { out: next.out, ..core })
            &&& awaited ==> next.out == core.out.push(
                EnvelopeView {
                    from: core.id,
                    term: core.term(),
                    to: core.id,
                    message: MessageView::ClientResponse { id, response },
                },
            )
            &&& !awaited ==> next.out == core.out
            &&& after.forwarded == if awaited {
                role.forwarded.remove(id)
            } else {
                role.forwarded
            }
            &&& after.leader == role.leader
        }),
{
}

/// A candidate aborts every request.
#[verifier::rlimit(40)]
pub proof fn candidates_abort_requests<S: State>(
    node: NodeView<S>,
    msg: EnvelopeView,
    id: RequestID,
    request: RequestView,
    timeout: Ticks,
    storage: Storage,
)
    requires
        node is Candidate,
        msg.from == node.base().id || node.base().voters().contains(msg.from),
        msg.term == node.base().term(),
        msg.message == (MessageView::ClientRequest { id, request }),
    ensures
        ({
            &&& stepping(node, msg, timeout, storage) matches Ok(next)
            &&& next.silenced() == node.silenced()
            &&& next.base().out == node.base().out.push(
                EnvelopeView {
                    from: node.base().id,
                    term: node.base().term(),
                    to: msg.from,
                    message: MessageView::ClientResponse { id, response: Err(ErrorView::Abort) },
                },
            )
        }),
{
}

// Nobody waits in vain.

/// The message that aborts a client's request.
pub open spec fn aborts<S: State>(core: Core<S>, term: u64, to: NodeID, id: RequestID) -> EnvelopeView {
    EnvelopeView {
        from: core.id,
        term,
        to,
        message: MessageView::ClientResponse { id, response: Err(ErrorView::Abort) },
    }
}

proof fn lemma_inserted_by_id(
    sorted: Seq<(RequestID, NodeID)>,
    request: (RequestID, NodeID),
    one: (RequestID, NodeID),
)
    ensures
        insert_by_id(sorted, request).contains(one) <==> sorted.contains(one) || one == request,
        insert_by_id(sorted, request).len() == sorted.len() + 1,
    decreases sorted.len(),
{
    let all = insert_by_id(sorted, request);
    if sorted.len() == 0 || sorted.last().0 <= request.0 {
        assert(all[sorted.len() as int] == request);
        if sorted.contains(one) {
            let k = choose|k: int| 0 <= k < sorted.len() && sorted[k] == one;
            assert(all[k] == one);
        }
    } else {
        let front = sorted.drop_last();
        let rest = insert_by_id(front, request);
        lemma_inserted_by_id(front, request, one);
        assert(all[rest.len() as int] == sorted.last());
        if rest.contains(one) {
            let k = choose|k: int| 0 <= k < rest.len() && rest[k] == one;
            assert(all[k] == one);
        }
        if front.contains(one) {
            let k = choose|k: int| 0 <= k < front.len() && front[k] == one;
            assert(sorted[k] == one);
        }
        if sorted.contains(one) {
            let k = choose|k: int| 0 <= k < sorted.len() && sorted[k] == one;
            if k < front.len() {
                assert(front[k] == one);
            }
        }
        if sorted.last() == one {
            assert(sorted[sorted.len() - 1] == one);
        }
        if all.contains(one) {
            let k = choose|k: int| 0 <= k < all.len() && all[k] == one;
            if k < rest.len() {
                assert(rest[k] == one);
            }
        }
    }
}

proof fn lemma_by_id(requests: Seq<(RequestID, NodeID)>, one: (RequestID, NodeID))
    ensures
        by_id(requests).contains(one) <==> requests.contains(one),
        by_id(requests).len() == requests.len(),
    decreases requests.len(),
{
    if requests.len() > 0 {
        let front = requests.drop_last();
        lemma_by_id(front, one);
        lemma_inserted_by_id(by_id(front), requests.last(), one);
        if front.contains(one) {
            let k = choose|k: int| 0 <= k < front.len() && front[k] == one;
            assert(requests[k] == one);
        }
        if requests.contains(one) {
            let k = choose|k: int| 0 <= k < requests.len() && requests[k] == one;
            if k < front.len() {
                assert(front[k] == one);
            }
        }
        if requests.last() == one {
            assert(requests[requests.len() - 1] == one);
        }
    }
}

proof fn lemma_indexes_below(indexes: Set<Index>, bound: int) -> (r: Seq<Index>)
    requires
        0 <= bound <= u64::MAX + 1,
        forall|index: Index| #[trigger] indexes.contains(index) ==> index < bound,
    ensures
        increasing_indexes(r),
        r.to_set() == indexes,
        forall|k: int| 0 <= k < r.len() ==> #[trigger] r[k] < bound,
    decreases bound,
{
    if bound == 0 {
        assert(Seq::<Index>::empty().to_set() =~= indexes);
        seq![]
    } else {
        let last = (bound - 1) as u64;
        if indexes.contains(last) {
            let rest = lemma_indexes_below(indexes.remove(last), bound - 1);
            let r = rest.push(last);
            assert forall|index: Index| #[trigger] r.to_set().contains(index)
                == indexes.contains(index) by {
                if r.contains(index) {
                    let k = choose|k: int| 0 <= k < r.len() && r[k] == index;
                    if k < rest.len() {
                        assert(rest.to_set().contains(rest[k]));
                    }
                }
                if indexes.contains(index) {
                    if index == last {
                        assert(r[rest.len() as int] == last);
                    } else {
                        assert(rest.to_set().contains(index));
                        let k = choose|k: int| 0 <= k < rest.len() && rest[k] == index;
                        assert(r[k] == index);
                    }
                }
            }
            assert(r.to_set() =~= indexes);
            r
        } else {
            lemma_indexes_below(indexes, bound - 1)
        }
    }
}

proof fn lemma_waiting(writes: Map<Index, Write>, index: Index)
    requires
        writes.contains_key(index),
    ensures
        waiting_writes(writes).contains((writes[index].id, writes[index].from)),
{
    let some = lemma_indexes_below(writes.dom(), u64::MAX + 1);
    assert(increasing_indexes(some) && some.to_set() == writes.dom());
    let indexes = indexes_in_order(writes.dom());
    assert(indexes.to_set().contains(index));
    let k = choose|k: int| 0 <= k < indexes.len() && indexes[k] == index;
    assert(waiting_writes(writes)[k] == (writes[index].id, writes[index].from));
}

proof fn lemma_aborted<S: State>(
    core: Core<S>,
    requests: Seq<(RequestID, NodeID)>,
    one: (RequestID, NodeID),
)
    requires
        requests.contains(one),
    ensures
        core.aborting(requests).out.contains(aborts(core, core.log.term, one.1, one.0)),
{
    let k = choose|k: int| 0 <= k < requests.len() && requests[k] == one;
    assert(core.aborting(requests).out[core.out.len() + k] == aborts(
        core,
        core.log.term,
        one.1,
        one.0,
    ));
}

proof fn lemma_out_kept<S: State>(
    core: Core<S>,
    requests: Seq<(RequestID, NodeID)>,
    msg: EnvelopeView,
)
    requires
        core.out.contains(msg),
    ensures
        core.aborting(requests).out.contains(msg),
{
    let k = choose|k: int| 0 <= k < core.out.len() && core.out[k] == msg;
    assert(core.aborting(requests).out[k] == msg);
}

/// A leader that gives up its office aborts every write, every membership change and every
/// read that waits, each to the client that asked. It does so when it hears of a later
/// term, by whatever message.
#[verifier::rlimit(40)]
pub proof fn waiting_requests_are_aborted<S: State>(
    core: Core<S>,
    role: LeaderView,
    msg: EnvelopeView,
    timeout: Ticks,
    storage: Storage,
)
    requires
        core.voters().contains(msg.from),
        msg.term > core.term(),
        msg.message is CampaignResponse || msg.message is Read || msg.message is Campaign,
    ensures
        ({
            &&& stepping(NodeView::Leader(core, role), msg, timeout, storage) matches Ok(
                NodeView::Follower(next, after),
            )
            &&& next.log.term == msg.term
            &&& next.log.entries == core.log.entries
            &&& next.state == core.state
            &&& forall|index: Index|
                role.writes.contains_key(index) ==> next.out.contains(
                    aborts(
                        core,
                        msg.term,
                        (#[trigger] role.writes[index]).from,
                        role.writes[index].id,
                    ),
                )
            &&& forall|index: Index|
                role.membership_writes.contains_key(index) ==> next.out.contains(
                    aborts(
                        core,
                        msg.term,
                        (#[trigger] role.membership_writes[index]).from,
                        role.membership_writes[index].id,
                    ),
                )
            &&& forall|k: int|
                0 <= k < role.reads.len() ==> next.out.contains(
                    aborts(core, msg.term, (#[trigger] role.reads[k]).from, role.reads[k].id),
                )
        }),
{
    let raised = Core {
        log: LogView { term: msg.term, vote: None, ..core.log },
        ..core
    };
    let writes = by_id(waiting_writes(role.writes));
    let changes = by_id(waiting_writes(role.membership_writes));
    let reads = by_id(waiting_reads(role.reads));
    let once = raised.aborting(writes);
    let twice = once.aborting(changes);
    let left = twice.aborting(reads);
    let next = stepping(NodeView::Leader(core, role), msg, timeout, storage)->Ok_0.base();
    assert forall|one: EnvelopeView| #[trigger] left.out.contains(one) implies next.out.contains(
        one,
    ) by {
        let k = choose|k: int| 0 <= k < left.out.len() && left.out[k] == one;
        assert(next.out[k] == one);
    }
    assert forall|index: Index| role.writes.contains_key(index) implies next.out.contains(
        aborts(core, msg.term, (#[trigger] role.writes[index]).from, role.writes[index].id),
    ) by {
        let write = role.writes[index];
        let one = aborts(core, msg.term, write.from, write.id);
        lemma_waiting(role.writes, index);
        lemma_by_id(waiting_writes(role.writes), (write.id, write.from));
        lemma_aborted(raised, writes, (write.id, write.from));
        lemma_out_kept(once, changes, one);
        lemma_out_kept(twice, reads, one);
        assert(left.out.contains(one));
    }
    assert forall|index: Index| role.membership_writes.contains_key(index) implies next.out.contains(
        aborts(
            core,
            msg.term,
            (#[trigger] role.membership_writes[index]).from,
            role.membership_writes[index].id,
        ),
    ) by {
        let write = role.membership_writes[index];
        let one = aborts(core, msg.term, write.from, write.id);
        lemma_waiting(role.membership_writes, index);
        lemma_by_id(waiting_writes(role.membership_writes), (write.id, write.from));
        lemma_aborted(once, changes, (write.id, write.from));
        lemma_out_kept(twice, reads, one);
        assert(left.out.contains(one));
    }
    assert forall|k: int| 0 <= k < role.reads.len() implies next.out.contains(
        aborts(core, msg.term, (#[trigger] role.reads[k]).from, role.reads[k].id),
    ) by {
        let read = role.reads[k];
        let one = aborts(core, msg.term, read.from, read.id);
        assert(waiting_reads(role.reads)[k] == (read.id, read.from));
        lemma_by_id(waiting_reads(role.reads), (read.id, read.from));
        lemma_aborted(twice, reads, (read.id, read.from));
        assert(left.out.contains(one));
    }
}

/// A follower that hears of a later term aborts every request that it handed on.
#[verifier::rlimit(40)]
pub proof fn forwarded_requests_are_aborted<S: State>(
    core: Core<S>,
    role: FollowerView,
    msg: EnvelopeView,
    id: RequestID,
    timeout: Ticks,
    storage: Storage,
)
    requires
        core.voters().contains(msg.from),
        msg.term > core.term(),
        msg.message is CampaignResponse || msg.message is Read || msg.message is Campaign,
        role.forwarded.contains(id),
    ensures
        ({
            &&& stepping(NodeView::Follower(core, role), msg, timeout, storage) matches Ok(
                NodeView::Follower(next, after),
            )
            &&& next.log.term == msg.term
            &&& after.forwarded == Set::<RequestID>::empty()
            &&& next.out.contains(aborts(core, core.term(), core.id, id))
        }),
{
    lemma_requests_in_order(role.forwarded);
    let ids = requests_in_order(role.forwarded);
    let requests = ids.map_values(|id: RequestID| (id, core.id));
    assert(ids.to_set().contains(id));
    let k = choose|k: int| 0 <= k < ids.len() && ids[k] == id;
    assert(requests[k] == (id, core.id));
    lemma_aborted(core, requests, (id, core.id));
    let left = core.aborting(requests);
    let one = aborts(core, core.term(), core.id, id);
    let j = choose|j: int| 0 <= j < left.out.len() && left.out[j] == one;
    let next = stepping(NodeView::Follower(core, role), msg, timeout, storage)->Ok_0.base();
    assert(next.out[j] == one);
}

// Leaders.

/// The command that a client's write puts into the log: its own, or one from which the
/// client, the number and the command of a numbered write are read back.
pub open spec fn is_written_as(request: RequestView, command: Seq<u8>) -> bool {
    match request {
        RequestView::Write(own) => command == own,
        RequestView::WriteSession { client_id, seq, command: own } => own.len() <= u64::MAX
            && read_session(command) == Some(SessionCommandView { client_id, seq, payload: own }),
        _ => false,
    }
}

/// Whether a leader keeps track of all its peers.
pub open spec fn tracks_all<S: State>(core: Core<S>, role: LeaderView) -> bool {
    forall|peer: NodeID| #[trigger]
        core.peers().contains(peer) ==> role.progress.contains_key(peer)
            && role.progress[peer].match_index < role.progress[peer].next_index
}

/// A leader of others puts a client's write at the end of its log, in its term, and sends it
/// to the peers that have everything before it. The client waits for it, and it is neither
/// committed nor applied before others have it.
#[verifier::rlimit(40)]
#[verifier::spinoff_prover]
pub proof fn writes_enter_the_log<S: State>(
    core: Core<S>,
    role: LeaderView,
    msg: EnvelopeView,
    id: RequestID,
    request: RequestView,
    timeout: Ticks,
    storage: Storage,
)
    requires
        is_consistent(core.log),
        core.log.last_index() + 1 < u64::MAX,
        core.opts.max_append_entries > 0,
        core.voters().len() != 1,
        tracks_all(core, role),
        msg.from == core.id || core.voters().contains(msg.from),
        msg.term == core.term(),
        msg.message == (MessageView::ClientRequest { id, request }),
        request is Write || (request matches RequestView::WriteSession { command, .. }
            && command.len() <= u64::MAX),
    ensures
        ({
            let index = (core.log.last_index() + 1) as u64;
            let r = stepping(NodeView::Leader(core, role), msg, timeout, storage);
            &&& r matches Ok(NodeView::Leader(next, led))
            &&& next.log.entries.len() == core.log.entries.len() + 1
            &&& next.log.entries.drop_last() == core.log.entries
            &&& next.log.entries.last() == (EntryView {
                index,
                term: core.term(),
                command: next.log.entries.last().command,
                membership: None,
            })
            &&& next.log.entries.last().command matches Some(command) && is_written_as(
                request,
                command,
            )
            &&& next.log.commit_index == core.log.commit_index
            &&& next.log.term == core.log.term
            &&& next.state == core.state
            &&& next.membership == core.membership
            &&& led.writes == role.writes.insert(index, Write { from: msg.from, id })
            &&& led.reads == role.reads
            &&& led.membership_writes == role.membership_writes
            &&& forall|peer: NodeID| #[trigger]
                core.peers().contains(peer) && role.progress[peer].next_index == index ==> {
                    &&& next.out.contains(newest_to(next, peer, index))
                    &&& led.progress[peer].next_index == index + 1
                }
            &&& forall|k: int|
                core.out.len() <= k < next.out.len() ==> next.out[k] == newest_to(
                    next,
                    (#[trigger] next.out[k]).to,
                    index,
                )
        }),
{
    let index = (core.log.last_index() + 1) as u64;
    let command = match request {
        RequestView::Write(command) => command,
        RequestView::WriteSession { client_id, seq, command } => {
            session_round_trip(client_id, seq, command);
            session_command(client_id, seq, command)
        },
        _ => seq![],
    };
    let start = Led { core, role, failed: None };
    let appended = Led {
        core: Core { log: core.log.appending(Some(command), None), ..core },
        ..start
    };
    let peers = ascending(core.peers());
    lemma_ascending(core.peers());
    assert(is_consistent(appended.core.log));
    assert forall|k: int| 0 <= k < peers.len() implies appended.role.progress.contains_key(
        #[trigger] peers[k],
    ) && appended.role.progress[peers[k]].match_index
        < appended.role.progress[peers[k]].next_index by {
        assert(peers.to_set().contains(peers[k]));
        assert(core.peers().contains(peers[k]));
    }
    lemma_replicated(appended, peers, index);
    let led = start.proposing(Some(command));
    assert(led == appended.replicating(peers, index));
    assert(led.core.log.entries.drop_last() =~= core.log.entries);
    let next = led.awaiting(Write { from: msg.from, id }).0;
    assert(next.core == led.core);
    assert forall|peer: NodeID| #[trigger]
        core.peers().contains(peer) && role.progress[peer].next_index == index implies {
        &&& next.core.out.contains(newest_to(next.core, peer, index))
        &&& next.role.progress[peer].next_index == index + 1
    } by {
        assert(peers.to_set().contains(peer));
        let j = choose|j: int| 0 <= j < peers.len() && peers[j] == peer;
        assert(appended.role.progress[peers[j]].next_index == index);
        let k = choose|k: int|
            appended.core.out.len() <= k < led.core.out.len() && #[trigger] led.core.out[k]
                == newest_to(appended.core, peers[j], index);
        assert(next.core.out[k] == newest_to(next.core, peer, index));
        assert(led.role.progress.contains_key(peer));
        assert(led.role.progress[peer].next_index == index + 1);
    }
    assert forall|k: int| core.out.len() <= k < next.core.out.len() implies next.core.out[k]
        == newest_to(next.core, (#[trigger] next.core.out[k]).to, index) by {
        assert(led.core.out[k] == newest_to(appended.core, led.core.out[k].to, index));
    }
}

/// A leader of others puts a client's read at the end of those that wait, with the next
/// number, and asks every peer to confirm its leadership for it. Nothing is answered yet.
#[verifier::rlimit(40)]
pub proof fn reads_are_asked_about<S: State>(
    core: Core<S>,
    role: LeaderView,
    msg: EnvelopeView,
    id: RequestID,
    command: Seq<u8>,
    timeout: Ticks,
    storage: Storage,
)
    requires
        core.voters().len() != 1,
        msg.from == core.id || core.voters().contains(msg.from),
        msg.term == core.term(),
        msg.message == (MessageView::ClientRequest { id, request: RequestView::Read(command) }),
        role.read_seq < u64::MAX,
    ensures
        ({
            let seq = (role.read_seq + 1) as u64;
            let r = stepping(NodeView::Leader(core, role), msg, timeout, storage);
            &&& r matches Ok(NodeView::Leader(next, led))
            &&& next == (Core { out: next.out, ..core })
            &&& led == (LeaderView {
                read_seq: seq,
                reads: role.reads.push(ReadView { seq, from: msg.from, id, command }),
                ..role
            })
            &&& goes_to_all(
                core.out,
                next.out,
                core.peers(),
                core.id,
                core.term(),
                MessageView::Read { seq },
            )
        }),
{
    lemma_goes_to_all(
        core,
        core.peers(),
        core.term(),
        MessageView::Read { seq: (role.read_seq + 1) as u64 },
    );
}

/// The voters that confirmed the leadership for a read, once `peer` confirmed `confirmed`.
pub open spec fn confirming_nodes<S: State>(
    core: Core<S>,
    role: LeaderView,
    peer: NodeID,
    confirmed: ReadSequence,
    seq: ReadSequence,
) -> Set<NodeID> {
    Set::new(
        |id: NodeID|
            {
                ||| id == core.id && role.read_seq >= seq
                ||| id == peer && confirmed >= seq
                ||| role.progress.contains_key(id) && role.progress[id].read_seq >= seq
            },
    )
}

/// When a peer confirms a read for which it was not known to, a leader that has committed in
/// its term and applied all that is committed answers the reads that wait, in the order in
/// which they came, as long as more than half of the voters confirmed them, each with what
/// its state machine gives. The first that is not confirmed still waits, with those after it.
#[verifier::rlimit(40)]
pub proof fn confirmed_reads_are_answered<S: State>(
    core: Core<S>,
    role: LeaderView,
    msg: EnvelopeView,
    seq: ReadSequence,
    timeout: Ticks,
    storage: Storage,
) -> (n: int)
    requires
        core.voters().contains(msg.from),
        msg.from != core.id,
        msg.term == core.term(),
        msg.message == (MessageView::ReadResponse { seq }),
        role.progress.contains_key(msg.from),
        role.progress[msg.from].read_seq < seq,
        core.log.commit_term >= core.term(),
        core.applied() >= core.log.commit_index,
    ensures
        0 <= n <= role.reads.len(),
        ({
            let r = stepping(NodeView::Leader(core, role), msg, timeout, storage);
            &&& r matches Ok(NodeView::Leader(next, led))
            &&& next == (Core { out: next.out, ..core })
            &&& led.reads == role.reads.skip(n)
            &&& role.peer_seen.contains_key(msg.from) ==> led.peer_seen == role.peer_seen.insert(
                msg.from,
                0,
            )
            &&& led.progress[msg.from].read_seq == seq
            &&& next.out.len() == core.out.len() + n
            &&& next.out.take(core.out.len() as int) == core.out
            &&& forall|k: int|
                0 <= k < n ==> {
                    let read = #[trigger] role.reads[k];
                    &&& read.seq == 0 || is_more_than_half(
                        core.membership.active,
                        confirming_nodes(core, role, msg.from, seq, read.seq),
                    )
                    &&& next.out[core.out.len() + k] == (EnvelopeView {
                        from: core.id,
                        term: core.term(),
                        to: read.from,
                        message: MessageView::ClientResponse {
                            id: read.id,
                            response: match S::reading(core.state, read.command) {
                                Ok(data) => Ok(ResponseView::Read(data)),
                                Err(e) => Err(e),
                            },
                        },
                    })
                }
            &&& n < role.reads.len() ==> role.reads[n].seq != 0 && !is_more_than_half(
                core.membership.active,
                confirming_nodes(core, role, msg.from, seq, role.reads[n].seq),
            )
        }),
{
    let led = Led { core, role, failed: None };
    let noted = led.noting(msg.from);
    let old = noted.role.progress[msg.from];
    let told = noted.with_progress(msg.from, old.advancing_read(seq));
    let n = reads_are_confirmed(told);
    lemma_reading(told);
    assert forall|q: ReadSequence| #[trigger] told.is_confirmed(q) == (q == 0
        || is_more_than_half(
        core.membership.active,
        confirming_nodes(core, role, msg.from, seq, q),
    )) by {
        let progress = told.role.progress;
        assert(Set::new(
            |peer: NodeID|
                (peer == core.id && told.role.read_seq >= q) || (progress.contains_key(peer)
                    && progress[peer].read_seq >= q),
        ) =~= confirming_nodes(core, role, msg.from, seq, q));
        quorums_are_more_than_half(
            core.membership.active,
            confirming_nodes(core, role, msg.from, seq, q),
        );
    }
    assert(told.core.out == core.out);
    assert forall|k: int| 0 <= k < n implies {
        let read = #[trigger] role.reads[k];
        read.seq == 0 || is_more_than_half(
            core.membership.active,
            confirming_nodes(core, role, msg.from, seq, read.seq),
        )
    } by {
        assert(told.is_confirmed(told.role.reads[k].seq));
    }
    n
}

/// A leader tells a client who leads in which term, how far it has committed and applied,
/// who votes, how far each peer is known to match and that it has its whole log itself, and
/// what storage says of itself. Nothing else changes.
#[verifier::rlimit(40)]
pub proof fn status_tells_how_things_stand<S: State>(
    core: Core<S>,
    role: LeaderView,
    msg: EnvelopeView,
    id: RequestID,
    timeout: Ticks,
    storage: StorageStatusView,
)
    requires
        0 <= core.log.last_index() <= u64::MAX,
        !role.progress.contains_key(core.id),
        msg.from == core.id || core.voters().contains(msg.from),
        msg.term == core.term(),
        msg.message == (MessageView::ClientRequest { id, request: RequestView::Status }),
    ensures
        ({
            let r = stepping(NodeView::Leader(core, role), msg, timeout, Ok(storage));
            &&& r matches Ok(NodeView::Leader(next, led))
            &&& led == role
            &&& next == (Core { out: next.out, ..core })
            &&& next.out.len() == core.out.len() + 1
            &&& next.out.last().message matches MessageView::ClientResponse { id: own, response }
            &&& (own, next.out.last().to) == (id, msg.from)
            &&& response matches Ok(ResponseView::Status(status))
            &&& (status.leader, status.term) == (core.id, core.term())
            &&& (status.commit_index, status.applied_index) == (
                core.log.commit_index,
                core.applied(),
            )
            &&& status.voters == core.voters()
            &&& status.storage == storage
            &&& status.match_index.dom() == role.progress.dom().insert(core.id)
            &&& status.match_index[core.id] == core.log.last_index()
            &&& forall|peer: NodeID|
                role.progress.contains_key(peer) ==> #[trigger] status.match_index[peer]
                    == role.progress[peer].match_index
        }),
{
    let led = Led { core, role, failed: None };
    let matches = role.progress.map_values(
        |progress: super::model::Progress| progress.match_index,
    );
    assert(matches.dom() =~= role.progress.dom());
    assert(led.status(storage).match_index.dom() =~= role.progress.dom().insert(core.id));
}

/// If storage cannot say anything of itself, then the client that asks for the status is told
/// why.
pub proof fn status_failures_are_passed_on<S: State>(
    core: Core<S>,
    role: LeaderView,
    msg: EnvelopeView,
    id: RequestID,
    timeout: Ticks,
    error: ErrorView,
)
    requires
        msg.from == core.id || core.voters().contains(msg.from),
        msg.term == core.term(),
        msg.message == (MessageView::ClientRequest { id, request: RequestView::Status }),
    ensures
        stepping(NodeView::Leader(core, role), msg, timeout, Err(error)) == Ok::<
            NodeView<S>,
            ErrorView,
        >(
            NodeView::Leader(
                Core {
                    out: core.out.push(
                        EnvelopeView {
                            from: core.id,
                            term: core.term(),
                            to: msg.from,
                            message: MessageView::ClientResponse { id, response: Err(error) },
                        },
                    ),
                    ..core
                },
                role,
            ),
        ),
{
}

// A leader alone.

/// A leader that is the only voter commits a write as it comes, applies it after what was
/// committed before, and answers the client with what came of it.
#[verifier::rlimit(40)]
#[verifier::spinoff_prover]
pub proof fn lone_leaders_answer_writes_at_once<S: State>(
    core: Core<S>,
    role: LeaderView,
    msg: EnvelopeView,
    id: RequestID,
    command: Seq<u8>,
    timeout: Ticks,
    storage: Storage,
)
    requires
        is_consistent(core.log),
        core.log.last_index() + 1 < u64::MAX,
        core.applied() <= core.log.last_index(),
        core.membership.active == MembershipView::Simple(set![core.id]),
        msg.from == core.id,
        msg.term == core.term(),
        msg.message == (MessageView::ClientRequest { id, request: RequestView::Write(command) }),
    ensures
        ({
            let index = (core.log.last_index() + 1) as u64;
            let entry = EntryView {
                index,
                term: core.term(),
                command: Some(command),
                membership: None,
            };
            let before = core.log.slice(core.applied() + 1, core.log.last_index());
            let state = state_after::<S>(core.state, before, before.len() as int);
            let r = stepping(NodeView::Leader(core, role), msg, timeout, storage);
            r matches Ok(after) ==> {
                &&& after.base().log.commit_index == index
                &&& after.base().state == S::applying(state, entry).0
                &&& after.base().out.contains(
                    EnvelopeView {
                        from: core.id,
                        term: core.term(),
                        to: msg.from,
                        message: MessageView::ClientResponse {
                            id,
                            response: match S::applying(state, entry).1 {
                                Ok(data) => Ok(ResponseView::Write(data)),
                                Err(e) => Err(e),
                            },
                        },
                    },
                )
            }
        }),
{
    let index = (core.log.last_index() + 1) as u64;
    let entry = EntryView { index, term: core.term(), command: Some(command), membership: None };
    let write = Write { from: msg.from, id };
    let start = Led { core, role, failed: None };
    assert(core.peers() =~= Set::<NodeID>::empty());
    lemma_ascending(core.peers());
    let peers = ascending(core.peers());
    assert(peers.len() == 0) by {
        if peers.len() > 0 {
            assert(peers.to_set().contains(peers[0]));
        }
    }
    let led = start.proposing(Some(command));
    let log = core.log.appending(Some(command), None);
    assert(led.core == (Core { log, ..core }));
    assert(set![core.id].len() == 1);
    let awaiting = Led {
        role: LeaderView { writes: led.role.writes.insert(index, write), ..led.role },
        ..led
    };
    assert(is_consistent(log));
    let own = awaiting.matched_at(index as int);
    assert(set![core.id].intersect(own) =~= set![core.id]);
    assert(awaiting.committable(index as int)) by {
        quorums_are_more_than_half(core.membership.active, own);
        assert(log.at(index as int) == entry);
    }
    assert(awaiting.commit_target(log.last_index()) == index);
    lemma_commits_apply(awaiting, index);
    lemma_committed(awaiting);
    let entries = log.slice(core.applied() + 1, index as int);
    let before = core.log.slice(core.applied() + 1, core.log.last_index());
    assert(entries =~= before.push(entry));
    let n = before.len() as int;
    assert(entries.take(n) =~= before.take(n));
    lemma_state_after::<S>(core.state, entries, n + 1);
    assert(entries[n] == entry);
    let answer = answering_client(
        awaiting.core,
        write,
        answer_to::<S>(state_after::<S>(core.state, entries, n), entries[n]),
    );
    assert(client_of(awaiting.role, entries[n]) == Some(write));
    let (committed, step_down) = awaiting.committing();
    assert(committed.core.out.contains(answer));
    let r = stepping(NodeView::Leader(core, role), msg, timeout, storage);
    if let Ok(after) = r {
        if step_down {
            let writes = by_id(waiting_writes(committed.role.writes));
            let changes = by_id(waiting_writes(committed.role.membership_writes));
            let reads = by_id(waiting_reads(committed.role.reads));
            lemma_out_kept(committed.core, writes, answer);
            lemma_out_kept(committed.core.aborting(writes), changes, answer);
            lemma_out_kept(committed.core.aborting(writes).aborting(changes), reads, answer);
        }
        assert(after.base().out.contains(answer));
    }
}

/// It answers a read at once, too, if it has committed in its term and applied all that is
/// committed, and no read waits.
#[verifier::rlimit(40)]
pub proof fn lone_leaders_answer_reads_at_once<S: State>(
    core: Core<S>,
    role: LeaderView,
    msg: EnvelopeView,
    id: RequestID,
    command: Seq<u8>,
    timeout: Ticks,
    storage: Storage,
)
    requires
        core.membership.active == MembershipView::Simple(set![core.id]),
        role.read_seq < u64::MAX,
        role.reads.len() == 0,
        core.log.commit_term >= core.term(),
        core.applied() >= core.log.commit_index,
        msg.from == core.id,
        msg.term == core.term(),
        msg.message == (MessageView::ClientRequest { id, request: RequestView::Read(command) }),
    ensures
        ({
            let r = stepping(NodeView::Leader(core, role), msg, timeout, storage);
            &&& r matches Ok(NodeView::Leader(next, led))
            &&& led.reads.len() == 0
            &&& next.out == core.out.push(
                EnvelopeView {
                    from: core.id,
                    term: core.term(),
                    to: msg.from,
                    message: MessageView::ClientResponse {
                        id,
                        response: match S::reading(core.state, command) {
                            Ok(data) => Ok(ResponseView::Read(data)),
                            Err(e) => Err(e),
                        },
                    },
                },
            )
        }),
{
    let start = Led { core, role, failed: None };
    assert(core.peers() =~= Set::<NodeID>::empty());
    lemma_ascending(core.peers());
    let peers = ascending(core.peers());
    assert(peers.len() == 0) by {
        if peers.len() > 0 {
            assert(peers.to_set().contains(peers[0]));
        }
    }
    let seq = (role.read_seq + 1) as u64;
    let queued = Led {
        core: core.broadcasting(MessageView::Read { seq }),
        role: LeaderView {
            read_seq: seq,
            reads: role.reads.push(ReadView { seq, from: msg.from, id, command }),
            ..role
        },
        ..start
    };
    assert(queued.core.out =~= core.out);
    assert(set![core.id].len() == 1);
    let n = reads_are_confirmed(queued);
    lemma_reading(queued);
    assert(queued.is_confirmed(seq)) by {
        let progress = queued.role.progress;
        let confirmed = Set::new(
            |peer: NodeID|
                (peer == core.id && seq >= seq) || (progress.contains_key(peer)
                    && progress[peer].read_seq >= seq),
        );
        assert(set![core.id].intersect(confirmed) =~= set![core.id]);
        quorums_are_more_than_half(core.membership.active, confirmed);
    }
    assert(queued.role.reads[0].seq == seq);
    assert(n == 1);
    let out = queued.reading().core.out;
    assert(out.take(core.out.len() as int) == core.out);
    assert(queued.role.reads[0].from == msg.from);
    assert(out =~= out.take(core.out.len() as int).push(out[core.out.len() as int]));
}

} // verus!
