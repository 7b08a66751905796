//! What a Raft node does, as mathematics: each transition as a function from
//! the state before to the state after and the messages sent.

use std::ops::Range;

use vstd::prelude::*;
use crate::storage::engine::Status;

use super::entry::{EntryView, Index, Term};
use super::ids::{ascending, NodeID};
use super::log::{latest_change, LogView};
use super::membership::{MembershipStateView, MembershipView};
use super::message::{
    AnswerView, EnvelopeView, MessageView, ReadSequence, RequestID, RequestView, ResponseView,
    StatusView,
};
use super::session::session_command;
use super::state::{Outcome, State};
use crate::error::{ErrorView, Result};
use crate::storage::engine::StatusView as StorageStatusView;
use crate::text::decimal;

verus! {

/// Logical time.
pub type Ticks = u8;

/// A node's parameters.
#[derive(Debug, PartialEq)]
pub struct Options {
    /// How many ticks a leader waits between heartbeats.
    pub heartbeat_interval: Ticks,
    /// The range that election timeouts are drawn from.
    pub election_timeout_range: Range<Ticks>,
    /// How many entries an append message carries at most.
    pub max_append_entries: usize,
    /// Whether a node asks for support before it raises the term.
    pub pre_vote: bool,
    /// Whether a leader steps down when it hears from no quorum.
    pub check_quorum: bool,
    /// How many applied entries trigger a snapshot; 0 for never.
    pub snapshot_threshold: u64,
}

/// How many ticks a leader waits between heartbeats, by default.
pub const HEARTBEAT_INTERVAL: Ticks = 2;

/// How many entries an append message carries at most, by default.
pub const MAX_APPEND_ENTRIES: usize = 100;

/// The length of a tick, in milliseconds.
pub const TICK_INTERVAL: u64 = 100;

impl Default for Options {
    fn default() -> (r: Options)
        ensures
            r == (Options {
                heartbeat_interval: HEARTBEAT_INTERVAL,
                election_timeout_range: (Range { start: 5, end: 10 }),
                max_append_entries: MAX_APPEND_ENTRIES,
                pre_vote: true,
                check_quorum: true,
                snapshot_threshold: 0,
            }),
    {
        Options {
            heartbeat_interval: HEARTBEAT_INTERVAL,
            election_timeout_range: Range { start: 5, end: 10 },
            max_append_entries: MAX_APPEND_ENTRIES,
            pre_vote: true,
            check_quorum: true,
            snapshot_threshold: 0,
        }
    }
}

impl Clone for Options {
    fn clone(&self) -> (r: Options)
        ensures
            r == *self,
    {
        Options {
            heartbeat_interval: self.heartbeat_interval,
            election_timeout_range: Range {
                start: self.election_timeout_range.start,
                end: self.election_timeout_range.end,
            },
            max_append_entries: self.max_append_entries,
            pre_vote: self.pre_vote,
            check_quorum: self.check_quorum,
            snapshot_threshold: self.snapshot_threshold,
        }
    }
}

/// What a leader knows of a follower's log.
#[derive(Clone, Copy, Debug, PartialEq)]
pub struct Progress {
    /// The highest index at which the logs are known to match.
    pub match_index: Index,
    /// The index of the next entry to send.
    pub next_index: Index,
    /// The last read that the follower confirmed.
    pub read_seq: ReadSequence,
}

/// A write that waits for its entry to be applied.
#[derive(Clone, Copy, Debug, PartialEq)]
pub struct Write {
    /// Who asked for it.
    pub from: NodeID,
    pub id: RequestID,
}

/// A read that waits for a quorum to confirm the leadership.
pub ghost struct ReadView {
    pub seq: ReadSequence,
    pub from: NodeID,
    pub id: RequestID,
    pub command: Seq<u8>,
}

/// What an election is about.
#[derive(Clone, Copy, Debug, PartialEq, Eq, Structural)]
pub enum ElectionPhase {
    /// Asking for support without raising the term.
    PreVote,
    /// Asking for votes in a new term.
    Election,
}

/// The part of a node's state that does not depend on its role.
#[verifier::ext_equal]
#[verifier::reject_recursive_types(S)]
pub ghost struct Core<S: State> {
    pub id: NodeID,
    pub membership: MembershipStateView,
    pub log: LogView,
    pub state: S::Model,
    /// The messages sent and not yet taken away.
    pub out: Seq<EnvelopeView>,
    pub opts: Options,
}

#[verifier::ext_equal]
pub ghost struct FollowerView {
    /// The leader of the current term, if it is known.
    pub leader: Option<NodeID>,
    /// The ticks since the leader was last heard.
    pub leader_seen: Ticks,
    pub election_timeout: Ticks,
    /// The requests forwarded to the leader.
    pub forwarded: Set<RequestID>,
}

#[verifier::ext_equal]
pub ghost struct CandidateView {
    /// Who granted their vote, this node included.
    pub votes: Set<NodeID>,
    /// The ticks since the election started.
    pub election_duration: Ticks,
    pub election_timeout: Ticks,
    pub phase: ElectionPhase,
}

#[verifier::ext_equal]
pub ghost struct LeaderView {
    pub progress: Map<NodeID, Progress>,
    /// The writes to answer once the entry at their index is applied.
    pub writes: Map<Index, Write>,
    /// The membership changes to answer likewise.
    pub membership_writes: Map<Index, Write>,
    /// The reads to answer, in the order in which they came.
    pub reads: Seq<ReadView>,
    /// The number of the last read.
    pub read_seq: ReadSequence,
    pub since_heartbeat: Ticks,
    /// The ticks since each peer last answered.
    pub peer_seen: Map<NodeID, Ticks>,
}

/// A node.
#[verifier::ext_equal]
#[verifier::reject_recursive_types(S)]
pub ghost enum NodeView<S: State> {
    Follower(Core<S>, FollowerView),
    Candidate(Core<S>, CandidateView),
    Leader(Core<S>, LeaderView),
}

impl<S: State> NodeView<S> {
    pub open spec fn base(self) -> Core<S> {
        match self {
            NodeView::Follower(core, _) => core,
            NodeView::Candidate(core, _) => core,
            NodeView::Leader(core, _) => core,
        }
    }

    /// The node once its messages were taken away.
    pub open spec fn silenced(self) -> NodeView<S> {
        match self {
            NodeView::Follower(core, role) => NodeView::Follower(
                Core { out: seq![], ..core },
                role,
            ),
            NodeView::Candidate(core, role) => NodeView::Candidate(
                Core { out: seq![], ..core },
                role,
            ),
            NodeView::Leader(core, role) => NodeView::Leader(Core { out: seq![], ..core }, role),
        }
    }

    /// Whether the node can draw an election timeout.
    pub open spec fn draws(self, timeout: Ticks) -> bool {
        self.base().opts.election_timeout_range.start <= timeout
            < self.base().opts.election_timeout_range.end
    }
}

/// A leader in the middle of a step, and the error that stopped it, if any.
#[verifier::ext_equal]
#[verifier::reject_recursive_types(S)]
pub ghost struct Led<S: State> {
    pub core: Core<S>,
    pub role: LeaderView,
    pub failed: Option<ErrorView>,
}

impl<S: State> Core<S> {
    pub open spec fn term(self) -> Term {
        self.log.term
    }

    pub open spec fn peers(self) -> Set<NodeID> {
        self.membership.peers_of(self.id)
    }

    pub open spec fn voters(self) -> Set<NodeID> {
        self.membership.active.voters()
    }

    /// Whether there is no other voter to wait for.
    pub open spec fn is_alone(self) -> bool {
        self.voters().len() == 1
    }

    pub open spec fn quorum(self, matched: Set<NodeID>) -> bool {
        self.membership.active.quorum(matched)
    }

    pub open spec fn applied(self) -> Index {
        S::applied(self.state)
    }

    /// After a message was sent in the given term.
    pub open spec fn sending_in(self, term: Term, to: NodeID, message: MessageView) -> Core<S> {
        Core { out: self.out.push(EnvelopeView { from: self.id, term, to, message }), ..self }
    }

    /// After a message was sent.
    pub open spec fn sending(self, to: NodeID, message: MessageView) -> Core<S> {
        self.sending_in(self.log.term, to, message)
    }

    /// After a message was sent in the given term to each of `to`.
    pub open spec fn sending_all(self, term: Term, to: Seq<NodeID>, message: MessageView) -> Core<
        S,
    > {
        Core {
            out: self.out + to.map_values(
                |to: NodeID| EnvelopeView { from: self.id, term, to, message },
            ),
            ..self
        }
    }

    /// After a message was sent to every peer.
    pub open spec fn broadcasting(self, message: MessageView) -> Core<S> {
        self.sending_all(self.log.term, ascending(self.peers()), message)
    }

    /// After requests were aborted, in the given order.
    pub open spec fn aborting(self, requests: Seq<(RequestID, NodeID)>) -> Core<S> {
        Core {
            out: self.out + requests.map_values(
                |request: (RequestID, NodeID)| EnvelopeView {
                    from: self.id,
                    term: self.log.term,
                    to: request.1,
                    message: abort(request.0),
                },
            ),
            ..self
        }
    }

    /// Whether a log that ends at `last_index` and `last_term` is at least as up
    /// to date as this node's: its last entry is of a later term, or of the same
    /// term and not before.
    pub open spec fn is_current(self, last_index: Index, last_term: Term) -> bool {
        last_term > self.log.last_term() || (last_term == self.log.last_term() && last_index
            >= self.log.last_index())
    }

    /// Every command up to `index` is one that the state machine takes.
    pub open spec fn is_writable_to(self, index: int) -> bool {
        forall|k: int|
            0 <= k < self.log.entries.len() && (#[trigger] self.log.entries[k]).index <= index
                ==> takes_entry::<S>(self.log.entries[k])
    }

    /// Every committed command is one that the state machine takes.
    pub open spec fn is_writable(self) -> bool {
        self.is_writable_to(self.log.commit_index as int)
    }
}

/// Whether the state machine takes an entry's command, if it has one.
pub open spec fn takes_entry<S: State>(entry: EntryView) -> bool {
    entry.command matches Some(command) ==> S::takes_write(command)
}

/// The message that aborts a request.
pub open spec fn abort(id: RequestID) -> MessageView {
    MessageView::ClientResponse { id, response: Err(ErrorView::Abort) }
}

pub open spec fn increasing_requests(s: Seq<RequestID>) -> bool {
    forall|i: int, j: int| 0 <= i < j < s.len() ==> s[i] < s[j]
}

/// The requests of a set in ascending order.
pub open spec fn requests_in_order(requests: Set<RequestID>) -> Seq<RequestID> {
    choose|s: Seq<RequestID>| #[trigger] increasing_requests(s) && s.to_set() == requests
}

pub open spec fn increasing_indexes(s: Seq<Index>) -> bool {
    forall|i: int, j: int| 0 <= i < j < s.len() ==> s[i] < s[j]
}

/// The indexes of a set in ascending order.
pub open spec fn indexes_in_order(indexes: Set<Index>) -> Seq<Index> {
    choose|s: Seq<Index>| #[trigger] increasing_indexes(s) && s.to_set() == indexes
}

/// `sorted` with `request` put in after every request whose identifier is not
/// greater.
pub open spec fn insert_by_id(
    sorted: Seq<(RequestID, NodeID)>,
    request: (RequestID, NodeID),
) -> Seq<(RequestID, NodeID)>
    decreases sorted.len(),
{
    if sorted.len() == 0 || sorted.last().0 <= request.0 {
        sorted.push(request)
    } else {
        insert_by_id(sorted.drop_last(), request).push(sorted.last())
    }
}

/// The requests in ascending order of their identifiers; equal ones stay in the
/// order that they had.
pub open spec fn by_id(requests: Seq<(RequestID, NodeID)>) -> Seq<(RequestID, NodeID)>
    decreases requests.len(),
{
    if requests.len() == 0 {
        seq![]
    } else {
        insert_by_id(by_id(requests.drop_last()), requests.last())
    }
}

/// The requests that wait for an entry, in the order of the entries.
pub open spec fn waiting_writes(writes: Map<Index, Write>) -> Seq<(RequestID, NodeID)> {
    indexes_in_order(writes.dom()).map_values(
        |index: Index| (writes[index].id, writes[index].from),
    )
}

/// The requests that wait for a quorum.
pub open spec fn waiting_reads(reads: Seq<ReadView>) -> Seq<(RequestID, NodeID)> {
    reads.map_values(|read: ReadView| (read.id, read.from))
}

// Applying committed entries.

/// The membership after the change at `index` of a log was committed. What was known of
/// a later change in the log stays.
pub open spec fn committed_membership(
    membership: MembershipStateView,
    log: LogView,
    index: Index,
    change: MembershipView,
) -> MembershipStateView {
    if is_last_change(log, index) {
        membership.committing(change)
    } else {
        membership
    }
}

/// Whether a log has no membership change after `index`.
pub open spec fn is_last_change(log: LogView, index: Index) -> bool {
    log.latest_membership() matches Some((last, _)) ==> last <= index
}

/// The state and the membership after entries of a log were applied.
pub open spec fn apply_all<S: State>(
    log: LogView,
    state: S::Model,
    membership: MembershipStateView,
    entries: Seq<EntryView>,
) -> (S::Model, MembershipStateView)
    decreases entries.len(),
{
    if entries.len() == 0 {
        (state, membership)
    } else {
        let (state, membership) = apply_all::<S>(log, state, membership, entries.drop_last());
        let entry = entries.last();
        (
            S::applying(state, entry).0,
            match entry.membership {
                Some(change) => committed_membership(membership, log, entry.index, change),
                None => membership,
            },
        )
    }
}

/// After the committed entries that were not applied yet were applied.
pub open spec fn applying_committed<S: State>(core: Core<S>) -> Core<S> {
    let entries = core.log.slice(core.applied() + 1, core.log.commit_index as int);
    let (state, membership) = apply_all::<S>(core.log, core.state, core.membership, entries);
    Core { state, membership, ..core }
}

// Followers.

pub open spec fn new_follower(leader: Option<NodeID>, election_timeout: Ticks) -> FollowerView {
    FollowerView { leader, leader_seen: 0, election_timeout, forwarded: Set::empty() }
}

/// After the requests forwarded to the leader were aborted.
pub open spec fn aborting_forwarded<S: State>(core: Core<S>, role: FollowerView) -> Core<S> {
    core.aborting(
        requests_in_order(role.forwarded).map_values(|id: RequestID| (id, core.id)),
    )
}

/// A follower that discovered a new term.
pub open spec fn discovering<S: State>(
    core: Core<S>,
    role: FollowerView,
    term: Term,
    timeout: Ticks,
) -> (Core<S>, FollowerView) {
    let core = aborting_forwarded(core, role);
    (
        Core { log: LogView { term, vote: None, ..core.log }, ..core },
        new_follower(None, timeout),
    )
}

/// A follower that heard from the leader of its term: it follows it, if it did
/// not know the leader.
pub open spec fn following<S: State>(core: Core<S>, role: FollowerView, from: NodeID) -> (
    Core<S>,
    FollowerView,
) {
    match role.leader {
        Some(_) => (core, role),
        None => (
            aborting_forwarded(core, role),
            new_follower(Some(from), role.election_timeout),
        ),
    }
}

/// Whether a message of a leader is to be ignored because another leader is
/// known.
pub open spec fn is_foreign(role: FollowerView, from: NodeID) -> bool {
    role.leader matches Some(leader) && leader != from
}

/// A follower's answer to a pre-vote: it supports a candidate for a later term
/// whose log is current, unless it hears from its leader.
pub open spec fn follower_prevote<S: State>(
    core: Core<S>,
    role: FollowerView,
    msg: EnvelopeView,
    last_index: Index,
    last_term: Term,
) -> Core<S> {
    let vote = if role.leader is Some && role.leader_seen < role.election_timeout {
        false
    } else {
        core.is_current(last_index, last_term) && msg.term > core.term()
    };
    core.sending(msg.from, MessageView::PreCampaignResponse { vote })
}

pub open spec fn follower_heartbeat<S: State>(
    core: Core<S>,
    msg: EnvelopeView,
    last_index: Index,
    commit_index: Index,
    read_seq: ReadSequence,
) -> Core<S> {
    let match_index: Index = if core.log.has(last_index as int, msg.term) {
        last_index
    } else {
        0
    };
    let core = core.sending(msg.from, MessageView::HeartbeatResponse { match_index, read_seq });
    if match_index != 0 && commit_index > core.log.commit_index {
        applying_committed(Core { log: core.log.committing(commit_index), ..core })
    } else {
        core
    }
}

/// What a follower takes for its membership when it appends entries: that of the last
/// change in its log then, unless it only appends entries without one.
pub open spec fn appended_membership(
    membership: MembershipStateView,
    log: LogView,
    entries: Seq<EntryView>,
) -> MembershipStateView {
    if latest_change(entries) is None && (entries.len() == 0 || entries[0].index
        > log.last_index()) {
        membership
    } else {
        match log.splicing(entries).latest_membership() {
            Some((index, change)) => last_membership(index, change, log.commit_index),
            None => membership,
        }
    }
}

/// The membership by the last change in a log: the change is over when it is committed
/// and leads to a single configuration.
pub open spec fn last_membership(
    index: Index,
    change: MembershipView,
    commit_index: Index,
) -> MembershipStateView {
    MembershipStateView {
        active: change,
        change_pending: !(change is Simple && index <= commit_index),
    }
}

pub open spec fn follower_append<S: State>(
    core: Core<S>,
    msg: EnvelopeView,
    base_index: Index,
    base_term: Term,
    entries: Seq<EntryView>,
) -> Core<S> {
    if base_index == 0 || core.log.has(base_index as int, base_term) {
        let match_index = if entries.len() == 0 {
            base_index
        } else {
            entries.last().index
        };
        let membership = appended_membership(core.membership, core.log, entries);
        Core { log: core.log.splicing(entries), membership, ..core }.sending(
            msg.from,
            MessageView::AppendResponse { match_index, reject_index: 0 },
        )
    } else {
        let reject_index = if base_index <= core.log.last_index() {
            base_index
        } else {
            (core.log.last_index() + 1) as u64
        };
        core.sending(msg.from, MessageView::AppendResponse { match_index: 0, reject_index })
    }
}

/// A follower's answer to a candidate: it votes once in a term, for a candidate
/// whose log is current.
pub open spec fn follower_campaign<S: State>(
    core: Core<S>,
    msg: EnvelopeView,
    last_index: Index,
    last_term: Term,
) -> Core<S> {
    if grants_vote(core, msg.from, last_index, last_term) {
        Core { log: LogView { term: msg.term, vote: Some(msg.from), ..core.log }, ..core }.sending(
            msg.from,
            MessageView::CampaignResponse { vote: true },
        )
    } else {
        core.sending(msg.from, MessageView::CampaignResponse { vote: false })
    }
}

/// Whether a node in a candidate's term votes for it.
pub open spec fn grants_vote<S: State>(
    core: Core<S>,
    candidate: NodeID,
    last_index: Index,
    last_term: Term,
) -> bool {
    &&& core.log.vote is None || core.log.vote == Some(candidate)
    &&& core.is_current(last_index, last_term)
}

pub open spec fn follower_request<S: State>(
    core: Core<S>,
    role: FollowerView,
    msg: EnvelopeView,
    id: RequestID,
    request: RequestView,
) -> (Core<S>, FollowerView) {
    if msg.from != core.id {
        (core.sending(msg.from, abort(id)), role)
    } else {
        match role.leader {
            Some(leader) => (
                core.sending(leader, MessageView::ClientRequest { id, request }),
                FollowerView { forwarded: role.forwarded.insert(id), ..role },
            ),
            None => (core.sending(msg.from, abort(id)), role),
        }
    }
}

pub open spec fn follower_response<S: State>(
    core: Core<S>,
    role: FollowerView,
    msg: EnvelopeView,
    id: RequestID,
    response: AnswerView,
) -> (Core<S>, FollowerView) {
    if role.leader == Some(msg.from) && role.forwarded.contains(id) {
        (
            core.sending(core.id, MessageView::ClientResponse { id, response }),
            FollowerView { forwarded: role.forwarded.remove(id), ..role },
        )
    } else {
        (core, role)
    }
}

/// Whether a follower installs a snapshot: it is not behind what the follower
/// has.
pub open spec fn installs<S: State>(core: Core<S>, index: Index) -> bool {
    index >= core.log.snapshot_meta().0 && index >= core.applied()
}

pub open spec fn follower_snapshot<S: State>(
    core: Core<S>,
    msg: EnvelopeView,
    index: Index,
    term: Term,
    data: Seq<u8>,
    change: MembershipView,
) -> std::result::Result<Core<S>, ErrorView> {
    let answer = MessageView::InstallSnapshotResponse { last_included_index: index };
    if installs(core, index) {
        match S::restoring(core.state, data, index) {
            Ok(state) => Ok(
                Core {
                    state,
                    log: LogView { snapshot: Some(data), ..core.log }.resetting(index, term),
                    membership: MembershipStateView {
                        active: change,
                        change_pending: change is Joint,
                    },
                    ..core
                }.sending(msg.from, answer),
            ),
            Err(e) => Err(e),
        }
    } else {
        Ok(core.sending(msg.from, answer))
    }
}

/// A follower after a message of its own term.
pub open spec fn follower_step<S: State>(
    core: Core<S>,
    role: FollowerView,
    msg: EnvelopeView,
) -> std::result::Result<NodeView<S>, ErrorView> {
    let role = if role.leader == Some(msg.from) {
        FollowerView { leader_seen: 0, ..role }
    } else {
        role
    };
    let unchanged = NodeView::Follower(core, role);
    match msg.message {
        MessageView::Heartbeat { last_index, commit_index, read_seq } => if is_foreign(
            role,
            msg.from,
        ) {
            Ok(unchanged)
        } else {
            let (core, role) = following(core, role, msg.from);
            Ok(
                NodeView::Follower(
                    follower_heartbeat(core, msg, last_index, commit_index, read_seq),
                    role,
                ),
            )
        },
        MessageView::Append { base_index, base_term, entries } => if is_foreign(role, msg.from) {
            Ok(unchanged)
        } else {
            let (core, role) = following(core, role, msg.from);
            Ok(
                NodeView::Follower(
                    follower_append(core, msg, base_index, base_term, entries),
                    role,
                ),
            )
        },
        MessageView::Read { seq } => if is_foreign(role, msg.from) {
            Ok(unchanged)
        } else {
            let (core, role) = following(core, role, msg.from);
            Ok(
                NodeView::Follower(
                    core.sending(msg.from, MessageView::ReadResponse { seq }),
                    role,
                ),
            )
        },
        MessageView::Campaign { last_index, last_term } => Ok(
            NodeView::Follower(follower_campaign(core, msg, last_index, last_term), role),
        ),
        MessageView::ClientRequest { id, request } => {
            let (core, role) = follower_request(core, role, msg, id, request);
            Ok(NodeView::Follower(core, role))
        },
        MessageView::ClientResponse { id, response } => {
            let (core, role) = follower_response(core, role, msg, id, response);
            Ok(NodeView::Follower(core, role))
        },
        MessageView::InstallSnapshot {
            last_included_index,
            last_included_term,
            data,
            membership,
        } => if is_foreign(role, msg.from) {
            Ok(unchanged)
        } else {
            let (core, role) = following(core, role, msg.from);
            match follower_snapshot(
                core,
                msg,
                last_included_index,
                last_included_term,
                data,
                membership,
            ) {
                Ok(core) => Ok(NodeView::Follower(core, role)),
                Err(e) => Err(e),
            }
        },
        _ => Ok(unchanged),
    }
}

/// A follower after a message: pre-votes never change its term, messages of past
/// terms are dropped, and a later term is adopted first.
pub open spec fn follower_receives<S: State>(
    core: Core<S>,
    role: FollowerView,
    msg: EnvelopeView,
    timeout: Ticks,
) -> std::result::Result<NodeView<S>, ErrorView> {
    match msg.message {
        MessageView::PreCampaign { last_index, last_term } => Ok(
            NodeView::Follower(follower_prevote(core, role, msg, last_index, last_term), role),
        ),
        MessageView::PreCampaignResponse { .. } => Ok(NodeView::Follower(core, role)),
        _ => if msg.term < core.term() {
            Ok(NodeView::Follower(core, role))
        } else if msg.term > core.term() {
            let (core, role) = discovering(core, role, msg.term, timeout);
            follower_step(core, role, msg)
        } else {
            follower_step(core, role, msg)
        },
    }
}

/// A follower after a tick: it becomes a candidate if it has not heard from a
/// leader for its election timeout.
pub open spec fn follower_ticks<S: State>(
    core: Core<S>,
    role: FollowerView,
    timeout: Ticks,
) -> NodeView<S> {
    let seen = (role.leader_seen + 1) as u8;
    if seen >= role.election_timeout {
        let (core, role) = becoming_candidate(core, role, core.opts.pre_vote, timeout);
        NodeView::Candidate(core, role)
    } else {
        NodeView::Follower(core, FollowerView { leader_seen: seen, ..role })
    }
}

// Candidates.

pub open spec fn new_candidate(
    id: NodeID,
    election_timeout: Ticks,
    phase: ElectionPhase,
) -> CandidateView {
    CandidateView { votes: set![id], election_duration: 0, election_timeout, phase }
}

/// A follower that starts an election.
pub open spec fn becoming_candidate<S: State>(
    core: Core<S>,
    role: FollowerView,
    pre_vote: bool,
    timeout: Ticks,
) -> (Core<S>, CandidateView) {
    let core = applying_committed(aborting_forwarded(core, role));
    if pre_vote {
        pre_campaigning(core, timeout)
    } else {
        campaigning(core, timeout)
    }
}

/// A node that asks for votes in a new term.
pub open spec fn campaigning<S: State>(core: Core<S>, timeout: Ticks) -> (Core<S>, CandidateView) {
    let core = Core {
        log: LogView { term: (core.log.term + 1) as u64, vote: Some(core.id), ..core.log },
        ..core
    };
    (
        core.broadcasting(
            MessageView::Campaign {
                last_index: core.log.last_index() as u64,
                last_term: core.log.last_term(),
            },
        ),
        new_candidate(core.id, timeout, ElectionPhase::Election),
    )
}

/// A node that asks for support for a new term, and campaigns at once if its own
/// support is enough.
pub open spec fn pre_campaigning<S: State>(core: Core<S>, timeout: Ticks) -> (
    Core<S>,
    CandidateView,
) {
    if core.is_alone() {
        campaigning(core, timeout)
    } else {
        let asking = core.sending_all(
            (core.log.term + 1) as u64,
            ascending(core.peers()),
            MessageView::PreCampaign {
                last_index: core.log.last_index() as u64,
                last_term: core.log.last_term(),
            },
        );
        if core.quorum(set![core.id]) {
            campaigning(asking, timeout)
        } else {
            (asking, new_candidate(core.id, timeout, ElectionPhase::PreVote))
        }
    }
}

/// The votes with that of `from`, if it is a voter.
pub open spec fn counting<S: State>(core: Core<S>, role: CandidateView, from: NodeID) -> Set<
    NodeID,
> {
    if core.voters().contains(from) {
        role.votes.insert(from)
    } else {
        role.votes
    }
}

/// A candidate that discovered a new term.
pub open spec fn conceding<S: State>(core: Core<S>, term: Term, timeout: Ticks) -> (
    Core<S>,
    FollowerView,
) {
    (
        Core { log: LogView { term, vote: None, ..core.log }, ..core },
        new_follower(None, timeout),
    )
}

/// A candidate after a message of its own term.
pub open spec fn candidate_step<S: State>(
    core: Core<S>,
    role: CandidateView,
    msg: EnvelopeView,
    timeout: Ticks,
) -> std::result::Result<NodeView<S>, ErrorView> {
    let unchanged = NodeView::Candidate(core, role);
    match msg.message {
        MessageView::CampaignResponse { vote } => if vote && role.phase
            == ElectionPhase::Election {
            let votes = counting(core, role, msg.from);
            if core.quorum(votes) {
                winning(core)
            } else {
                Ok(NodeView::Candidate(core, CandidateView { votes, ..role }))
            }
        } else {
            Ok(unchanged)
        },
        MessageView::Campaign { .. } => Ok(
            NodeView::Candidate(
                core.sending(msg.from, MessageView::CampaignResponse { vote: false }),
                role,
            ),
        ),
        MessageView::Heartbeat { .. } => follower_step(
            core,
            new_follower(Some(msg.from), timeout),
            msg,
        ),
        MessageView::Append { .. } => follower_step(
            core,
            new_follower(Some(msg.from), timeout),
            msg,
        ),
        MessageView::Read { .. } => follower_step(
            core,
            new_follower(Some(msg.from), timeout),
            msg,
        ),
        MessageView::InstallSnapshot { .. } => follower_step(
            core,
            new_follower(Some(msg.from), timeout),
            msg,
        ),
        MessageView::ClientRequest { id, .. } => Ok(
            NodeView::Candidate(core.sending(msg.from, abort(id)), role),
        ),
        _ => Ok(unchanged),
    }
}

/// A candidate after it was told that someone would vote for it: it starts the
/// election once it would win.
pub open spec fn supported<S: State>(
    core: Core<S>,
    role: CandidateView,
    from: NodeID,
    timeout: Ticks,
) -> std::result::Result<NodeView<S>, ErrorView> {
    let votes = counting(core, role, from);
    if core.quorum(votes) {
        let (core, role) = campaigning(core, timeout);
        if core.quorum(role.votes) {
            winning(core)
        } else {
            Ok(NodeView::Candidate(core, role))
        }
    } else {
        Ok(NodeView::Candidate(core, CandidateView { votes, ..role }))
    }
}

/// A candidate after a message.
pub open spec fn candidate_receives<S: State>(
    core: Core<S>,
    role: CandidateView,
    msg: EnvelopeView,
    timeout: Ticks,
) -> std::result::Result<NodeView<S>, ErrorView> {
    match msg.message {
        MessageView::PreCampaign { last_index, last_term } => Ok(
            NodeView::Candidate(
                core.sending(
                    msg.from,
                    MessageView::PreCampaignResponse {
                        vote: core.is_current(last_index, last_term) && msg.term > core.term(),
                    },
                ),
                role,
            ),
        ),
        MessageView::PreCampaignResponse { vote } => if vote && role.phase
            == ElectionPhase::PreVote {
            supported(core, role, msg.from, timeout)
        } else {
            Ok(NodeView::Candidate(core, role))
        },
        _ => if msg.term < core.term() {
            Ok(NodeView::Candidate(core, role))
        } else if msg.term > core.term() {
            let (core, role) = conceding(core, msg.term, timeout);
            follower_step(core, role, msg)
        } else {
            candidate_step(core, role, msg, timeout)
        },
    }
}

/// A candidate after a tick: it starts over if the election takes too long.
pub open spec fn candidate_ticks<S: State>(
    core: Core<S>,
    role: CandidateView,
    timeout: Ticks,
) -> NodeView<S> {
    let duration = (role.election_duration + 1) as u8;
    if duration >= role.election_timeout {
        let (core, role) = if core.opts.pre_vote {
            pre_campaigning(core, timeout)
        } else {
            campaigning(core, timeout)
        };
        NodeView::Candidate(core, role)
    } else {
        NodeView::Candidate(core, CandidateView { election_duration: duration, ..role })
    }
}

// Leaders.

pub open spec fn new_progress(last_index: int) -> Progress {
    Progress { match_index: 0, next_index: (last_index + 1) as u64, read_seq: 0 }
}

pub open spec fn new_leader(peers: Set<NodeID>, last_index: int) -> LeaderView {
    LeaderView {
        progress: Map::new(|id: NodeID| peers.contains(id), |id: NodeID| new_progress(last_index)),
        writes: Map::empty(),
        membership_writes: Map::empty(),
        reads: seq![],
        read_seq: 0,
        since_heartbeat: 0,
        peer_seen: Map::new(|id: NodeID| peers.contains(id), |id: NodeID| 0u8),
    }
}

/// A candidate that won its election: it appends an empty entry, commits what it
/// can and sends a heartbeat.
pub open spec fn winning<S: State>(core: Core<S>) -> std::result::Result<NodeView<S>, ErrorView> {
    let led = Led {
        core,
        role: new_leader(core.peers(), core.log.last_index()),
        failed: None,
    }.proposing(None).committing().0;
    match led.failed {
        Some(e) => Err(e),
        None => {
            let led = led.heartbeating();
            Ok(NodeView::Leader(led.core, led.role))
        },
    }
}

impl Progress {
    /// After the follower was seen to match up to `match_index`.
    pub open spec fn advancing(self, match_index: Index) -> Progress {
        if match_index <= self.match_index {
            self
        } else {
            Progress {
                match_index,
                next_index: if match_index + 1 > self.next_index {
                    (match_index + 1) as u64
                } else {
                    self.next_index
                },
                ..self
            }
        }
    }

    /// After the follower confirmed a read.
    pub open spec fn advancing_read(self, read_seq: ReadSequence) -> Progress {
        if read_seq <= self.read_seq {
            self
        } else {
            Progress { read_seq, ..self }
        }
    }

    /// Whether the next index is to move back to `next_index`.
    pub open spec fn regresses(self, next_index: Index) -> bool {
        next_index < self.next_index && self.next_index > self.match_index + 1
    }

    /// After the next index moved back, but not to what matches.
    pub open spec fn regressing(self, next_index: Index) -> Progress {
        if self.regresses(next_index) {
            Progress {
                next_index: if self.match_index + 1 > next_index {
                    (self.match_index + 1) as u64
                } else {
                    next_index
                },
                ..self
            }
        } else {
            self
        }
    }

    /// What holds of a follower's progress under a log that ends at `last`.
    pub open spec fn wf(self, last: int) -> bool {
        self.match_index < self.next_index <= last + 1 && self.match_index <= last
    }
}

impl<S: State> Led<S> {
    /// After a message was sent.
    pub open spec fn sending(self, to: NodeID, message: MessageView) -> Led<S> {
        Led { core: self.core.sending(to, message), ..self }
    }

    pub open spec fn with_progress(self, peer: NodeID, progress: Progress) -> Led<S> {
        Led {
            role: LeaderView {
                progress: self.role.progress.insert(peer, progress),
                ..self.role
            },
            ..self
        }
    }

    /// Whether `peer` is to be sent a snapshot: what it needs was compacted away.
    pub open spec fn needs_snapshot(self, peer: NodeID) -> bool {
        self.role.progress[peer].next_index < self.core.log.first_index
    }

    /// Whether there is something to send to `peer`: entries, or a probe for
    /// where the logs match.
    pub open spec fn has_append(self, peer: NodeID, probe: bool) -> bool {
        let progress = self.role.progress[peer];
        &&& progress.match_index != self.core.log.last_index()
        &&& progress.next_index <= self.core.log.last_index() || (probe && progress.next_index
            > progress.match_index + 1)
    }

    /// The entries that an append to `peer` carries.
    pub open spec fn append_entries(self, peer: NodeID, probe: bool) -> Seq<EntryView> {
        let progress = self.role.progress[peer];
        if probe && progress.next_index > progress.match_index + 1 {
            seq![]
        } else {
            let rest = self.core.log.slice(
                progress.next_index as int,
                self.core.log.last_index(),
            );
            if rest.len() <= self.core.opts.max_append_entries {
                rest
            } else {
                rest.take(self.core.opts.max_append_entries as int)
            }
        }
    }

    /// After `peer` was sent what it needs next, if anything: a snapshot, or the
    /// entries from its next index on, or a probe without entries.
    pub open spec fn sending_append(self, peer: NodeID, probe: bool) -> Led<S> {
        if self.failed is Some || !self.role.progress.contains_key(peer) {
            self
        } else if self.needs_snapshot(peer) {
            match S::snapshotting(self.core.state) {
                Ok(data) => self.sending(
                    peer,
                    MessageView::InstallSnapshot {
                        last_included_index: self.core.log.snapshot_meta().0,
                        last_included_term: self.core.log.snapshot_meta().1,
                        data,
                        membership: self.core.membership.active,
                    },
                ),
                Err(e) => Led { failed: Some(e), ..self },
            }
        } else if self.has_append(peer, probe) {
            let progress = self.role.progress[peer];
            let base_index = (progress.next_index - 1) as u64;
            let base_term = if base_index == 0 {
                0
            } else {
                self.core.log.term_at(base_index as int)
            };
            let entries = self.append_entries(peer, probe);
            let led = if entries.len() == 0 {
                self
            } else {
                self.with_progress(
                    peer,
                    Progress { next_index: (entries.last().index + 1) as u64, ..progress },
                )
            };
            led.sending(peer, MessageView::Append { base_index, base_term, entries })
        } else {
            self
        }
    }

    /// After those of `peers` whose next entry is the one at `index` were sent
    /// it.
    pub open spec fn replicating(self, peers: Seq<NodeID>, index: Index) -> Led<S>
        decreases peers.len(),
    {
        if peers.len() == 0 {
            self
        } else {
            let led = self.replicating(peers.drop_last(), index);
            if led.role.progress[peers.last()].next_index == index {
                led.sending_append(peers.last(), false)
            } else {
                led
            }
        }
    }

    /// After a command was appended to the log and sent to the peers that wait
    /// for it.
    pub open spec fn proposing(self, command: Option<Seq<u8>>) -> Led<S> {
        let led = Led {
            core: Core { log: self.core.log.appending(command, None), ..self.core },
            ..self
        };
        led.replicating(ascending(led.core.peers()), led.core.log.last_index() as u64)
    }

    /// After the progress was matched with the membership: new peers start at
    /// the end of the log, others are forgotten.
    pub open spec fn syncing(self) -> Led<S> {
        let peers = self.core.peers();
        let role = self.role;
        Led {
            role: LeaderView {
                progress: Map::new(
                    |id: NodeID| peers.contains(id),
                    |id: NodeID|
                        if role.progress.contains_key(id) {
                            role.progress[id]
                        } else {
                            new_progress(self.core.log.last_index())
                        },
                ),
                peer_seen: Map::new(
                    |id: NodeID| peers.contains(id),
                    |id: NodeID|
                        if role.peer_seen.contains_key(id) {
                            role.peer_seen[id]
                        } else {
                            0u8
                        },
                ),
                ..role
            },
            ..self
        }
    }

    /// After a membership change was appended, adopted and sent to the peers
    /// that wait for it.
    pub open spec fn changing(self, change: MembershipView) -> Led<S> {
        let led = self.adopting(change);
        led.replicating(ascending(led.core.peers()), led.core.log.last_index() as u64)
    }

    /// After a membership change was appended and adopted.
    pub open spec fn adopting(self, change: MembershipView) -> Led<S> {
        Led {
            core: Core {
                log: self.core.log.appending(None, Some(change)),
                membership: self.core.membership.applying(change),
                ..self.core
            },
            ..self
        }.syncing()
    }

    /// After a membership change was adopted and went out to the first `n` peers.
    pub open spec fn changing_partly(self, change: MembershipView, n: nat) -> Led<S> {
        let led = self.adopting(change);
        led.replicating(
            ascending(led.core.peers()).take(n as int),
            led.core.log.last_index() as u64,
        )
    }

    /// After storage failed in the course of a change to `voters`, and the client that
    /// asked for it was answered with the error: the change was not appended, or it was
    /// and went out to the first `n` peers.
    pub open spec fn failing_change(
        self,
        voters: Set<NodeID>,
        n: Option<nat>,
        write: Write,
        error: ErrorView,
    ) -> Led<S> {
        let led = match n {
            None => self,
            Some(n) => self.changing_partly(
                MembershipView::Joint { old: self.core.membership.active.target(), new: voters },
                n,
            ),
        };
        led.sending(
            write.from,
            MessageView::ClientResponse { id: write.id, response: Err(error) },
        )
    }

    /// Whether this is what a failure of storage in the course of a change leaves.
    pub open spec fn fails_to_change(
        self,
        voters: Set<NodeID>,
        write: Write,
        after: NodeView<S>,
    ) -> bool {
        exists|n: Option<nat>, e: ErrorView|
            after == as_leader(#[trigger] self.failing_change(voters, n, write, e))
    }

    /// Why a membership change is refused, if it is.
    pub open spec fn change_refused(self, voters: Set<NodeID>) -> Option<ErrorView> {
        if self.core.membership.change_pending {
            Some(ErrorView::InvalidInput("membership change already in progress"@))
        } else if voters == Set::<NodeID>::empty() {
            Some(ErrorView::InvalidInput("voters must not be empty"@))
        } else {
            match self.core.membership.active {
                MembershipView::Joint { .. } => Some(
                    ErrorView::InvalidInput("already in joint consensus"@),
                ),
                MembershipView::Simple(current) => if current == voters {
                    Some(ErrorView::InvalidInput("membership unchanged"@))
                } else {
                    None
                },
            }
        }
    }

    /// After a change to `voters` was proposed.
    pub open spec fn proposing_change(self, voters: Set<NodeID>) -> Led<S> {
        match self.change_refused(voters) {
            Some(e) => Led { failed: Some(e), ..self },
            None => self.changing(
                MembershipView::Joint { old: self.core.membership.active.target(), new: voters },
            ),
        }
    }

    /// The nodes whose logs are known to have the entry at `index`.
    pub open spec fn matched_at(self, index: int) -> Set<NodeID> {
        let role = self.role;
        let id = self.core.id;
        Set::new(
            |peer: NodeID|
                peer == id || (role.progress.contains_key(peer) && role.progress[peer].match_index
                    >= index),
        )
    }

    /// Whether the entry at `index` may be committed: it is of the leader's own
    /// term, and a quorum has it.
    pub open spec fn committable(self, index: int) -> bool {
        self.core.log.at(index).term == self.core.term() && self.core.quorum(
            self.matched_at(index),
        )
    }

    /// The highest index up to `index` that may be committed, or the commit index
    /// if there is none after it.
    pub open spec fn commit_target(self, index: int) -> Index
        decreases index,
    {
        if index <= self.core.log.commit_index {
            self.core.log.commit_index
        } else if self.committable(index) {
            index as u64
        } else {
            self.commit_target(index - 1)
        }
    }

    /// After one committed entry was applied and its client answered.
    pub open spec fn applying(self, entry: EntryView) -> Led<S> {
        let role = LeaderView {
            writes: self.role.writes.remove(entry.index),
            membership_writes: self.role.membership_writes.remove(entry.index),
            ..self.role
        };
        match entry.membership {
            Some(change) => {
                let bare = EntryView { command: None, membership: None, ..entry };
                let core = Core {
                    membership: committed_membership(
                        self.core.membership,
                        self.core.log,
                        entry.index,
                        change,
                    ),
                    state: S::applying(self.core.state, bare).0,
                    ..self.core
                };
                let core = if self.role.membership_writes.contains_key(entry.index) {
                    let write = self.role.membership_writes[entry.index];
                    core.sending(
                        write.from,
                        MessageView::ClientResponse {
                            id: write.id,
                            response: Ok(ResponseView::ChangeMembership { index: entry.index }),
                        },
                    )
                } else {
                    core
                };
                Led { core, role, ..self }
            },
            None => {
                let (state, result) = S::applying(self.core.state, entry);
                let core = Core { state, ..self.core };
                let core = if self.role.writes.contains_key(entry.index) {
                    let write = self.role.writes[entry.index];
                    core.sending(
                        write.from,
                        MessageView::ClientResponse {
                            id: write.id,
                            response: written(result),
                        },
                    )
                } else {
                    core
                };
                Led { core, role, ..self }
            },
        }
    }

    /// After committed entries were applied.
    pub open spec fn applying_all(self, entries: Seq<EntryView>) -> Led<S>
        decreases entries.len(),
    {
        if entries.len() == 0 {
            self
        } else {
            self.applying_all(entries.drop_last()).applying(entries.last())
        }
    }

    /// After a membership change was committed: a joint one is followed by its
    /// target configuration.
    pub open spec fn settling(self, change: MembershipView) -> Led<S> {
        if self.failed is Some {
            self
        } else {
            match change {
                MembershipView::Joint { old, new } => {
                    let led = self.changing(MembershipView::Simple(new));
                    if led.failed is Some {
                        led
                    } else {
                        led.syncing()
                    }
                },
                MembershipView::Simple(_) => self.syncing(),
            }
        }
    }

    /// Whether the leader is no longer a voter of a single configuration.
    pub open spec fn is_removed(self) -> bool {
        self.core.membership.active is Simple && !self.core.voters().contains(self.core.id)
    }

    /// After committed membership changes were dealt with, and whether the leader
    /// is to step down: a committed single configuration is without it.
    pub open spec fn settling_all(self, changes: Seq<MembershipView>) -> (Led<S>, bool)
        decreases changes.len(),
    {
        if changes.len() == 0 {
            (self, false)
        } else {
            let (led, step_down) = self.settling_all(changes.drop_last());
            let next = led.settling(changes.last());
            (
                next,
                step_down || (next.failed is None && changes.last() is Simple
                    && next.is_removed()),
            )
        }
    }

    /// Whether a quorum confirmed the leadership for the read with this number.
    pub open spec fn is_confirmed(self, seq: ReadSequence) -> bool {
        let role = self.role;
        let id = self.core.id;
        seq == 0 || self.core.quorum(
            Set::new(
                |peer: NodeID|
                    (peer == id && role.read_seq >= seq) || (role.progress.contains_key(peer)
                        && role.progress[peer].read_seq >= seq),
            ),
        )
    }

    /// After the reads at the front of the queue that are confirmed were run.
    pub open spec fn serving(self) -> Led<S>
        decreases self.role.reads.len(),
    {
        if self.role.reads.len() == 0 || !self.is_confirmed(self.role.reads[0].seq) {
            self
        } else {
            let read = self.role.reads[0];
            Led {
                core: self.core.sending(
                    read.from,
                    MessageView::ClientResponse {
                        id: read.id,
                        response: got(S::reading(self.core.state, read.command)),
                    },
                ),
                role: LeaderView { reads: self.role.reads.skip(1), ..self.role },
                ..self
            }.serving()
        }
    }

    /// After the reads that can be answered were: the leader has committed in its
    /// own term, applied what is committed, and is confirmed.
    pub open spec fn reading(self) -> Led<S> {
        if self.failed is Some || self.core.log.commit_term < self.core.term()
            || self.core.applied() < self.core.log.commit_index {
            self
        } else {
            self.serving()
        }
    }

    /// Whether enough was applied since the last snapshot.
    pub open spec fn is_snapshot_due(self) -> bool {
        let applied = self.core.applied();
        let snapshot = self.core.log.snapshot_meta().0;
        &&& self.core.opts.snapshot_threshold > 0
        &&& applied > snapshot
        &&& applied - snapshot >= self.core.opts.snapshot_threshold
    }

    /// After a snapshot was taken and the log compacted, if it is due and
    /// everything committed is applied.
    pub open spec fn snapshotting(self) -> Led<S> {
        if self.failed is None && self.is_snapshot_due() && self.core.applied()
            >= self.core.log.commit_index {
            match S::snapshotting(self.core.state) {
                Ok(data) => Led {
                    core: Core {
                        log: LogView { snapshot: Some(data), ..self.core.log }.compacting(
                            self.core.applied(),
                            self.core.log.term_at(self.core.applied() as int),
                        ),
                        ..self.core
                    },
                    ..self
                },
                Err(e) => Led { failed: Some(e), ..self },
            }
        } else {
            self
        }
    }

    /// After the leader committed and applied what a quorum has, and whether it
    /// is to step down.
    pub open spec fn committing(self) -> (Led<S>, bool) {
        let target = self.commit_target(self.core.log.last_index());
        if self.failed is Some || target <= self.core.log.commit_index {
            (self, false)
        } else {
            let led = Led {
                core: Core { log: self.core.log.committing(target), ..self.core },
                ..self
            };
            let entries = led.core.log.slice(led.core.applied() + 1, target as int);
            let (led, step_down) = led.applying_all(entries).settling_all(changes_of(entries));
            let led = if self.core.log.commit_term != self.core.term() {
                led.reading()
            } else {
                led
            };
            if step_down {
                (led, true)
            } else {
                (led.snapshotting(), false)
            }
        }
    }

    /// Whether the leader can commit now: the state machine takes what is
    /// committed, and a snapshot would cover no more than that. A state restored
    /// from a snapshot can be ahead of the commit index.
    pub open spec fn can_commit(self) -> bool {
        let target = self.commit_target(self.core.log.last_index());
        target > self.core.log.commit_index ==> {
            &&& self.core.is_writable_to(target as int)
            &&& self.core.applied() <= target || !self.is_snapshot_due()
            &&& self.core.log.last_index() + joint_count(
                changes_of(self.core.log.slice(self.core.applied() + 1, target as int)),
            ) < u64::MAX
        }
    }

    /// What holds of a leader at every moment of a step: there is room in the
    /// log, the progress of every peer is known and fits the log, and the reads
    /// that wait are ones that the state machine takes.
    pub open spec fn is_leading(self) -> bool {
        &&& self.core.log.term > 0
        &&& self.core.log.last_index() < u64::MAX
        &&& self.core.peers().subset_of(self.role.progress.dom())
        &&& forall|peer: NodeID| #[trigger]
            self.role.progress.contains_key(peer) ==> self.role.progress[peer].wf(
                self.core.log.last_index(),
            )
        &&& forall|k: int|
            0 <= k < self.role.reads.len() ==> S::takes_read(
                (#[trigger] self.role.reads[k]).command,
            )
    }

    /// What holds of a leader between steps: its last entry is of its own term,
    /// and it keeps track of its peers only.
    pub open spec fn is_settled(self) -> bool {
        &&& self.is_leading()
        &&& self.core.log.last_term() == self.core.log.term
        &&& self.role.progress.dom() == self.core.peers()
        &&& self.role.peer_seen.dom() == self.core.peers()
        &&& self.role.since_heartbeat == 0 || self.role.since_heartbeat
            < self.core.opts.heartbeat_interval
    }

    /// After a heartbeat.
    pub open spec fn heartbeating(self) -> Led<S> {
        Led {
            core: self.core.broadcasting(
                MessageView::Heartbeat {
                    last_index: self.core.log.last_index() as u64,
                    commit_index: self.core.log.commit_index,
                    read_seq: self.role.read_seq,
                },
            ),
            role: LeaderView { since_heartbeat: 0, ..self.role },
            ..self
        }
    }

    /// After `peer` was heard from.
    pub open spec fn noting(self, peer: NodeID) -> Led<S> {
        if self.role.peer_seen.contains_key(peer) {
            Led {
                role: LeaderView { peer_seen: self.role.peer_seen.insert(peer, 0), ..self.role },
                ..self
            }
        } else {
            self
        }
    }

    /// After `peer` was seen to match up to `index`, and whether the leader is to
    /// step down.
    pub open spec fn matching(self, peer: NodeID, index: Index) -> (Led<S>, bool) {
        if self.failed is Some || index <= self.role.progress[peer].match_index {
            (self, false)
        } else {
            self.with_progress(peer, self.role.progress[peer].advancing(index)).committing()
        }
    }

    /// After `peer` confirmed a read.
    pub open spec fn confirming(self, peer: NodeID, seq: ReadSequence) -> Led<S> {
        if seq <= self.role.progress[peer].read_seq {
            self
        } else {
            self.with_progress(peer, self.role.progress[peer].advancing_read(seq)).reading()
        }
    }

    /// The state of the cluster.
    pub open spec fn status(self, storage: StorageStatusView) -> StatusView {
        StatusView {
            leader: self.core.id,
            term: self.core.term(),
            match_index: self.role.progress.map_values(
                |progress: Progress| progress.match_index,
            ).insert(self.core.id, self.core.log.last_index() as u64),
            commit_index: self.core.log.commit_index,
            applied_index: self.core.applied(),
            storage,
            voters: self.core.voters(),
        }
    }
}

/// The membership changes among `entries`.
pub open spec fn changes_of(entries: Seq<EntryView>) -> Seq<MembershipView>
    decreases entries.len(),
{
    if entries.len() == 0 {
        seq![]
    } else {
        match entries.last().membership {
            Some(change) => changes_of(entries.drop_last()).push(change),
            None => changes_of(entries.drop_last()),
        }
    }
}

/// How many of `changes` are joint configurations.
pub open spec fn joint_count(changes: Seq<MembershipView>) -> nat
    decreases changes.len(),
{
    if changes.len() == 0 {
        0
    } else {
        joint_count(changes.drop_last()) + if changes.last() is Joint {
            1nat
        } else {
            0nat
        }
    }
}

/// The error of a result.
pub open spec fn error_of<T>(r: Result<T>) -> Option<ErrorView> {
    match r {
        Ok(_) => None,
        Err(e) => Some(e@),
    }
}

/// The answer to a write.
pub open spec fn written(result: Outcome) -> AnswerView {
    match result {
        Ok(data) => Ok(ResponseView::Write(data)),
        Err(e) => Err(e),
    }
}

/// The answer to a read.
pub open spec fn got(result: Outcome) -> AnswerView {
    match result {
        Ok(data) => Ok(ResponseView::Read(data)),
        Err(e) => Err(e),
    }
}

/// A leader that gives up its office, in a later term if it discovered one. What
/// its clients wait for is aborted.
pub open spec fn stepping_down<S: State>(
    core: Core<S>,
    role: LeaderView,
    term: Term,
    timeout: Ticks,
) -> (Core<S>, FollowerView) {
    let core = if term > core.term() {
        Core { log: LogView { term, vote: None, ..core.log }, ..core }
    } else {
        core
    };
    (
        core.aborting(by_id(waiting_writes(role.writes))).aborting(
            by_id(waiting_writes(role.membership_writes)),
        ).aborting(by_id(waiting_reads(role.reads))),
        new_follower(None, timeout),
    )
}

/// The node that a leader's step ends with.
pub open spec fn concluding<S: State>(
    led: Led<S>,
    step_down: bool,
    timeout: Ticks,
) -> std::result::Result<NodeView<S>, ErrorView> {
    match led.failed {
        Some(e) => Err(e),
        None => if step_down {
            let (core, role) = stepping_down(led.core, led.role, led.core.term(), timeout);
            Ok(NodeView::Follower(core, role))
        } else {
            Ok(NodeView::Leader(led.core, led.role))
        },
    }
}

impl<S: State> Led<S> {
    /// After a proposed entry waits for its client's answer; a leader that is
    /// alone commits at once.
    pub open spec fn awaiting(self, write: Write) -> (Led<S>, bool) {
        if self.failed is Some {
            (self, false)
        } else {
            let led = Led {
                role: LeaderView {
                    writes: self.role.writes.insert(
                        self.core.log.last_index() as u64,
                        write,
                    ),
                    ..self.role
                },
                ..self
            };
            if led.core.is_alone() {
                led.committing()
            } else {
                (led, false)
            }
        }
    }

    /// The same for a membership change; one that is refused is answered with
    /// the reason.
    pub open spec fn awaiting_change(self, write: Write) -> (Led<S>, bool) {
        match self.failed {
            Some(e) => (
                Led { failed: None, ..self }.sending(
                    write.from,
                    MessageView::ClientResponse { id: write.id, response: Err(e) },
                ),
                false,
            ),
            None => {
                let led = Led {
                    role: LeaderView {
                        membership_writes: self.role.membership_writes.insert(
                            self.core.log.last_index() as u64,
                            write,
                        ),
                        ..self.role
                    },
                    ..self
                };
                if led.core.is_alone() {
                    led.committing()
                } else {
                    (led, false)
                }
            },
        }
    }

    /// After a read was queued and the peers asked to confirm the leadership.
    pub open spec fn queueing(self, from: NodeID, id: RequestID, command: Seq<u8>) -> Led<S> {
        let seq = (self.role.read_seq + 1) as u64;
        let led = Led {
            core: self.core.broadcasting(MessageView::Read { seq }),
            role: LeaderView {
                read_seq: seq,
                reads: self.role.reads.push(ReadView { seq, from, id, command }),
                ..self.role
            },
            ..self
        };
        if led.core.is_alone() {
            led.reading()
        } else {
            led
        }
    }

    /// After a client's request.
    pub open spec fn requested(
        self,
        from: NodeID,
        id: RequestID,
        request: RequestView,
        storage: std::result::Result<StorageStatusView, ErrorView>,
    ) -> (Led<S>, bool) {
        match request {
            RequestView::Write(command) => self.proposing(Some(command)).awaiting(
                Write { from, id },
            ),
            RequestView::WriteSession { client_id, seq, command } => self.proposing(
                Some(session_command(client_id, seq, command)),
            ).awaiting(Write { from, id }),
            RequestView::Read(command) => (self.queueing(from, id, command), false),
            RequestView::Status => (
                self.sending(
                    from,
                    MessageView::ClientResponse {
                        id,
                        response: match storage {
                            Ok(storage) => Ok(ResponseView::Status(self.status(storage))),
                            Err(e) => Err(e),
                        },
                    },
                ),
                false,
            ),
            RequestView::ChangeMembership { voters } => self.proposing_change(
                voters,
            ).awaiting_change(Write { from, id }),
        }
    }

    /// After the answer to a heartbeat.
    pub open spec fn heard_heartbeat(
        self,
        from: NodeID,
        match_index: Index,
        read_seq: ReadSequence,
    ) -> (Led<S>, bool) {
        let last = self.core.log.last_index() as u64;
        let led = self.noting(from).confirming(from, read_seq);
        let led = if match_index == 0 {
            led.with_progress(from, led.role.progress[from].regressing(last)).sending_append(
                from,
                true,
            )
        } else {
            led
        };
        led.matching(from, match_index)
    }

    /// After a peer accepted an append or a snapshot up to `index`.
    pub open spec fn heard_match(self, from: NodeID, index: Index) -> (Led<S>, bool) {
        let (led, step_down) = self.noting(from).matching(from, index);
        (led.sending_append(from, false), step_down)
    }

    /// After a peer rejected an append at `index`.
    pub open spec fn heard_reject(self, from: NodeID, index: Index) -> Led<S> {
        let led = self.noting(from);
        let progress = led.role.progress[from];
        if index > progress.match_index && progress.regresses(index) {
            led.with_progress(from, progress.regressing(index)).sending_append(from, true)
        } else {
            led
        }
    }
}

/// The view of a storage engine's answer about its state.
pub open spec fn storage_view(r: Result<Status>) -> std::result::Result<
    StorageStatusView,
    ErrorView,
> {
    match r {
        Ok(status) => Ok(status@),
        Err(e) => Err(e@),
    }
}

/// The node that a client's request ends with.
pub open spec fn answering<S: State>(
    led: Led<S>,
    from: NodeID,
    id: RequestID,
    request: RequestView,
    storage: std::result::Result<StorageStatusView, ErrorView>,
    timeout: Ticks,
) -> std::result::Result<NodeView<S>, ErrorView> {
    let (led, step_down) = led.requested(from, id, request, storage);
    concluding(led, step_down, timeout)
}

/// A leader after a message of its own term.
pub open spec fn leader_step<S: State>(
    core: Core<S>,
    role: LeaderView,
    msg: EnvelopeView,
    timeout: Ticks,
    storage: std::result::Result<StorageStatusView, ErrorView>,
) -> std::result::Result<NodeView<S>, ErrorView> {
    let led = Led { core, role, failed: None };
    let from = msg.from;
    let known = role.progress.contains_key(from);
    match msg.message {
        MessageView::HeartbeatResponse { match_index, read_seq } if known => {
            let (led, step_down) = led.heard_heartbeat(from, match_index, read_seq);
            concluding(led, step_down, timeout)
        },
        MessageView::AppendResponse { match_index, reject_index } if known => if match_index > 0 {
            let (led, step_down) = led.heard_match(from, match_index);
            concluding(led, step_down, timeout)
        } else {
            concluding(led.heard_reject(from, reject_index), false, timeout)
        },
        MessageView::ReadResponse { seq } if known => concluding(
            led.noting(from).confirming(from, seq),
            false,
            timeout,
        ),
        MessageView::InstallSnapshotResponse { last_included_index } if known => {
            let (led, step_down) = led.heard_match(from, last_included_index);
            concluding(led, step_down, timeout)
        },
        MessageView::ClientRequest { id, request } => answering(
            led,
            from,
            id,
            request,
            storage,
            timeout,
        ),
        MessageView::Campaign { .. } => concluding(
            led.sending(from, MessageView::CampaignResponse { vote: false }),
            false,
            timeout,
        ),
        _ => concluding(led, false, timeout),
    }
}

/// A leader after a message.
pub open spec fn leader_receives<S: State>(
    core: Core<S>,
    role: LeaderView,
    msg: EnvelopeView,
    timeout: Ticks,
    storage: std::result::Result<StorageStatusView, ErrorView>,
) -> std::result::Result<NodeView<S>, ErrorView> {
    match msg.message {
        MessageView::PreCampaign { .. } => Ok(
            NodeView::Leader(
                core.sending(msg.from, MessageView::PreCampaignResponse { vote: false }),
                role,
            ),
        ),
        MessageView::PreCampaignResponse { .. } => Ok(NodeView::Leader(core, role)),
        _ => if msg.term < core.term() {
            Ok(NodeView::Leader(core, role))
        } else if msg.term > core.term() {
            let (core, role) = stepping_down(core, role, msg.term, timeout);
            follower_step(core, role, msg)
        } else {
            leader_step(core, role, msg, timeout, storage)
        },
    }
}

/// The longest silence after which a peer still counts as heard from.
pub open spec fn quorum_window(opts: Options) -> Ticks {
    if opts.election_timeout_range.end <= 2 {
        1
    } else {
        (opts.election_timeout_range.end - 1) as u8
    }
}

/// A leader after a tick: it sends a heartbeat when one is due, and steps down if
/// it has not heard from a quorum for too long.
pub open spec fn leader_ticks<S: State>(
    core: Core<S>,
    role: LeaderView,
    timeout: Ticks,
) -> NodeView<S> {
    let role = LeaderView {
        peer_seen: role.peer_seen.map_values(
            |seen: Ticks|
                if seen < u8::MAX {
                    (seen + 1) as u8
                } else {
                    seen
                },
        ),
        since_heartbeat: (role.since_heartbeat + 1) as u8,
        ..role
    };
    let led = Led { core, role, failed: None };
    let led = if role.since_heartbeat >= core.opts.heartbeat_interval {
        led.heartbeating()
    } else {
        led
    };
    let heard = Set::new(
        |peer: NodeID|
            peer == core.id || (role.peer_seen.contains_key(peer) && role.peer_seen[peer]
                < quorum_window(core.opts)),
    );
    if core.opts.check_quorum && core.voters().len() > 1 && !core.quorum(heard) {
        let (core, role) = stepping_down(led.core, led.role, led.core.term(), timeout);
        NodeView::Follower(core, role)
    } else {
        NodeView::Leader(led.core, led.role)
    }
}

// Nodes.

/// Whether a node takes messages from `from`.
pub open spec fn is_known<S: State>(core: Core<S>, from: NodeID) -> bool {
    from == core.id || core.voters().contains(from)
}

/// A node after a message. Those from strangers are dropped.
pub open spec fn stepping<S: State>(
    node: NodeView<S>,
    msg: EnvelopeView,
    timeout: Ticks,
    storage: std::result::Result<StorageStatusView, ErrorView>,
) -> std::result::Result<NodeView<S>, ErrorView> {
    if !is_known(node.base(), msg.from) {
        Ok(node)
    } else {
        match node {
            NodeView::Follower(core, role) => follower_receives(core, role, msg, timeout),
            NodeView::Candidate(core, role) => candidate_receives(core, role, msg, timeout),
            NodeView::Leader(core, role) => leader_receives(core, role, msg, timeout, storage),
        }
    }
}

/// A node after a tick.
pub open spec fn ticking<S: State>(node: NodeView<S>, timeout: Ticks) -> NodeView<S> {
    match node {
        NodeView::Follower(core, role) => follower_ticks(core, role, timeout),
        NodeView::Candidate(core, role) => candidate_ticks(core, role, timeout),
        NodeView::Leader(core, role) => leader_ticks(core, role, timeout),
    }
}

/// A node as it starts, before it applies what is committed: it has the
/// membership of its log, if there is one.
pub open spec fn opened<S: State>(
    id: NodeID,
    peers: Set<NodeID>,
    log: LogView,
    state: S::Model,
    opts: Options,
) -> Core<S> {
    let membership = match log.latest_membership() {
        Some((index, change)) => last_membership(index, change, log.commit_index),
        None => MembershipStateView {
            active: MembershipView::Simple(peers.insert(id)),
            change_pending: false,
        },
    };
    Core { id, membership, log, state, out: seq![], opts }
}

/// The error of a node that is given as its own peer.
pub open spec fn own_peer(id: NodeID) -> ErrorView {
    ErrorView::InvalidInput("node ID "@ + decimal(id as nat) + " can't be in peers"@)
}

/// A node as it starts: it applies what is committed, and leads at once if it is
/// alone.
pub open spec fn starting<S: State>(
    id: NodeID,
    peers: Set<NodeID>,
    log: LogView,
    state: S::Model,
    opts: Options,
    timeout: Ticks,
) -> std::result::Result<NodeView<S>, ErrorView> {
    if peers.contains(id) {
        Err(own_peer(id))
    } else {
        let core = applying_committed(opened::<S>(id, peers, log, state, opts));
        let role = new_follower(None, timeout);
        if core.is_alone() {
            winning(becoming_candidate(core, role, false, timeout).0)
        } else {
            Ok(NodeView::Follower(core, role))
        }
    }
}

/// Whether a node can start: the state machine takes what is committed, and a
/// node that is alone can win its election.
pub open spec fn can_start<S: State>(
    id: NodeID,
    peers: Set<NodeID>,
    log: LogView,
    state: S::Model,
    opts: Options,
) -> bool {
    &&& opts.election_timeout_range.start < opts.election_timeout_range.end
    &&& !peers.contains(id) ==> {
        let core = opened::<S>(id, peers, log, state, opts);
        let ready = applying_committed(core);
        &&& core.is_writable()
        &&& ready.is_alone() ==> {
            &&& log.term < u64::MAX
            &&& can_win(becoming_candidate(ready, new_follower(None, 0), false, 0).0)
        }
    }
}

// What a node can be given. Anything else breaks the protocol.

/// Whether a node can follow `from` as the leader of its term.
pub open spec fn can_follow<S: State>(core: Core<S>, role: FollowerView, from: NodeID) -> bool {
    role.leader is None ==> core.voters().contains(from) && core.term() != 0
}

/// Whether a follower can take a message of its own term.
pub open spec fn follower_takes<S: State>(
    core: Core<S>,
    role: FollowerView,
    msg: EnvelopeView,
) -> bool {
    let foreign = is_foreign(role, msg.from);
    match msg.message {
        MessageView::Heartbeat { last_index, commit_index, .. } => {
            &&& commit_index <= last_index
            &&& !foreign ==> {
                &&& can_follow(core, role, msg.from)
                &&& core.log.has(last_index as int, msg.term) ==> core.is_writable_to(
                    commit_index as int,
                )
            }
        },
        MessageView::Append { base_index, base_term, entries } => {
            &&& entries.len() > 0 ==> entries[0].index == base_index + 1
            &&& !foreign ==> {
                &&& can_follow(core, role, msg.from)
                &&& base_index == 0 || core.log.has(base_index as int, base_term)
                    ==> core.log.spliceable(entries)
            }
        },
        MessageView::Read { .. } => !foreign ==> can_follow(core, role, msg.from),
        MessageView::Campaign { last_index, last_term } => grants_vote(
            core,
            msg.from,
            last_index,
            last_term,
        ) ==> core.term() > 0,
        MessageView::InstallSnapshot { last_included_index, .. } => !foreign ==> {
            &&& can_follow(core, role, msg.from)
            &&& installs(core, last_included_index) ==> last_included_index < u64::MAX
        },
        MessageView::HeartbeatResponse { .. } => false,
        MessageView::AppendResponse { .. } => false,
        MessageView::ReadResponse { .. } => false,
        _ => true,
    }
}

/// Whether a message is about a pre-vote.
pub open spec fn is_prevote(message: MessageView) -> bool {
    message is PreCampaign || message is PreCampaignResponse
}

/// Whether a follower can take a message.
pub open spec fn follower_admits<S: State>(
    core: Core<S>,
    role: FollowerView,
    msg: EnvelopeView,
) -> bool {
    if is_prevote(msg.message) || msg.term < core.term() {
        true
    } else if msg.term > core.term() {
        let (core, role) = discovering(core, role, msg.term, 0);
        follower_takes(core, role, msg)
    } else {
        follower_takes(core, role, msg)
    }
}

impl<S: State> Led<S> {
    /// Whether a peer can be seen to match up to `index`.
    pub open spec fn can_match(self, peer: NodeID, index: Index) -> bool {
        index > self.role.progress[peer].match_index ==> {
            &&& index <= self.core.log.last_index()
            &&& self.with_progress(
                peer,
                self.role.progress[peer].advancing(index),
            ).can_commit()
        }
    }

    /// Whether a proposed entry can be committed at once where it is.
    pub open spec fn can_await(self) -> bool {
        self.failed is None && self.core.is_alone() ==> self.can_commit()
    }

    /// Whether a client's request can be taken.
    pub open spec fn can_serve(self, request: RequestView) -> bool {
        match request {
            RequestView::Write(command) => {
                &&& self.core.log.last_index() + 1 < u64::MAX
                &&& self.proposing(Some(command)).can_await()
            },
            RequestView::WriteSession { client_id, seq, command } => {
                &&& self.core.log.last_index() + 1 < u64::MAX
                &&& self.proposing(Some(session_command(client_id, seq, command))).can_await()
            },
            RequestView::Read(command) => {
                &&& self.role.read_seq < u64::MAX
                &&& S::takes_read(command)
            },
            RequestView::Status => true,
            RequestView::ChangeMembership { voters } => self.change_refused(voters) is None ==> {
                &&& self.core.log.last_index() + 1 < u64::MAX
                &&& self.proposing_change(voters).can_await()
            },
        }
    }
}

/// Whether a leader can take a message of its own term.
pub open spec fn leader_takes<S: State>(
    core: Core<S>,
    role: LeaderView,
    msg: EnvelopeView,
) -> bool {
    let led = Led { core, role, failed: None };
    let from = msg.from;
    let known = role.progress.contains_key(from);
    match msg.message {
        MessageView::HeartbeatResponse { match_index, read_seq } => known ==> {
            &&& match_index <= core.log.last_index()
            &&& read_seq <= role.read_seq
            &&& led.noting(from).confirming(from, read_seq).can_match(from, match_index)
        },
        MessageView::AppendResponse { match_index, reject_index } => {
            &&& (match_index > 0) != (reject_index > 0)
            &&& known ==> {
                &&& match_index <= core.log.last_index()
                &&& reject_index <= core.log.last_index()
                &&& led.noting(from).can_match(from, match_index)
            }
        },
        MessageView::InstallSnapshotResponse { last_included_index } => known ==> led.noting(
            from,
        ).can_match(from, last_included_index),
        MessageView::ClientRequest { request, .. } => led.can_serve(request),
        MessageView::ClientResponse { .. } => false,
        _ => true,
    }
}

/// Whether a leader can take a message.
pub open spec fn leader_admits<S: State>(
    core: Core<S>,
    role: LeaderView,
    msg: EnvelopeView,
) -> bool {
    if is_prevote(msg.message) || msg.term < core.term() {
        true
    } else if msg.term > core.term() {
        let (core, role) = stepping_down(core, role, msg.term, 0);
        follower_takes(core, role, msg)
    } else {
        leader_takes(core, role, msg)
    }
}

/// Whether a candidate can win its election.
pub open spec fn can_win<S: State>(core: Core<S>) -> bool {
    &&& core.log.last_index() + 1 < u64::MAX
    &&& {
        let led = Led {
            core,
            role: new_leader(core.peers(), core.log.last_index()),
            failed: None,
        }.proposing(None);
        led.failed is None ==> led.can_commit()
    }
}

/// Whether a candidate can take a message of its own term.
pub open spec fn candidate_takes<S: State>(
    core: Core<S>,
    role: CandidateView,
    msg: EnvelopeView,
) -> bool {
    let follower = new_follower(Some(msg.from), 0);
    match msg.message {
        MessageView::CampaignResponse { vote } => vote && role.phase == ElectionPhase::Election
            && core.quorum(counting(core, role, msg.from)) ==> can_win(core),
        MessageView::Heartbeat { .. } => follower_takes(core, follower, msg),
        MessageView::Append { .. } => follower_takes(core, follower, msg),
        MessageView::Read { .. } => follower_takes(core, follower, msg),
        MessageView::InstallSnapshot { .. } => follower_takes(core, follower, msg),
        MessageView::HeartbeatResponse { .. } => false,
        MessageView::AppendResponse { .. } => false,
        MessageView::ReadResponse { .. } => false,
        MessageView::ClientResponse { .. } => false,
        _ => true,
    }
}

/// Whether a candidate can take a message.
pub open spec fn candidate_admits<S: State>(
    core: Core<S>,
    role: CandidateView,
    msg: EnvelopeView,
) -> bool {
    match msg.message {
        MessageView::PreCampaign { .. } => true,
        MessageView::PreCampaignResponse { vote } => vote && role.phase == ElectionPhase::PreVote
            && core.quorum(counting(core, role, msg.from)) ==> {
            &&& core.term() < u64::MAX
            &&& core.quorum(set![core.id]) ==> can_win(campaigning(core, 0).0)
        },
        _ => if msg.term < core.term() {
            true
        } else if msg.term > core.term() {
            let (core, role) = conceding(core, msg.term, 0);
            follower_takes(core, role, msg)
        } else {
            candidate_takes(core, role, msg)
        },
    }
}

/// Whether a node can take a message: it is addressed to it, and keeps to the
/// protocol.
pub open spec fn admits<S: State>(node: NodeView<S>, msg: EnvelopeView) -> bool {
    &&& msg.to == node.base().id
    &&& is_known(node.base(), msg.from) ==> match node {
        NodeView::Follower(core, role) => follower_admits(core, role, msg),
        NodeView::Candidate(core, role) => candidate_admits(core, role, msg),
        NodeView::Leader(core, role) => leader_admits(core, role, msg),
    }
}

/// Whether a node can take a tick: there is a next term if it starts an election.
pub open spec fn can_tick<S: State>(node: NodeView<S>) -> bool {
    match node {
        NodeView::Follower(core, role) => role.leader_seen + 1 >= role.election_timeout
            ==> core.term() < u64::MAX,
        NodeView::Candidate(core, role) => role.election_duration + 1 >= role.election_timeout
            ==> core.term() < u64::MAX,
        NodeView::Leader(..) => true,
    }
}

// What a node makes durable before it answers.

/// Whether a message asks for something that has to be durable before it is answered:
/// a vote, and entries unless flushing is turned off.
pub open spec fn is_binding(message: MessageView, fsync: bool) -> bool {
    message is Campaign || (message is Append && fsync)
}

/// Whether a log has the same term, vote and entries.
pub open spec fn is_same_log(a: LogView, b: LogView) -> bool {
    a.term == b.term && a.vote == b.vote && a.entries == b.entries
}

// What a node deals with in memory alone. Storage cannot fail on it.

/// Whether a follower touches no storage for a message of its own term.
pub open spec fn follower_is_quiet<S: State>(
    core: Core<S>,
    role: FollowerView,
    msg: EnvelopeView,
) -> bool {
    match msg.message {
        MessageView::Heartbeat { .. } => is_foreign(role, msg.from),
        MessageView::Append { .. } => is_foreign(role, msg.from),
        MessageView::InstallSnapshot { .. } => is_foreign(role, msg.from),
        MessageView::Campaign { last_index, last_term } => !grants_vote(
            core,
            msg.from,
            last_index,
            last_term,
        ),
        _ => true,
    }
}

/// Whether a candidate touches no storage for a message.
pub open spec fn candidate_is_quiet<S: State>(
    core: Core<S>,
    role: CandidateView,
    msg: EnvelopeView,
) -> bool {
    let enough = core.quorum(counting(core, role, msg.from));
    match msg.message {
        MessageView::PreCampaign { .. } => true,
        MessageView::PreCampaignResponse { vote } => !(vote && role.phase == ElectionPhase::PreVote
            && enough),
        MessageView::CampaignResponse { vote } => msg.term < core.term() || (msg.term
            == core.term() && !(vote && role.phase == ElectionPhase::Election && enough)),
        MessageView::Heartbeat { .. } => msg.term < core.term(),
        MessageView::Append { .. } => msg.term < core.term(),
        MessageView::InstallSnapshot { .. } => msg.term < core.term(),
        _ => msg.term <= core.term(),
    }
}

/// Whether a leader touches no storage for a message of its own term.
pub open spec fn leader_is_quiet(role: LeaderView, msg: EnvelopeView) -> bool {
    match msg.message {
        MessageView::HeartbeatResponse { .. } => !role.progress.contains_key(msg.from),
        MessageView::AppendResponse { .. } => !role.progress.contains_key(msg.from),
        MessageView::InstallSnapshotResponse { .. } => !role.progress.contains_key(msg.from),
        MessageView::ClientRequest { request, .. } => request is Read,
        _ => true,
    }
}

/// Whether a node touches no storage for a message: one from a stranger, of a past
/// term or of a poll that is not won, a client's request to a follower, and others.
pub open spec fn is_quiet<S: State>(node: NodeView<S>, msg: EnvelopeView) -> bool {
    ||| !is_known(node.base(), msg.from)
    ||| match node {
        NodeView::Follower(core, role) => is_prevote(msg.message) || msg.term < core.term() || (
        msg.term == core.term() && follower_is_quiet(core, role, msg)),
        NodeView::Candidate(core, role) => candidate_is_quiet(core, role, msg),
        NodeView::Leader(core, role) => is_prevote(msg.message) || msg.term < core.term() || (
        msg.term == core.term() && leader_is_quiet(role, msg)),
    }
}

/// Whether a node touches no storage for a tick: it is a leader, or starts no
/// election, or polls again before one.
pub open spec fn is_quiet_tick<S: State>(node: NodeView<S>) -> bool {
    match node {
        NodeView::Follower(_, role) => role.leader_seen + 1 < role.election_timeout,
        NodeView::Candidate(core, role) => role.election_duration + 1 < role.election_timeout || (
        core.opts.pre_vote && !core.is_alone() && !core.quorum(set![core.id])),
        NodeView::Leader(..) => true,
    }
}

// What a node deals with in part if storage fails.

/// Whether a storage failure can leave a node in disorder although it takes a message:
/// one from somebody that it knows.
pub open spec fn is_risky<S: State>(node: NodeView<S>, msg: EnvelopeView) -> bool {
    is_known(node.base(), msg.from) && risks(node, msg)
}

/// A leader as a node.
pub open spec fn as_leader<S: State>(led: Led<S>) -> NodeView<S> {
    NodeView::Leader(led.core, led.role)
}

/// Whether a leader is left by a message that asked it for a membership change as
/// storage failed in the course of it, with the client answered.
pub open spec fn is_left_by<S: State>(
    before: NodeView<S>,
    msg: EnvelopeView,
    after: NodeView<S>,
) -> bool {
    match (before, msg.message) {
        (
            NodeView::Leader(core, role),
            MessageView::ClientRequest { id, request: RequestView::ChangeMembership { voters } },
        ) => {
            let led = Led { core, role, failed: None };
            &&& led.change_refused(voters) is None
            &&& led.fails_to_change(voters, Write { from: msg.from, id }, after)
        },
        _ => false,
    }
}

/// Whether taking a message makes a node propose a membership change or install a
/// snapshot. A failure on the way to the first is answered to the client; an entry
/// that cannot be read is left behind by the second.
pub open spec fn risks<S: State>(node: NodeView<S>, msg: EnvelopeView) -> bool {
    let term = node.base().term();
    match msg.message {
        MessageView::ClientRequest { request: RequestView::ChangeMembership { voters }, .. } => {
            &&& msg.term == term
            &&& node matches NodeView::Leader(core, role)
            &&& Led { core, role, failed: None }.change_refused(voters) is None
        },
        MessageView::InstallSnapshot { last_included_index, .. } => {
            &&& installs(node.base(), last_included_index)
            &&& msg.term > term || msg.term == term && match node {
                NodeView::Follower(_, role) => !is_foreign(role, msg.from),
                NodeView::Candidate(..) => true,
                NodeView::Leader(..) => false,
            }
        },
        _ => false,
    }
}

} // verus!
