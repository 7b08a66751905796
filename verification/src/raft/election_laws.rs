//! What elections are for: who is voted for, who is supported, who comes to lead, and
//! when a node starts an election or gives up its office.

use vstd::prelude::*;

use super::entry::{EntryView, Index, Term};
use super::ids::{ascending, lemma_ascending, NodeID};
use super::laws::commits_need_a_quorum;
use super::log::LogView;
use super::log_laws::is_consistent;
use super::membership::MembershipView;
use super::message::{EnvelopeView, MessageView};
use super::model::{
    aborting_forwarded, applying_committed, new_leader, quorum_window, stepping, ticking, winning,
    CandidateView, Core, ElectionPhase, FollowerView, LeaderView, Led, NodeView, Progress, ReadView,
    Ticks, Write,
};
use super::state::State;
use crate::error::ErrorView;
use crate::storage::engine::StatusView;

verus! {

/// What storage says of itself.
pub type Storage = std::result::Result<StatusView, ErrorView>;

// Votes.

/// A log ends with its last entry, or where its snapshot does if it has no entries.
pub proof fn logs_end_with_their_last_entry(log: LogView)
    requires
        is_consistent(log),
    ensures
        log.entries.len() > 0 ==> {
            &&& log.last_index() == log.entries.last().index
            &&& log.last_term() == log.entries.last().term
        },
        log.entries.len() == 0 ==> {
            &&& log.last_index() == log.first_index - 1
            &&& log.last_index() == 0 ==> log.snapshot_meta() == (0u64, 0u64)
            &&& log.last_index() > 0 ==> log.snapshot_meta().0 == log.last_index()
            &&& log.kept_term is None && log.last_index() > 0 ==> log.last_term()
                == log.snapshot_meta().1
        },
{
}

/// A node in a candidate's term, or before it, that has not voted for another in that
/// term votes for the candidate if and only if the candidate's last entry is of a later
/// term than its own last one, or of the same term and at no earlier an index. The vote is
/// noted with the term. It is answered once.
#[verifier::rlimit(40)]
#[verifier::spinoff_prover]
pub proof fn votes_go_to_current_logs<S: State>(
    node: NodeView<S>,
    msg: EnvelopeView,
    last_index: Index,
    last_term: Term,
    timeout: Ticks,
    storage: Storage,
)
    requires
        node.base().voters().contains(msg.from),
        msg.message == (MessageView::Campaign { last_index, last_term }),
        msg.term > node.base().term() || (node is Follower && msg.term == node.base().term()),
    ensures
        ({
            let own = node.base().log;
            let free = msg.term > own.term || own.vote is None || own.vote == Some(msg.from);
            let later = last_term > own.last_term();
            let longer = last_term == own.last_term() && last_index >= own.last_index();
            let vote = free && (later || longer);
            let answer = EnvelopeView {
                from: node.base().id,
                term: msg.term,
                to: msg.from,
                message: MessageView::CampaignResponse { vote },
            };
            &&& stepping(node, msg, timeout, storage) matches Ok(next)
            &&& next is Follower
            &&& next.base().out.last() == answer
            &&& msg.term == own.term ==> next.base().out == node.base().out.push(answer)
            &&& next.base().log.entries == own.entries
            &&& next.base().log.term == msg.term
            &&& next.base().log.vote == if vote {
                Some(msg.from)
            } else if msg.term > own.term {
                None
            } else {
                own.vote
            }
        }),
{
}

/// A candidate or a leader has voted for itself, and refuses its vote to every other
/// candidate of its term.
#[verifier::rlimit(40)]
pub proof fn rivals_are_refused<S: State>(
    node: NodeView<S>,
    msg: EnvelopeView,
    timeout: Ticks,
    storage: Storage,
)
    requires
        node.base().voters().contains(msg.from),
        msg.message is Campaign,
        msg.term == node.base().term(),
        node !is Follower,
    ensures
        ({
            &&& stepping(node, msg, timeout, storage) matches Ok(next)
            &&& next.silenced() == node.silenced()
            &&& next.base().out == node.base().out.push(
                EnvelopeView {
                    from: node.base().id,
                    term: msg.term,
                    to: msg.from,
                    message: MessageView::CampaignResponse { vote: false },
                },
            )
        }),
{
}

/// What a candidate that ends its log like `log` asks for.
pub open spec fn asks_with(log: LogView, from: NodeID, to: NodeID, term: Term) -> EnvelopeView {
    EnvelopeView {
        from,
        term,
        to,
        message: MessageView::Campaign {
            last_index: log.last_index() as u64,
            last_term: log.last_term(),
        },
    }
}

/// Of any two nodes at least one would vote for the other in a later term: an election
/// is never refused on both sides on account of the logs.
#[verifier::rlimit(40)]
pub proof fn one_of_two_is_electable<S: State>(
    a: NodeView<S>,
    b: NodeView<S>,
    term: Term,
    timeout: Ticks,
    storage: Storage,
)
    requires
        a.base().voters().contains(b.base().id),
        b.base().voters().contains(a.base().id),
        a.base().term() < term,
        b.base().term() < term,
        0 <= a.base().log.last_index() <= u64::MAX,
        0 <= b.base().log.last_index() <= u64::MAX,
    ensures
        ({
            let (x, y) = (a.base().id, b.base().id);
            let by_a = stepping(a, asks_with(b.base().log, y, x, term), timeout, storage);
            let by_b = stepping(b, asks_with(a.base().log, x, y, term), timeout, storage);
            ||| by_a matches Ok(next) && next.base().log.vote == Some(y)
                && next.base().out.last().message == (MessageView::CampaignResponse { vote: true })
            ||| by_b matches Ok(next) && next.base().log.vote == Some(x)
                && next.base().out.last().message == (MessageView::CampaignResponse { vote: true })
        }),
{
}

/// A log that gets a node's vote still gets it with a later last term, whatever its
/// length, and with a later last index in the same term.
#[verifier::rlimit(40)]
pub proof fn better_logs_get_the_vote<S: State>(
    node: NodeView<S>,
    msg: EnvelopeView,
    last_index: Index,
    last_term: Term,
    better: EnvelopeView,
    index: Index,
    term: Term,
    timeout: Ticks,
    storage: Storage,
)
    requires
        node.base().voters().contains(msg.from),
        msg.message == (MessageView::Campaign { last_index, last_term }),
        msg.term > node.base().term() || (node is Follower && msg.term == node.base().term()),
        better == (EnvelopeView {
            message: MessageView::Campaign { last_index: index, last_term: term },
            ..msg
        }),
        term > last_term || (term == last_term && index >= last_index),
        stepping(node, msg, timeout, storage) matches Ok(next) && next.base().out.last().message
            == (MessageView::CampaignResponse { vote: true }),
    ensures
        stepping(node, better, timeout, storage) matches Ok(next)
            && next.base().out.last().message == (MessageView::CampaignResponse { vote: true }),
{
}

// Pre-votes.

/// A follower that knows a leader and has heard from it within its election timeout
/// refuses its support to everyone, whatever term and log it is asked for.
#[verifier::rlimit(40)]
pub proof fn led_followers_support_nobody<S: State>(
    core: Core<S>,
    role: FollowerView,
    msg: EnvelopeView,
    timeout: Ticks,
    storage: Storage,
)
    requires
        core.voters().contains(msg.from),
        msg.message is PreCampaign,
        role.leader is Some,
        role.leader_seen < role.election_timeout,
    ensures
        stepping(NodeView::Follower(core, role), msg, timeout, storage) == Ok::<
            NodeView<S>,
            ErrorView,
        >(
            NodeView::Follower(
                Core {
                    out: core.out.push(
                        EnvelopeView {
                            from: core.id,
                            term: core.term(),
                            to: msg.from,
                            message: MessageView::PreCampaignResponse { vote: false },
                        },
                    ),
                    ..core
                },
                role,
            ),
        ),
{
}

/// A follower that does not hear from a leader, and a candidate, supports whoever asks
/// if and only if it is for a term later than its own, and the asker's last entry is of a
/// later term than its own last one, or of the same term and at no earlier an index.
#[verifier::rlimit(40)]
pub proof fn others_support_current_logs<S: State>(
    node: NodeView<S>,
    msg: EnvelopeView,
    last_index: Index,
    last_term: Term,
    timeout: Ticks,
    storage: Storage,
)
    requires
        node.base().voters().contains(msg.from),
        msg.message == (MessageView::PreCampaign { last_index, last_term }),
        node !is Leader,
        node matches NodeView::Follower(_, role) ==> role.leader is None || role.leader_seen
            >= role.election_timeout,
    ensures
        ({
            let own = node.base().log;
            let later = last_term > own.last_term();
            let longer = last_term == own.last_term() && last_index >= own.last_index();
            &&& stepping(node, msg, timeout, storage) matches Ok(next)
            &&& next.silenced() == node.silenced()
            &&& next.base().out == node.base().out.push(
                EnvelopeView {
                    from: node.base().id,
                    term: own.term,
                    to: msg.from,
                    message: MessageView::PreCampaignResponse {
                        vote: msg.term > own.term && (later || longer),
                    },
                },
            )
        }),
{
}

/// A leader supports nobody else.
#[verifier::rlimit(40)]
pub proof fn leaders_support_nobody<S: State>(
    core: Core<S>,
    role: LeaderView,
    msg: EnvelopeView,
    timeout: Ticks,
    storage: Storage,
)
    requires
        core.voters().contains(msg.from),
        msg.message is PreCampaign,
    ensures
        ({
            let node = NodeView::Leader(core, role);
            &&& stepping(node, msg, timeout, storage) matches Ok(next)
            &&& next.silenced() == node.silenced()
            &&& next.base().out == core.out.push(
                EnvelopeView {
                    from: core.id,
                    term: core.term(),
                    to: msg.from,
                    message: MessageView::PreCampaignResponse { vote: false },
                },
            )
        }),
{
}

/// Hearing from its leader protects it: right after a message of its leader in its term, a
/// follower with an election timeout refuses every request for support.
#[verifier::rlimit(40)]
#[verifier::spinoff_prover]
pub proof fn heard_leaders_are_protected<S: State>(
    core: Core<S>,
    role: FollowerView,
    heard: EnvelopeView,
    msg: EnvelopeView,
    timeout: Ticks,
    storage: Storage,
)
    requires
        core.voters().contains(heard.from),
        core.voters().contains(msg.from),
        heard.term == core.term(),
        heard.message is Heartbeat || heard.message is Append || heard.message is Read,
        role.leader is None || role.leader == Some(heard.from),
        role.election_timeout > 0,
        msg.message is PreCampaign,
        ({
            let first = stepping(NodeView::Follower(core, role), heard, timeout, storage);
            first matches Ok(next) && next.base().voters().contains(msg.from)
        }),
    ensures
        ({
            let first = stepping(NodeView::Follower(core, role), heard, timeout, storage);
            &&& first matches Ok(next)
            &&& next matches NodeView::Follower(_, led)
            &&& led.leader == Some(heard.from)
            &&& led.leader_seen == 0
            &&& stepping(next, msg, timeout, storage) matches Ok(after)
            &&& after.base().out.last().message == (MessageView::PreCampaignResponse {
                vote: false,
            })
        }),
{
}

// Terms.

/// A node that hears of a later term, other than in a pre-vote, is a follower in that term
/// from then on. It has voted in it for nobody but whoever asked, and its election timeout
/// starts anew.
#[verifier::rlimit(40)]
#[verifier::spinoff_prover]
pub proof fn later_terms_are_adopted<S: State>(
    node: NodeView<S>,
    msg: EnvelopeView,
    timeout: Ticks,
    storage: Storage,
)
    requires
        node.base().voters().contains(msg.from),
        msg.term > node.base().term(),
        msg.message !is PreCampaign,
        msg.message !is PreCampaignResponse,
        stepping(node, msg, timeout, storage) is Ok,
    ensures
        ({
            &&& stepping(node, msg, timeout, storage) matches Ok(NodeView::Follower(next, role))
            &&& next.log.term == msg.term
            &&& next.log.vote is None || (msg.message is Campaign && next.log.vote == Some(
                msg.from,
            ))
            &&& role.election_timeout == timeout
            &&& role.leader_seen == 0
            &&& role.leader == if msg.message is Heartbeat || msg.message is Append
                || msg.message is Read || msg.message is InstallSnapshot {
                Some(msg.from)
            } else {
                None
            }
        }),
{
}

/// A follower takes orders from one leader in a term: what another node sends that only a
/// leader sends changes nothing.
#[verifier::rlimit(40)]
pub proof fn followers_have_one_leader<S: State>(
    core: Core<S>,
    role: FollowerView,
    msg: EnvelopeView,
    timeout: Ticks,
    storage: Storage,
)
    requires
        msg.term == core.term(),
        role.leader is Some,
        role.leader != Some(msg.from),
        msg.message is Heartbeat || msg.message is Append || msg.message is Read
            || msg.message is InstallSnapshot,
    ensures
        stepping(NodeView::Follower(core, role), msg, timeout, storage) == Ok::<
            NodeView<S>,
            ErrorView,
        >(NodeView::Follower(core, role)),
{
}

// Starting an election.

/// Whether a message went out to each of these nodes and, after `before`, no other.
pub open spec fn goes_to_all(
    before: Seq<EnvelopeView>,
    after: Seq<EnvelopeView>,
    ids: Set<NodeID>,
    from: NodeID,
    term: Term,
    message: MessageView,
) -> bool {
    &&& before.len() <= after.len()
    &&& after.take(before.len() as int) == before
    &&& forall|id: NodeID|
        ids.contains(id) ==> exists|k: int|
            before.len() <= k < after.len() && #[trigger] after[k] == (EnvelopeView {
                from,
                term,
                to: id,
                message,
            })
    &&& forall|k: int|
        before.len() <= k < after.len() ==> ids.contains((#[trigger] after[k]).to)
            && after[k] == (EnvelopeView { from, term, to: after[k].to, message })
    &&& forall|j: int, k: int|
        before.len() <= j < k < after.len() ==> (#[trigger] after[j]).to < (
        #[trigger] after[k]).to
}

pub(crate) proof fn lemma_goes_to_all<S: State>(
    core: Core<S>,
    ids: Set<NodeID>,
    term: Term,
    message: MessageView,
)
    ensures
        goes_to_all(
            core.out,
            core.sending_all(term, ascending(ids), message).out,
            ids,
            core.id,
            term,
            message,
        ),
{
    lemma_ascending(ids);
    let to = ascending(ids);
    let after = core.sending_all(term, to, message).out;
    let n = core.out.len() as int;
    assert(after.take(n) =~= core.out);
    assert forall|id: NodeID| ids.contains(id) implies exists|k: int|
        n <= k < after.len() && #[trigger] after[k] == (EnvelopeView {
            from: core.id,
            term,
            to: id,
            message,
        }) by {
        assert(to.to_set().contains(id));
        let k = choose|k: int| 0 <= k < to.len() && to[k] == id;
        assert(after[n + k].to == id);
    }
    assert forall|k: int| n <= k < after.len() implies ids.contains((#[trigger] after[k]).to)
        && after[k] == (EnvelopeView { from: core.id, term, to: after[k].to, message }) by {
        assert(after[k].to == to[k - n]);
        assert(to.to_set().contains(to[k - n]));
    }
    assert forall|j: int, k: int| n <= j < k < after.len() implies (#[trigger] after[j]).to < (
    #[trigger] after[k]).to by {
        assert(to[j - n] < to[k - n]);
    }
}

/// A follower that has heard from its leader within its election timeout, this tick
/// included, only counts the tick.
pub proof fn led_followers_wait<S: State>(core: Core<S>, role: FollowerView, timeout: Ticks)
    requires
        role.leader_seen + 1 < role.election_timeout,
    ensures
        ticking(NodeView::Follower(core, role), timeout) == NodeView::Follower(
            core,
            FollowerView { leader_seen: (role.leader_seen + 1) as u8, ..role },
        ),
{
}

/// A follower that has not heard from a leader for its election timeout starts an
/// election. Without pre-votes it raises its term by one, votes for itself and asks every
/// peer for its vote, with the end of its log.
pub proof fn unled_followers_campaign<S: State>(core: Core<S>, role: FollowerView, timeout: Ticks)
    requires
        role.leader_seen + 1 >= role.election_timeout,
        role.leader_seen < u8::MAX,
        core.term() < u64::MAX,
        !core.opts.pre_vote,
    ensures
        ({
            let start = applying_committed(aborting_forwarded(core, role));
            &&& ticking(NodeView::Follower(core, role), timeout) matches NodeView::Candidate(
                next,
                candidate,
            )
            &&& next.log == (LogView {
                term: (core.term() + 1) as u64,
                vote: Some(core.id),
                ..core.log
            })
            &&& candidate.phase == ElectionPhase::Election
            &&& candidate.votes == set![core.id]
            &&& candidate.election_duration == 0
            &&& candidate.election_timeout == timeout
            &&& goes_to_all(
                start.out,
                next.out,
                start.peers(),
                core.id,
                next.log.term,
                MessageView::Campaign {
                    last_index: core.log.last_index() as u64,
                    last_term: core.log.last_term(),
                },
            )
        }),
{
    let start = applying_committed(aborting_forwarded(core, role));
    let raised = Core {
        log: LogView { term: (start.log.term + 1) as u64, vote: Some(start.id), ..start.log },
        ..start
    };
    lemma_goes_to_all(
        raised,
        raised.peers(),
        raised.log.term,
        MessageView::Campaign {
            last_index: raised.log.last_index() as u64,
            last_term: raised.log.last_term(),
        },
    );
}

/// With pre-votes it first asks every peer for its support for the next term, with the
/// end of its log, while its own term and vote stay, unless its own support is enough.
pub proof fn unled_followers_poll<S: State>(core: Core<S>, role: FollowerView, timeout: Ticks)
    requires
        role.leader_seen + 1 >= role.election_timeout,
        role.leader_seen < u8::MAX,
        core.term() < u64::MAX,
        core.opts.pre_vote,
        ({
            let start = applying_committed(aborting_forwarded(core, role));
            start.voters().len() != 1 && !start.quorum(set![core.id])
        }),
    ensures
        ({
            let start = applying_committed(aborting_forwarded(core, role));
            &&& ticking(NodeView::Follower(core, role), timeout) matches NodeView::Candidate(
                next,
                candidate,
            )
            &&& next.log == core.log
            &&& candidate.phase == ElectionPhase::PreVote
            &&& candidate.votes == set![core.id]
            &&& candidate.election_duration == 0
            &&& candidate.election_timeout == timeout
            &&& goes_to_all(
                start.out,
                next.out,
                start.peers(),
                core.id,
                (core.term() + 1) as u64,
                MessageView::PreCampaign {
                    last_index: core.log.last_index() as u64,
                    last_term: core.log.last_term(),
                },
            )
        }),
{
    let start = applying_committed(aborting_forwarded(core, role));
    lemma_goes_to_all(
        start,
        start.peers(),
        (start.log.term + 1) as u64,
        MessageView::PreCampaign {
            last_index: start.log.last_index() as u64,
            last_term: start.log.last_term(),
        },
    );
}

/// A candidate waits for its election timeout, counting the ticks. Then it starts over:
/// without pre-votes in the next term, with them for the next term.
pub proof fn candidates_start_over<S: State>(core: Core<S>, role: CandidateView, timeout: Ticks)
    requires
        role.election_duration < u8::MAX,
        core.term() < u64::MAX,
    ensures
        ({
            let next = ticking(NodeView::Candidate(core, role), timeout);
            let alone = core.voters().len() == 1 || core.quorum(set![core.id]);
            &&& next is Candidate
            &&& role.election_duration + 1 < role.election_timeout ==> next == NodeView::Candidate(
                core,
                CandidateView {
                    election_duration: (role.election_duration + 1) as u8,
                    ..role
                },
            )
            &&& role.election_duration + 1 >= role.election_timeout ==> {
                &&& next->Candidate_1.votes == set![core.id]
                &&& next->Candidate_1.election_duration == 0
                &&& next->Candidate_1.election_timeout == timeout
                &&& next->Candidate_1.phase == if core.opts.pre_vote && !alone {
                    ElectionPhase::PreVote
                } else {
                    ElectionPhase::Election
                }
                &&& !core.opts.pre_vote ==> {
                    &&& next.base().log == (LogView {
                        term: (core.term() + 1) as u64,
                        vote: Some(core.id),
                        ..core.log
                    })
                    &&& goes_to_all(
                        core.out,
                        next.base().out,
                        core.peers(),
                        core.id,
                        (core.term() + 1) as u64,
                        MessageView::Campaign {
                            last_index: core.log.last_index() as u64,
                            last_term: core.log.last_term(),
                        },
                    )
                }
                &&& core.opts.pre_vote && !alone ==> {
                    &&& next.base().log == core.log
                    &&& goes_to_all(
                        core.out,
                        next.base().out,
                        core.peers(),
                        core.id,
                        (core.term() + 1) as u64,
                        MessageView::PreCampaign {
                            last_index: core.log.last_index() as u64,
                            last_term: core.log.last_term(),
                        },
                    )
                }
            }
        }),
{
    let raised = Core {
        log: LogView { term: (core.log.term + 1) as u64, vote: Some(core.id), ..core.log },
        ..core
    };
    lemma_goes_to_all(
        raised,
        raised.peers(),
        raised.log.term,
        MessageView::Campaign {
            last_index: raised.log.last_index() as u64,
            last_term: raised.log.last_term(),
        },
    );
    lemma_goes_to_all(
        core,
        core.peers(),
        (core.log.term + 1) as u64,
        MessageView::PreCampaign {
            last_index: core.log.last_index() as u64,
            last_term: core.log.last_term(),
        },
    );
}

// Winning an election.

/// Whether more than half of the voters of a configuration, of both while two are joint,
/// are among `ids`.
pub open spec fn is_more_than_half(config: MembershipView, ids: Set<NodeID>) -> bool {
    match config {
        MembershipView::Simple(voters) => 2 * voters.intersect(ids).len() > voters.len(),
        MembershipView::Joint { old, new } => {
            &&& 2 * old.intersect(ids).len() > old.len()
            &&& 2 * new.intersect(ids).len() > new.len()
        },
    }
}

/// A quorum is more than half of the voters.
pub proof fn quorums_are_more_than_half(config: MembershipView, ids: Set<NodeID>)
    ensures
        config.quorum(ids) <==> is_more_than_half(config, ids),
{
}

/// A candidate that is granted a vote in its term counts it if it is a voter's. With the
/// votes of more than half of the voters it comes to lead, and otherwise it goes on with
/// that vote and nothing else changed.
#[verifier::rlimit(40)]
#[verifier::spinoff_prover]
pub proof fn more_than_half_elect<S: State>(
    core: Core<S>,
    role: CandidateView,
    msg: EnvelopeView,
    timeout: Ticks,
    storage: Storage,
)
    requires
        core.voters().contains(msg.from),
        msg.term == core.term(),
        msg.message == (MessageView::CampaignResponse { vote: true }),
        role.phase == ElectionPhase::Election,
    ensures
        ({
            let votes = role.votes.insert(msg.from);
            let r = stepping(NodeView::Candidate(core, role), msg, timeout, storage);
            &&& is_more_than_half(core.membership.active, votes) ==> (r matches Ok(next)
                ==> next is Leader)
            &&& !is_more_than_half(core.membership.active, votes) ==> r == Ok::<
                NodeView<S>,
                ErrorView,
            >(NodeView::Candidate(core, CandidateView { votes, ..role }))
        }),
{
    quorums_are_more_than_half(core.membership.active, role.votes.insert(msg.from));
}

/// A refusal changes nothing.
#[verifier::rlimit(40)]
pub proof fn refusals_change_nothing<S: State>(
    core: Core<S>,
    role: CandidateView,
    msg: EnvelopeView,
    timeout: Ticks,
    storage: Storage,
)
    requires
        core.voters().contains(msg.from),
        msg.term == core.term(),
        msg.message == (MessageView::CampaignResponse { vote: false }) || msg.message == (
        MessageView::PreCampaignResponse { vote: false }),
    ensures
        stepping(NodeView::Candidate(core, role), msg, timeout, storage) == Ok::<
            NodeView<S>,
            ErrorView,
        >(NodeView::Candidate(core, role)),
{
}

/// A candidate that is promised support counts it likewise. With the support of more
/// than half of the voters it starts the election: it raises its term by one, votes for
/// itself and asks every peer for its vote, with the end of its log.
#[verifier::rlimit(40)]
pub proof fn more_than_half_call_an_election<S: State>(
    core: Core<S>,
    role: CandidateView,
    msg: EnvelopeView,
    timeout: Ticks,
    storage: Storage,
)
    requires
        core.voters().contains(msg.from),
        msg.message == (MessageView::PreCampaignResponse { vote: true }),
        role.phase == ElectionPhase::PreVote,
        core.term() < u64::MAX,
        !is_more_than_half(core.membership.active, set![core.id]),
    ensures
        ({
            let votes = role.votes.insert(msg.from);
            let r = stepping(NodeView::Candidate(core, role), msg, timeout, storage);
            &&& is_more_than_half(core.membership.active, votes) ==> {
                &&& r matches Ok(NodeView::Candidate(next, candidate))
                &&& next.log == (LogView {
                    term: (core.term() + 1) as u64,
                    vote: Some(core.id),
                    ..core.log
                })
                &&& candidate.phase == ElectionPhase::Election
                &&& candidate.votes == set![core.id]
                &&& candidate.election_duration == 0
                &&& candidate.election_timeout == timeout
                &&& goes_to_all(
                    core.out,
                    next.out,
                    core.peers(),
                    core.id,
                    next.log.term,
                    MessageView::Campaign {
                        last_index: core.log.last_index() as u64,
                        last_term: core.log.last_term(),
                    },
                )
            }
            &&& !is_more_than_half(core.membership.active, votes) ==> r == Ok::<
                NodeView<S>,
                ErrorView,
            >(NodeView::Candidate(core, CandidateView { votes, ..role }))
        }),
{
    quorums_are_more_than_half(core.membership.active, role.votes.insert(msg.from));
    quorums_are_more_than_half(core.membership.active, set![core.id]);
    let raised = Core {
        log: LogView { term: (core.log.term + 1) as u64, vote: Some(core.id), ..core.log },
        ..core
    };
    lemma_goes_to_all(
        raised,
        raised.peers(),
        raised.log.term,
        MessageView::Campaign {
            last_index: raised.log.last_index() as u64,
            last_term: raised.log.last_term(),
        },
    );
}

/// After an entry was appended, each peer whose next entry it is was sent it, with the
/// index and the term of the one before, and waits for the one after it. The others were
/// sent nothing.
pub(crate) proof fn lemma_replicated<S: State>(led: Led<S>, peers: Seq<NodeID>, index: Index)
    requires
        led.failed is None,
        is_consistent(led.core.log),
        index == led.core.log.last_index(),
        led.core.log.first_index <= index < u64::MAX,
        led.core.opts.max_append_entries > 0,
        peers.no_duplicates(),
        forall|k: int|
            0 <= k < peers.len() ==> led.role.progress.contains_key(#[trigger] peers[k])
                && led.role.progress[peers[k]].match_index
                < led.role.progress[peers[k]].next_index,
    ensures
        ({
            let after = led.replicating(peers, index);
            &&& after.failed is None
            &&& after.core == (Core { out: after.core.out, ..led.core })
            &&& after.core.out.len() >= led.core.out.len()
            &&& after.core.out.take(led.core.out.len() as int) == led.core.out
            &&& after.role == (LeaderView { progress: after.role.progress, ..led.role })
            &&& after.role.progress.dom() == led.role.progress.dom()
            &&& forall|peer: NodeID|
                after.role.progress.contains_key(peer) ==> (#[trigger] after.role.progress[peer]) == (
                Progress {
                    next_index: if peers.contains(peer) && led.role.progress[peer].next_index
                        == index {
                        (index + 1) as u64
                    } else {
                        led.role.progress[peer].next_index
                    },
                    ..led.role.progress[peer]
                })
            &&& forall|j: int|
                0 <= j < peers.len() && led.role.progress[#[trigger] peers[j]].next_index == index
                    ==> exists|k: int|
                    led.core.out.len() <= k < after.core.out.len()
                        && #[trigger] after.core.out[k] == newest_to(led.core, peers[j], index)
            &&& forall|k: int|
                led.core.out.len() <= k < after.core.out.len() ==> {
                    let to = (#[trigger] after.core.out[k]).to;
                    &&& peers.contains(to)
                    &&& led.role.progress[to].next_index == index
                    &&& after.core.out[k] == newest_to(led.core, to, index)
                }
        }),
    decreases peers.len(),
{
    let after = led.replicating(peers, index);
    let n = led.core.out.len() as int;
    if peers.len() == 0 {
        assert(after.core.out.take(n) =~= led.core.out);
    } else {
        let rest = peers.drop_last();
        let peer = peers.last();
        assert forall|k: int| 0 <= k < rest.len() implies led.role.progress.contains_key(
            #[trigger] rest[k],
        ) && led.role.progress[rest[k]].match_index < led.role.progress[rest[k]].next_index by {
            assert(rest[k] == peers[k]);
        }
        lemma_replicated(led, rest, index);
        let before = led.replicating(rest, index);
        assert(led.role.progress.contains_key(peers[peers.len() - 1]));
        assert(!rest.contains(peer)) by {
            if rest.contains(peer) {
                let k = choose|k: int| 0 <= k < rest.len() && rest[k] == peer;
                assert(peers[k] == peers[peers.len() - 1]);
            }
        }
        assert(before.role.progress.contains_key(peer));
        assert(before.role.progress[peer] == led.role.progress[peer]);
        if before.role.progress[peer].next_index == index {
            let log = led.core.log;
            let rest_of = log.slice(index as int, index as int);
            assert(rest_of =~= seq![log.at(index as int)]);
            assert(log.entries[index - log.first_index].index == index);
            assert(before.append_entries(peer, false) == seq![log.at(index as int)]);
            assert(after.core.out =~= before.core.out.push(newest_to(led.core, peer, index)));
            assert(after.core.out.take(n) =~= led.core.out) by {
                assert(before.core.out.take(n) == led.core.out);
            }
            assert(after.role.progress == before.role.progress.insert(
                peer,
                Progress { next_index: (index + 1) as u64, ..led.role.progress[peer] },
            ));
        }
        assert forall|other: NodeID| #[trigger]
            peers.contains(other) == (rest.contains(other) || other == peer) by {
            if peers.contains(other) {
                let k = choose|k: int| 0 <= k < peers.len() && peers[k] == other;
                if k < rest.len() {
                    assert(rest[k] == other);
                }
            }
            if rest.contains(other) {
                let k = choose|k: int| 0 <= k < rest.len() && rest[k] == other;
                assert(peers[k] == other);
            }
            if other == peer {
                assert(peers[peers.len() - 1] == other);
            }
        }
        assert forall|j: int|
            0 <= j < peers.len() && led.role.progress[#[trigger] peers[j]].next_index
                == index implies exists|k: int|
            n <= k < after.core.out.len() && #[trigger] after.core.out[k] == newest_to(
                led.core,
                peers[j],
                index,
            ) by {
            if j < rest.len() {
                assert(rest[j] == peers[j]);
                let k = choose|k: int|
                    n <= k < before.core.out.len() && #[trigger] before.core.out[k] == newest_to(
                        led.core,
                        rest[j],
                        index,
                    );
                assert(after.core.out[k] == before.core.out[k]);
            } else {
                assert(after.core.out[before.core.out.len() as int] == newest_to(
                    led.core,
                    peer,
                    index,
                ));
            }
        }
    }
}

/// The message that brings a peer the last entry of a log.
pub open spec fn newest_to<S: State>(core: Core<S>, to: NodeID, index: Index) -> EnvelopeView {
    EnvelopeView {
        from: core.id,
        term: core.log.term,
        to,
        message: MessageView::Append {
            base_index: (index - 1) as u64,
            base_term: if index == 1 {
                0
            } else {
                core.log.term_at(index - 1)
            },
            entries: seq![core.log.at(index as int)],
        },
    }
}

/// A new leader of others starts out in its term with an entry of its own, without a
/// command, at the end of its log: it sends it to every peer, after where its log ended
/// before, and then a heartbeat. It takes it that no peer is known to match, and commits
/// nothing yet.
pub proof fn new_leaders_announce_themselves<S: State>(core: Core<S>)
    requires
        is_consistent(core.log),
        core.log.last_index() + 1 < u64::MAX,
        core.opts.max_append_entries > 0,
        !is_more_than_half(core.membership.active, set![core.id]),
    ensures
        ({
            let index = (core.log.last_index() + 1) as u64;
            let empty = EntryView {
                index,
                term: core.term(),
                command: None,
                membership: None,
            };
            &&& winning(core) matches Ok(NodeView::Leader(next, role))
            &&& next.log.entries == core.log.entries.push(empty)
            &&& next.log.commit_index == core.log.commit_index
            &&& (next.log.term, next.log.vote) == (core.log.term, core.log.vote)
            &&& next.state == core.state
            &&& next.membership == core.membership
            &&& role.writes == Map::<Index, Write>::empty()
            &&& role.membership_writes == Map::<Index, Write>::empty()
            &&& role.reads == Seq::<ReadView>::empty()
            &&& role.since_heartbeat == 0
            &&& role.progress.dom() == core.peers()
            &&& role.peer_seen.dom() == core.peers()
            &&& forall|peer: NodeID|
                core.peers().contains(peer) ==> (#[trigger] role.progress[peer]) == (Progress {
                    match_index: 0,
                    next_index: (index + 1) as u64,
                    read_seq: 0,
                }) && role.peer_seen[peer] == 0
            &&& forall|peer: NodeID| #[trigger]
                core.peers().contains(peer) ==> {
                    &&& next.out.contains(newest_to(next, peer, index))
                    &&& next.out.contains(
                        EnvelopeView {
                            from: core.id,
                            term: core.term(),
                            to: peer,
                            message: MessageView::Heartbeat {
                                last_index: index,
                                commit_index: core.log.commit_index,
                                read_seq: 0,
                            },
                        },
                    )
                }
        }),
{
    let index = (core.log.last_index() + 1) as u64;
    let start = Led {
        core,
        role: new_leader(core.peers(), core.log.last_index()),
        failed: None,
    };
    let peers = ascending(core.peers());
    lemma_ascending(core.peers());
    let appended = Led {
        core: Core { log: core.log.appending(None, None), ..core },
        ..start
    };
    assert(is_consistent(appended.core.log));
    assert forall|k: int| 0 <= k < peers.len() implies appended.role.progress.contains_key(
        #[trigger] peers[k],
    ) && appended.role.progress[peers[k]].match_index
        < appended.role.progress[peers[k]].next_index by {
        assert(peers.to_set().contains(peers[k]));
    }
    lemma_replicated(appended, peers, index);
    let led = start.proposing(None);
    assert(led == appended.replicating(peers, index));
    commits_need_a_quorum(led, led.core.log.last_index());
    let target = led.commit_target(led.core.log.last_index());
    if target > led.core.log.commit_index {
        assert(led.matched_at(target as int) =~= set![core.id]);
        quorums_are_more_than_half(core.membership.active, set![core.id]);
    }
    let next = led.heartbeating();
    lemma_goes_to_all(
        led.core,
        core.peers(),
        core.term(),
        MessageView::Heartbeat {
            last_index: led.core.log.last_index() as u64,
            commit_index: led.core.log.commit_index,
            read_seq: led.role.read_seq,
        },
    );
    assert forall|peer: NodeID| #[trigger] core.peers().contains(peer) implies {
        &&& next.core.out.contains(newest_to(next.core, peer, index))
        &&& next.core.out.contains(
            EnvelopeView {
                from: core.id,
                term: core.term(),
                to: peer,
                message: MessageView::Heartbeat {
                    last_index: index,
                    commit_index: core.log.commit_index,
                    read_seq: 0,
                },
            },
        )
    } by {
        assert(peers.to_set().contains(peer));
        let j = choose|j: int| 0 <= j < peers.len() && peers[j] == peer;
        assert(appended.role.progress[peers[j]].next_index == index);
        let k = choose|k: int|
            appended.core.out.len() <= k < led.core.out.len() && #[trigger] led.core.out[k]
                == newest_to(appended.core, peers[j], index);
        assert(next.core.out[k] == led.core.out[k]);
    }
    assert forall|peer: NodeID| core.peers().contains(peer) implies (
    #[trigger] next.role.progress[peer]) == (Progress {
        match_index: 0,
        next_index: (index + 1) as u64,
        read_seq: 0,
    }) && next.role.peer_seen[peer] == 0 by {
        assert(peers.to_set().contains(peer));
        assert(peers.contains(peer));
        assert(led.role.progress.contains_key(peer));
    }
}

// Office.

/// A leader that stays in office sends every peer a heartbeat when one is due, with the end
/// of its log, what is committed and its last read. Otherwise it sends nothing. It counts the
/// tick since it heard from each peer, as far as it can count.
pub proof fn leaders_keep_in_touch<S: State>(core: Core<S>, role: LeaderView, timeout: Ticks)
    requires
        role.since_heartbeat < u8::MAX,
        ticking(NodeView::Leader(core, role), timeout) is Leader,
    ensures
        ({
            let due = role.since_heartbeat + 1 >= core.opts.heartbeat_interval;
            &&& ticking(NodeView::Leader(core, role), timeout) matches NodeView::Leader(
                next,
                office,
            )
            &&& next == (Core { out: next.out, ..core })
            &&& office.since_heartbeat == if due {
                0
            } else {
                (role.since_heartbeat + 1) as u8
            }
            &&& (office.progress, office.writes, office.membership_writes, office.reads) == (
                role.progress,
                role.writes,
                role.membership_writes,
                role.reads,
            )
            &&& office.read_seq == role.read_seq
            &&& office.peer_seen.dom() == role.peer_seen.dom()
            &&& forall|peer: NodeID|
                role.peer_seen.contains_key(peer) ==> (#[trigger] office.peer_seen[peer]) == if
                    role.peer_seen[peer] == u8::MAX {
                    u8::MAX as int
                } else {
                    role.peer_seen[peer] + 1
                }
            &&& due ==> goes_to_all(
                core.out,
                next.out,
                core.peers(),
                core.id,
                core.term(),
                MessageView::Heartbeat {
                    last_index: core.log.last_index() as u64,
                    commit_index: core.log.commit_index,
                    read_seq: role.read_seq,
                },
            )
            &&& !due ==> next.out == core.out
        }),
{
    lemma_goes_to_all(
        core,
        core.peers(),
        core.term(),
        MessageView::Heartbeat {
            last_index: core.log.last_index() as u64,
            commit_index: core.log.commit_index,
            read_seq: role.read_seq,
        },
    );
    let seen = role.peer_seen.map_values(
        |seen: Ticks|
            if seen < u8::MAX {
                (seen + 1) as u8
            } else {
                seen
            },
    );
    assert(seen.dom() =~= role.peer_seen.dom());
}

/// How long ago, in ticks, the peers last answered that count as heard from.
pub open spec fn heard_lately<S: State>(core: Core<S>, role: LeaderView) -> Set<NodeID> {
    let longest = core.opts.election_timeout_range.end - 1;
    Set::new(
        |peer: NodeID|
            peer == core.id || (role.peer_seen.contains_key(peer) && role.peer_seen[peer] + 1 < if longest
                > 1 {
                longest
            } else {
                1
            }),
    )
}

/// A leader that checks its quorum stays in office exactly as long as more than half of
/// the voters, itself among them, answered lately, or it is the only voter. One that does
/// not check stays. Whoever leaves keeps its term.
pub proof fn offices_need_more_than_half<S: State>(core: Core<S>, role: LeaderView, timeout: Ticks)
    ensures
        ({
            let next = ticking(NodeView::Leader(core, role), timeout);
            let supported = is_more_than_half(core.membership.active, heard_lately(core, role));
            &&& next is Leader <==> !core.opts.check_quorum || core.voters().len() <= 1
                || supported
            &&& next !is Leader ==> {
                &&& next matches NodeView::Follower(left, follower)
                &&& left.log == core.log
                &&& follower.leader is None
                &&& follower.election_timeout == timeout
            }
        }),
{
    let seen = role.peer_seen.map_values(
        |seen: Ticks|
            if seen < u8::MAX {
                (seen + 1) as u8
            } else {
                seen
            },
    );
    let heard = Set::new(
        |peer: NodeID|
            peer == core.id || (seen.contains_key(peer) && seen[peer] < quorum_window(core.opts)),
    );
    assert(heard =~= heard_lately(core, role));
    quorums_are_more_than_half(core.membership.active, heard);
}

} // verus!
