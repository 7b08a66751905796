//! Whatever a node does fits the history of its cluster.

use vstd::prelude::*;

use super::entry::{EntryView, Index, Term};
use super::history::{
    can_follow_config, lemma_ack, lemma_behind_loses, lemma_commit, lemma_inquiry,
    lemma_last_change, lemma_one_reign, lemma_part_suits, lemma_reign, lemma_reign_fair,
    lemma_rooted_entries, History, Inquiry,
};
use super::history_steps::{
    asks_nothing, goes_on, lemma_asking, lemma_campaigning, lemma_goes_on, lemma_goes_on_same,
    lemma_goes_on_twice, lemma_still_kept, lemma_suits_stays, lemma_winning,
};
use super::ids::{ascending, NodeID};
use super::laws::lemma_can_commit_same;
use super::leader::{lemma_replicating_keeps, lemma_same_target, lemma_sending_keeps};
use super::log::LogView;
use super::membership::{lemma_ids_finite, MembershipView};
use super::message::{EnvelopeView, MessageView, ReadSequence, RequestID, RequestView, ResponseView};
use super::model::{
    aborting_forwarded, admits, applying_committed, becoming_candidate, by_id, campaigning,
    can_start, can_tick, can_win, candidate_receives, changes_of, concluding, counting, discovering,
    follower_step, follower_takes, following, installs, is_foreign, is_known, is_prevote,
    leader_step, leader_takes, new_follower, new_leader, opened, pre_campaigning, requests_in_order,
    starting, stepping, stepping_down, ticking, waiting_reads, waiting_writes, winning,
    CandidateView, Core, ElectionPhase, FollowerView, LeaderView, Led, NodeView, Options, ReadView,
    Ticks, Write,
};
use super::session::session_command;
use super::restart::is_write;
use super::state::State;
use super::world::{
    core_fits, deeds_fit, is_waiting, leader_fits, lemma_applying_fits, lemma_later_term_fits,
    lemma_message_still_fits, lemma_messages_still_fit, lemma_rest_last, log_fits, message_fits,
    messages_fit, node_fits, reads_fit,
};
use super::world_followers::{
    differ, lemma_append_fits, lemma_confirmed_fits, lemma_deeds_still, lemma_heartbeat_fits,
    lemma_snapshot_fits, lemma_vote_fits,
};
use super::world_leaders::{
    answers_fit, is_answer, is_orderly, led_fits, lemma_answers_fit_more, lemma_broadcasting_fits,
    lemma_changing_fits, lemma_committing_fits, lemma_config_of_rest, lemma_confirming_fits,
    lemma_decided_longer, lemma_heartbeating_fits, lemma_led_log_fits, lemma_matching_fits,
    lemma_proposing_fits, lemma_reading_fits, lemma_replicating_fits, lemma_sending_append_fits,
    lemma_sending_fits, matches_in_order, settles_in_order, Given,
};
use super::world_states::{
    asks_on, carries, leads_back, lemma_moves_more, lemma_plainly_twice, lemma_still_carries,
    lemma_traces_after, lemma_traces_catching_up, lemma_traces_installed, lemma_traces_on,
    sends_plainly, traces,
};
use crate::error::ErrorView;
use crate::storage::engine::StatusView;

verus! {

/// Whether a message is a snapshot that the node would install although it ends before
/// the node's log does, where the log does not differ from the leader's before that.
pub open spec fn drops_entries<S: State>(
    h: History,
    core: Core<S>,
    msg: EnvelopeView,
) -> bool {
    msg.message matches MessageView::InstallSnapshot { last_included_index, .. } && installs(
        core,
        last_included_index,
    ) && last_included_index < core.log.last_index() && !differ(
        h.logs[core.id],
        h.log_of(msg.term),
        last_included_index as int,
    )
}

/// Whether a message is a snapshot that the node would not install although it ends
/// after what the node has committed: the node's state is ahead of its log.
pub open spec fn skips_entries<S: State>(core: Core<S>, message: MessageView) -> bool {
    message matches MessageView::InstallSnapshot { last_included_index, .. } && !installs(
        core,
        last_included_index,
    ) && last_included_index > core.log.commit_index
}

/// Whether a node that wins its election deals in order with what it commits at once.
pub open spec fn wins_in_order<S: State>(core: Core<S>) -> bool {
    settles_in_order(
        Led {
            core,
            role: new_leader(core.peers(), core.log.last_index()),
            failed: None,
        }.proposing(None),
    )
}

/// Whether a leader deals in order with a client's request.
pub open spec fn serves_in_order<S: State>(led: Led<S>, request: RequestView) -> bool {
    match request {
        RequestView::Write(command) => proposes_in_order(led.proposing(Some(command))),
        RequestView::WriteSession { client_id, seq, command } => proposes_in_order(
            led.proposing(Some(session_command(client_id, seq, command))),
        ),
        RequestView::ChangeMembership { voters } => led.change_refused(voters) is None
            ==> proposes_in_order(led.proposing_change(voters)),
        _ => true,
    }
}

/// Whether a leader that is alone deals in order with what it commits at once.
pub open spec fn proposes_in_order<S: State>(led: Led<S>) -> bool {
    led.core.is_alone() ==> settles_in_order(led)
}

/// Whether a node deals in order with the membership changes that it commits in a step.
pub open spec fn steps_in_order<S: State>(node: NodeView<S>, msg: EnvelopeView) -> bool {
    match node {
        NodeView::Follower(..) => true,
        NodeView::Candidate(core, role) => core.quorum(counting(core, role, msg.from)) ==> {
            &&& msg.message is CampaignResponse ==> wins_in_order(core)
            &&& msg.message is PreCampaignResponse && core.quorum(set![core.id])
                ==> wins_in_order(campaigning(core, 0).0)
        },
        NodeView::Leader(core, role) => {
            let led = Led { core, role, failed: None };
            let noted = led.noting(msg.from);
            msg.term == core.term() ==> match msg.message {
                MessageView::HeartbeatResponse { match_index, read_seq } => matches_in_order(
                    noted.confirming(msg.from, read_seq),
                    msg.from,
                    match_index,
                ),
                MessageView::AppendResponse { match_index, .. } => matches_in_order(
                    noted,
                    msg.from,
                    match_index,
                ),
                MessageView::InstallSnapshotResponse { last_included_index } => matches_in_order(
                    noted,
                    msg.from,
                    last_included_index,
                ),
                MessageView::ClientRequest { request, .. } => serves_in_order(led, request),
                _ => true,
            }
        },
    }
}

/// Whether an inquiry is a client's read.
pub open spec fn is_about(inquiry: Inquiry, from: NodeID, id: RequestID, command: Seq<u8>) -> bool {
    inquiry.from == from && inquiry.id == id && inquiry.command == command
}

/// Whether a message asks for a read.
pub open spec fn is_read(msg: EnvelopeView, inquiry: Inquiry) -> bool {
    msg.message matches MessageView::ClientRequest { id, request }
        && request matches RequestView::Read(command) && is_about(inquiry, msg.from, id, command)
}

/// Whether a node and what it sent fit the history.
pub open spec fn fits<S: State>(h: History, node: NodeView<S>) -> bool {
    node_fits(h, node) && messages_fit(h, node.base().out)
}

/// Whether a node, what it sent and every answer to a read fit the history.
pub open spec fn all_fits<S: State>(
    given: Given<S>,
    h: History,
    node: NodeView<S>,
) -> bool {
    &&& fits(h, node)
    &&& answers_fit::<S>(h, given, node.base().out)
    &&& traces(given, h, node.base())
}

/// A node that aborts requests.
proof fn lemma_aborting_fits<S: State>(
    h: History,
    core: Core<S>,
    requests: Seq<(RequestID, NodeID)>,
)
    requires
        core_fits(h, core),
        messages_fit(h, core.out),
    ensures
        core_fits(h, core.aborting(requests)),
        messages_fit(h, core.aborting(requests).out),
        sends_plainly(core.out, core.aborting(requests).out),
        core.out.len() <= core.aborting(requests).out.len(),
        forall|k: int|
            0 <= k < core.out.len() ==> core.aborting(requests).out[k] == #[trigger] core.out[k],
{
    let before = core.out;
    let out = core.aborting(requests).out;
    assert forall|k: int| before.len() <= k < out.len() implies !((
    #[trigger] out[k]).message is InstallSnapshot) by {
        assert(out[k].message is ClientResponse);
    }
    assert forall|k: int| 0 <= k < out.len() implies message_fits(h, #[trigger] out[k]) by {
        if k < before.len() {
            assert(out[k] == before[k]);
        } else {
            assert(out[k].message is ClientResponse);
        }
    }
}

/// A node that discovers a later term.
proof fn lemma_adopting_fits<S: State>(h: History, core: Core<S>, term: Term) -> (next: History)
    requires
        h.wf(),
        core_fits(h, core),
        messages_fit(h, core.out),
        term > core.term(),
    ensures
        next.wf(),
        goes_on(h, next, core.id),
        next.inquiries == h.inquiries,
        next.reigns == h.reigns,
        next.logs == h.logs,
        core_fits(next, Core { log: LogView { term, vote: None, ..core.log }, ..core }),
        messages_fit(next, core.out),
{
    let next = h.adopting(core.id, term);
    lemma_later_term_fits(h, core.id, core.log, term);
    lemma_suits_stays(
        h,
        next,
        core.id,
        h.logs[core.id],
        core.term() + 1,
        term + 1,
        core.membership.active,
    );
    lemma_messages_still_fit(h, next, core.id, core.out);
    lemma_goes_on(h, next, core.id);
    next
}

/// A follower after a message of its own term.
proof fn lemma_follower_step_fits<S: State>(
    h: History,
    core: Core<S>,
    role: FollowerView,
    msg: EnvelopeView,
) -> (next: History)
    requires
        h.wf(),
        core_fits(h, core),
        messages_fit(h, core.out),
        message_fits(h, msg),
        msg.term == core.term(),
        msg.to == core.id,
        follower_takes(core, role, msg),
        !drops_entries(h, core, msg),
        !skips_entries(core, msg.message),
    ensures
        next.wf(),
        goes_on(h, next, core.id),
        next.inquiries == h.inquiries,
        next.reigns == h.reigns,
        match follower_step(core, role, msg) {
            Ok(after) => fits(next, after) && after.base().id == core.id,
            Err(_) => true,
        },
{
    lemma_goes_on_same(h, core.id);
    let role = if role.leader == Some(msg.from) {
        FollowerView { leader_seen: 0, ..role }
    } else {
        role
    };
    let (met, met_role) = following(core, role, msg.from);
    lemma_aborting_fits(
        h,
        core,
        requests_in_order(role.forwarded).map_values(|id: RequestID| (id, core.id)),
    );
    assert(core_fits(h, met) && messages_fit(h, met.out));
    assert(met.log == core.log && met.id == core.id && met.state == core.state);
    let foreign = is_foreign(role, msg.from);
    match msg.message {
        MessageView::Heartbeat { last_index, commit_index, read_seq } if !foreign =>
            lemma_heartbeat_fits(h, met, msg, last_index, commit_index, read_seq),
        MessageView::Append { base_index, base_term, entries } if !foreign => lemma_append_fits(
            h,
            met,
            msg,
            base_index,
            base_term,
            entries,
        ),
        MessageView::InstallSnapshot {
            last_included_index,
            last_included_term,
            data,
            membership,
        } if !foreign => lemma_snapshot_fits(
            h,
            met,
            msg,
            last_included_index,
            last_included_term,
            data,
            membership,
        ),
        MessageView::Read { seq } if !foreign => lemma_confirmed_fits(h, met, seq),
        MessageView::Campaign { last_index, last_term } => lemma_vote_fits(
            h,
            core,
            msg,
            last_index,
            last_term,
        ),
        _ => h,
    }
}

/// What a follower applies and stores in a step is what was committed.
proof fn lemma_follower_traces<S: State>(
    given: Given<S>,
    h: History,
    next: History,
    core: Core<S>,
    role: FollowerView,
    msg: EnvelopeView,
)
    requires
        h.wf(),
        next.wf(),
        goes_on(h, next, core.id),
        next.reigns == h.reigns,
        core_fits(h, core),
        messages_fit(h, core.out),
        msg.term == core.term(),
        traces(given, h, core),
        given.init matches Some(init) ==> carries::<S>(init, h, msg),
        follower_step(core, role, msg) matches Ok(after) && fits(next, after)
            && given.states.contains((core.id, after.base().state)),
    ensures
        follower_step(core, role, msg) matches Ok(after) && traces(given, next, after.base()),
{
    let after = follower_step(core, role, msg)->Ok_0.base();
    let role = if role.leader == Some(msg.from) {
        FollowerView { leader_seen: 0, ..role }
    } else {
        role
    };
    let (met, met_role) = following(core, role, msg.from);
    lemma_aborting_fits(
        h,
        core,
        requests_in_order(role.forwarded).map_values(|id: RequestID| (id, core.id)),
    );
    assert(sends_plainly(core.out, met.out));
    let foreign = is_foreign(role, msg.from);
    match msg.message {
        MessageView::Heartbeat { last_index, commit_index, read_seq } if !foreign => {
            let match_index: Index = if met.log.has(last_index as int, msg.term) {
                last_index
            } else {
                0
            };
            let sent = met.sending(
                msg.from,
                MessageView::HeartbeatResponse { match_index, read_seq },
            );
            lemma_plainly_twice(core.out, met.out, sent.out);
            if match_index != 0 && commit_index > sent.log.commit_index {
                let ready = Core { log: sent.log.committing(commit_index), ..sent };
                lemma_traces_after(given, h, next, core, ready);
                lemma_traces_catching_up(given, next, ready);
            } else {
                lemma_traces_after(given, h, next, core, sent);
            }
        },
        MessageView::InstallSnapshot { last_included_index, .. } if !foreign && installs(
            met,
            last_included_index,
        ) => {
            lemma_plainly_twice(core.out, met.out, after.out);
            lemma_traces_installed(given, h, next, core, msg, after);
        },
        _ => {
            assert(sends_plainly(core.out, after.out) || sends_plainly(met.out, after.out));
            if sends_plainly(met.out, after.out) {
                lemma_plainly_twice(core.out, met.out, after.out);
            }
            lemma_traces_after(given, h, next, core, after);
        },
    }
}

// Candidates.

/// A node that asks for votes in a new term.
proof fn lemma_campaigning_fits<S: State>(h: History, core: Core<S>, timeout: Ticks) -> (next:
    History)
    requires
        h.wf(),
        core_fits(h, core),
        messages_fit(h, core.out),
        core.term() < u64::MAX,
    ensures
        next.wf(),
        goes_on(h, next, core.id),
        next.inquiries == h.inquiries,
        next.reigns == h.reigns,
        ({
            let (after, role) = campaigning(core, timeout);
            &&& fits(next, NodeView::Candidate(after, role))
            &&& after.id == core.id
            &&& sends_plainly(core.out, after.out)
        }),
{
    let node = core.id;
    let term = (core.term() + 1) as u64;
    let whole = h.logs[node];
    let next = h.campaigning(node, term);
    assert(h.is_faithful(node, term, whole, term as int)) by {
        assert forall|earlier: Term, n: nat|
            earlier < term && h.acked(node, earlier, n) implies #[trigger] h.kept(
            whole,
            earlier,
            n as int,
            term as int,
        ) by {
            assert(h.kept(whole, earlier, n as int, core.term() + 1));
        }
    }
    assert(h.is_faithful(node, term, whole, term + 1)) by {
        lemma_goes_on_same(h, node);
        assert forall|earlier: Term, n: nat|
            earlier < term && h.acked(node, earlier, n) implies #[trigger] h.kept(
            whole,
            earlier,
            n as int,
            term + 1,
        ) by {
            lemma_ack(h, node, earlier);
            assert(h.kept(whole, earlier, n as int, core.term() + 1));
            lemma_still_kept(
                h,
                h,
                node,
                whole,
                earlier,
                n as int,
                core.term() + 1,
                term + 1,
            );
        }
    }
    lemma_campaigning(h, node, term);
    lemma_goes_on(h, next, node);
    lemma_deeds_still(h, next, node, core.log);
    let config = core.membership.active;
    lemma_suits_stays(h, next, node, whole, core.term() + 1, term + 1, config);
    lemma_suits_stays(h, next, node, whole, core.term() + 1, term as int, config);
    let started = LogView { term, vote: Some(node), ..core.log };
    assert(deeds_fit(next, node, started)) by {
        assert forall|t: Term, n: nat| next.acked(node, t, n) implies #[trigger] next.kept(
            next.logs[node],
            t,
            n as int,
            term + 1,
        ) by {
            assert(next.kept(next.logs[node], t, n as int, core.term() + 1));
            lemma_goes_on_same(next, node);
            lemma_ack(next, node, t);
            lemma_still_kept(
                next,
                next,
                node,
                next.logs[node],
                t,
                n as int,
                core.term() + 1,
                term + 1,
            );
        }
    }
    assert(log_fits(next, node, started)) by {
        lemma_decided_longer(
            next,
            whole.take(core.log.commit_index as int),
            core.term(),
            term,
        );
    }
    lemma_messages_still_fit(h, next, node, core.out);
    lemma_rest_last(core.log, whole);
    let ready = Core { log: started, ..core };
    let message = MessageView::Campaign {
        last_index: core.log.last_index() as u64,
        last_term: core.log.last_term(),
    };
    let out = ready.broadcasting(message).out;
    assert forall|k: int| 0 <= k < out.len() implies message_fits(next, #[trigger] out[k]) by {
        if k < core.out.len() {
            assert(out[k] == core.out[k]);
        } else {
            assert(out[k].message == message && out[k].from == node && out[k].term == term);
        }
    }
    assert forall|k: int| core.out.len() <= k < out.len() implies !((
    #[trigger] out[k]).message is InstallSnapshot) by {
        assert(out[k].message == message);
    }
    next
}

/// A candidate that won its election, when it has appended an entry.
proof fn lemma_won_fits<S: State>(
    given: Given<S>,
    h: History,
    core: Core<S>,
    votes: Set<NodeID>,
) -> (won: History)
    requires
        h.wf(),
        core_fits(h, core),
        messages_fit(h, core.out),
        h.campaigns.contains_key((core.id, core.term())),
        h.campaigns[(core.id, core.term())] == h.logs[core.id],
        !(h.reigns.contains_key(core.term()) && h.reigns[core.term()].leader == core.id),
        forall|who: NodeID| #[trigger]
            votes.contains(who) ==> h.ballots.contains_key((who, core.term())) && h.ballots[(
                who,
                core.term(),
            )].candidate == core.id,
        core.quorum(votes),
        h.suits(h.logs[core.id], core.term() as int, core.membership.active),
        core.log.last_index() + 1 < u64::MAX,
        answers_fit::<S>(h, given, seq![]),
        traces(given, h, core),
    ensures
        won.wf(),
        goes_on(h, won, core.id),
        asks_nothing(h, won),
        led_fits(
            given,
            won,
            Led {
                core: Core { log: core.log.appending(None, None), ..core },
                role: new_leader(core.peers(), core.log.last_index()),
                failed: None,
            },
        ),
{
    let node = core.id;
    let term = core.term();
    let log = core.log;
    let whole = h.logs[node];
    let config = core.membership.active;
    lemma_behind_loses(h, node, term, config, votes);
    if h.reigns.contains_key(term) {
        lemma_one_reign(h, node, term, config, votes);
    }
    let entry = EntryView {
        index: (log.last_index() + 1) as u64,
        term,
        command: None,
        membership: None,
    };
    lemma_rooted_entries(h, whole);
    let won = h.winning(node, term, config, votes, entry);
    lemma_winning(h, node, term, config, votes, entry);
    lemma_led_log_fits(h, won, node, log, entry);
    lemma_messages_still_fit(h, won, node, core.out);
    assert(log.appending(None, None) == (LogView { entries: log.entries.push(entry), kept_term: None, ..log }));
    lemma_goes_on(h, won, node);
    let log_won = whole.push(entry);
    assert(log_won.take(log_won.len() as int) =~= log_won);
    assert(log_won.drop_last() =~= whole);
    assert(log.entries.push(entry).drop_last() =~= log.entries);
    lemma_last_change(whole);
    lemma_part_suits(won, term, log_won.len() as int);
    lemma_moves_more(given, h, won, core, term, entry);
    lemma_traces_on(
        given,
        h,
        won,
        node,
        core,
        Core { log: core.log.appending(None, None), ..core },
    );
    lemma_answers_fit_more::<S>(h, won, given, seq![], core.out);
    assert forall|seq: ReadSequence| !h.inquiries.contains_key((term, seq)) by {
        if h.inquiries.contains_key((term, seq)) {
            lemma_inquiry(h, term, seq);
        }
    }
    assert forall|n: nat| !h.commits.contains((term, n)) by {
        if h.commits.contains((term, n)) {
            lemma_commit(h, term, n);
        }
    }
    won
}

/// A candidate that wins its election.
proof fn lemma_winning_fits<S: State>(
    given: Given<S>,
    h: History,
    core: Core<S>,
    votes: Set<NodeID>,
) -> (next:
    History)
    requires
        h.wf(),
        core_fits(h, core),
        messages_fit(h, core.out),
        h.campaigns.contains_key((core.id, core.term())),
        h.campaigns[(core.id, core.term())] == h.logs[core.id],
        !(h.reigns.contains_key(core.term()) && h.reigns[core.term()].leader == core.id),
        forall|who: NodeID| #[trigger]
            votes.contains(who) ==> h.ballots.contains_key((who, core.term())) && h.ballots[(
                who,
                core.term(),
            )].candidate == core.id,
        core.quorum(votes),
        h.suits(h.logs[core.id], core.term() as int, core.membership.active),
        can_win(core),
        wins_in_order(core),
        winning(core) matches Ok(after) && given.states.contains((core.id, after.base().state)),
        answers_fit::<S>(h, given, seq![]),
        traces(given, h, core),
    ensures
        next.wf(),
        goes_on(h, next, core.id),
        asks_nothing(h, next),
        match winning(core) {
            Ok(after) => all_fits(given, next, after) && after.base().id == core.id,
            Err(_) => true,
        },
{
    let node = core.id;
    let won = lemma_won_fits(given, h, core, votes);
    let appended = Led {
        core: Core { log: core.log.appending(None, None), ..core },
        role: new_leader(core.peers(), core.log.last_index()),
        failed: None,
    };
    let peers = ascending(appended.core.peers());
    let index = appended.core.log.last_index() as u64;
    lemma_replicating_fits(given, won, appended, peers, index);
    lemma_replicating_keeps(appended, peers, index);
    let proposed = appended.replicating(peers, index);
    let next = lemma_committing_fits(given, won, proposed);
    let committed = proposed.committing().0;
    lemma_heartbeating_fits(given, next, committed);
    lemma_goes_on_twice(h, won, next, node);
    next
}

/// The answers to reads stay right in a step that answers none.
proof fn lemma_answers_after<S: State>(
    given: Given<S>,
    h: History,
    next: History,
    after: std::result::Result<NodeView<S>, ErrorView>,
    node: NodeID,
)
    requires
        h.wf(),
        answers_fit::<S>(h, given, seq![]),
        goes_on(h, next, node),
        next.inquiries == h.inquiries,
        next.reigns == h.reigns,
    ensures
        match after {
            Ok(after) => answers_fit::<S>(next, given, after.base().out),
            Err(_) => true,
        },
{
    lemma_goes_on(h, next, node);
    if let Ok(after) = after {
        lemma_answers_fit_more::<S>(h, next, given, seq![], after.base().out);
    }
}

/// A node that found a later term.
proof fn lemma_traces_found<S: State>(
    given: Given<S>,
    h: History,
    found: History,
    core: Core<S>,
    adopted: Core<S>,
    msg: EnvelopeView,
)
    requires
        h.wf(),
        goes_on(h, found, core.id),
        found.reigns == h.reigns,
        traces(given, h, core),
        given.init matches Some(init) ==> carries::<S>(init, h, msg),
        adopted.id == core.id,
        adopted.state == core.state,
        adopted.log == (LogView { term: adopted.log.term, vote: adopted.log.vote, ..core.log }),
        core.term() <= adopted.term(),
        sends_plainly(core.out, adopted.out),
    ensures
        traces(given, found, adopted),
        given.init matches Some(init) ==> carries::<S>(init, found, msg),
{
    lemma_traces_after(given, h, found, core, adopted);
    if let Some(init) = given.init {
        lemma_still_carries::<S>(init, h, found, core.id, msg);
    }
}

/// A candidate after a message.
proof fn lemma_candidate_fits<S: State>(
    given: Given<S>,
    h: History,
    core: Core<S>,
    role: CandidateView,
    msg: EnvelopeView,
    timeout: Ticks,
) -> (next: History)
    requires
        h.wf(),
        fits(h, NodeView::Candidate(core, role)),
        message_fits(h, msg),
        admits(NodeView::Candidate(core, role), msg),
        is_known(core, msg.from),
        !drops_entries(h, core, msg),
        !skips_entries(core, msg.message),
        steps_in_order(NodeView::Candidate(core, role), msg),
        candidate_receives(core, role, msg, timeout) matches Ok(after) && given.states.contains(
            (core.id, after.base().state),
        ),
        answers_fit::<S>(h, given, seq![]),
        traces(given, h, core),
        given.init matches Some(init) ==> carries::<S>(init, h, msg),
    ensures
        next.wf(),
        goes_on(h, next, core.id),
        asks_nothing(h, next),
        match candidate_receives(core, role, msg, timeout) {
            Ok(after) => all_fits(given, next, after) && after.base().id == core.id,
            Err(_) => true,
        },
{
    lemma_goes_on_same(h, core.id);
    let after = candidate_receives(core, role, msg, timeout);
    lemma_answers_after(given, h, h, after, core.id);
    let moved = after->Ok_0.base();
    if moved.id == core.id && moved.state == core.state && moved.log == core.log && sends_plainly(
        core.out,
        moved.out,
    ) {
        lemma_traces_after(given, h, h, core, moved);
    }
    match msg.message {
        MessageView::PreCampaign { .. } => h,
        MessageView::PreCampaignResponse { vote } => {
            if vote && role.phase == ElectionPhase::PreVote && core.quorum(
                counting(core, role, msg.from),
            ) {
                let (started, candidate) = campaigning(core, timeout);
                let asked = lemma_campaigning_fits(h, core, timeout);
                lemma_goes_on(h, asked, core.id);
                lemma_answers_fit_more::<S>(h, asked, given, seq![], seq![]);
                lemma_answers_fit_more::<S>(h, asked, given, seq![], started.out);
                assert(started == campaigning(core, 0).0);
                lemma_traces_after(given, h, asked, core, started);
                if started.quorum(candidate.votes) {
                    let next = lemma_winning_fits(given, asked, started, candidate.votes);
                    lemma_goes_on_twice(h, asked, next, core.id);
                    next
                } else {
                    asked
                }
            } else {
                h
            }
        },
        _ => {
            if msg.term < core.term() {
                h
            } else if msg.term > core.term() {
                let found = lemma_adopting_fits(h, core, msg.term);
                lemma_message_still_fits(h, found, core.id, msg);
                let adopted = Core {
                    log: LogView { term: msg.term, vote: None, ..core.log },
                    ..core
                };
                let follower = new_follower(None, timeout);
                assert(follower_takes(adopted, follower, msg)) by {
                    assert(follower_takes(adopted, new_follower(None, 0), msg));
                }
                let next = lemma_follower_step_fits(found, adopted, follower, msg);
                lemma_goes_on_twice(h, found, next, core.id);
                lemma_traces_found(given, h, found, core, adopted, msg);
                lemma_follower_traces(given, found, next, adopted, follower, msg);
                lemma_answers_after(given, h, next, follower_step(adopted, follower, msg), core.id);
                next
            } else {
                match msg.message {
                    MessageView::CampaignResponse { vote } => {
                        let votes = counting(core, role, msg.from);
                        if vote && role.phase == ElectionPhase::Election && core.quorum(votes) {
                            lemma_winning_fits(given, h, core, votes)
                        } else {
                            h
                        }
                    },
                    MessageView::Heartbeat { .. } | MessageView::Append { .. }
                    | MessageView::Read { .. } | MessageView::InstallSnapshot { .. } => {
                        let follower = new_follower(Some(msg.from), timeout);
                        assert(follower_takes(core, follower, msg)) by {
                            assert(follower_takes(core, new_follower(Some(msg.from), 0), msg));
                        }
                        let next = lemma_follower_step_fits(h, core, follower, msg);
                        lemma_follower_traces(given, h, next, core, follower, msg);
                        lemma_answers_after(
                            given,
                            h,
                            next,
                            follower_step(core, follower, msg),
                            core.id,
                        );
                        next
                    },
                    _ => h,
                }
            }
        },
    }
}

// Leaders.

/// A leader that steps down.
proof fn lemma_stepping_down_fits<S: State>(
    h: History,
    core: Core<S>,
    role: LeaderView,
    term: Term,
    timeout: Ticks,
) -> (next: History)
    requires
        h.wf(),
        core_fits(h, core),
        messages_fit(h, core.out),
    ensures
        next.wf(),
        goes_on(h, next, core.id),
        next.inquiries == h.inquiries,
        next.reigns == h.reigns,
        next.logs == h.logs,
        term <= core.term() ==> next == h,
        ({
            let (after, follower) = stepping_down(core, role, term, timeout);
            &&& core_fits(next, after)
            &&& messages_fit(next, after.out)
            &&& after.id == core.id
            &&& after.state == core.state
            &&& after.log == if term > core.term() {
                LogView { term, vote: None, ..core.log }
            } else {
                core.log
            }
            &&& sends_plainly(core.out, after.out)
            &&& core.out.len() <= after.out.len()
            &&& forall|k: int| 0 <= k < core.out.len() ==> after.out[k] == #[trigger] core.out[k]
        }),
{
    lemma_goes_on_same(h, core.id);
    let (next, adopted) = if term > core.term() {
        let next = lemma_adopting_fits(h, core, term);
        (next, Core { log: LogView { term, vote: None, ..core.log }, ..core })
    } else {
        (h, core)
    };
    let writes = by_id(waiting_writes(role.writes));
    let changes = by_id(waiting_writes(role.membership_writes));
    let reads = by_id(waiting_reads(role.reads));
    let first = adopted.aborting(writes);
    let second = first.aborting(changes);
    lemma_aborting_fits(next, adopted, writes);
    lemma_aborting_fits(next, first, changes);
    lemma_aborting_fits(next, second, reads);
    let last = second.aborting(reads);
    lemma_plainly_twice(core.out, first.out, second.out);
    lemma_plainly_twice(core.out, second.out, last.out);
    assert forall|k: int| 0 <= k < core.out.len() implies last.out[k] == #[trigger] core.out[k] by {
        assert(first.out[k] == adopted.out[k]);
        assert(second.out[k] == first.out[k]);
        assert(last.out[k] == second.out[k]);
    }
    next
}

/// What a leader's step ends with.
proof fn lemma_concluding_fits<S: State>(
    given: Given<S>,
    h: History,
    led: Led<S>,
    step_down: bool,
    timeout: Ticks,
)
    requires
        h.wf(),
        led_fits(given, h, led),
    ensures
        match concluding(led, step_down, timeout) {
            Ok(after) => all_fits(given, h, after) && after.base().id == led.core.id,
            Err(_) => true,
        },
{
    let same = lemma_stepping_down_fits(h, led.core, led.role, led.core.term(), timeout);
    let (after, _) = stepping_down(led.core, led.role, led.core.term(), timeout);
    lemma_answers_fit_more::<S>(h, h, given, led.core.out, after.out);
    lemma_goes_on_same(h, led.core.id);
    lemma_traces_after(given, h, h, led.core, after);
}

/// A leader that is asked for a read, and asks its peers to confirm it.
proof fn lemma_queueing_fits<S: State>(
    given: Given<S>,
    h: History,
    led: Led<S>,
    from: NodeID,
    id: RequestID,
    command: Seq<u8>,
) -> (next: History)
    requires
        h.wf(),
        led_fits(given, h, led),
        led.role.read_seq < u64::MAX,
    ensures
        next.wf(),
        goes_on(h, next, led.core.id),
        forall|term: Term, seq: ReadSequence| #[trigger]
            next.inquiries.contains_key((term, seq)) && !h.inquiries.contains_key((term, seq))
                ==> is_about(next.inquiries[(term, seq)], from, id, command),
        ({
            let seq = (led.role.read_seq + 1) as u64;
            led_fits(
                given,
                next,
                Led {
                    core: led.core.broadcasting(MessageView::Read { seq }),
                    role: LeaderView {
                        read_seq: seq,
                        reads: led.role.reads.push(ReadView { seq, from, id, command }),
                        ..led.role
                    },
                    ..led
                },
            )
        }),
{
    let node = led.core.id;
    let term = led.core.term();
    let seq = (led.role.read_seq + 1) as u64;
    let inquiry = Inquiry {
        from,
        id,
        command,
        known: h.commits,
        rivals: h.rivals(term),
        ahead: h.ahead(term),
        answer: None,
    };
    assert(!h.inquiries.contains_key((term, seq)));
    lemma_asking(h, node, term, seq, inquiry);
    let next = h.asking(term, seq, inquiry);
    lemma_suits_stays(
        h,
        next,
        node,
        h.logs[node],
        term + 1,
        term + 1,
        led.core.membership.active,
    );
    lemma_deeds_still(h, next, node, led.core.log);
    lemma_messages_still_fit(h, next, node, led.core.out);
    let reads = led.role.reads;
    let role = LeaderView {
        read_seq: seq,
        reads: reads.push(ReadView { seq, from, id, command }),
        ..led.role
    };
    assert(reads_fit(next, term, role)) by {
        assert forall|s: ReadSequence| #[trigger] next.inquiries.contains_key((term, s)) implies {
            &&& s <= role.read_seq
            &&& next.inquiries[(term, s)].answer is Some || is_waiting(role, s)
        } by {
            if s == seq {
                assert(role.reads[reads.len() as int].seq == seq);
            } else {
                assert(h.inquiries.contains_key((term, s)));
                if h.inquiries[(term, s)].answer is None {
                    let k = choose|k: int| 0 <= k < reads.len() && (#[trigger] reads[k]).seq == s;
                    assert(role.reads[k].seq == s);
                }
            }
        }
        assert forall|k: int| 0 <= k < role.reads.len() implies {
            let read = #[trigger] role.reads[k];
            let inquiry = next.inquiries[(term, read.seq)];
            &&& next.inquiries.contains_key((term, read.seq))
            &&& inquiry.from == read.from
            &&& inquiry.id == read.id
            &&& inquiry.command == read.command
            &&& inquiry.answer is None
        } by {
            if k < reads.len() {
                assert(role.reads[k] == reads[k]);
            }
        }
        assert forall|j: int, k: int| 0 <= j < k < role.reads.len() implies (
        #[trigger] role.reads[j]).seq < (#[trigger] role.reads[k]).seq by {
            assert(role.reads[j] == reads[j]);
            if k < reads.len() {
                assert(role.reads[k] == reads[k]);
            } else {
                assert(h.inquiries.contains_key((term, reads[j].seq)));
            }
        }
    }
    assert(answers_fit::<S>(next, given, led.core.out)) by {
        assert forall|t: Term, s: ReadSequence| #[trigger]
            next.inquiries.contains_key((t, s)) implies {
            let inquiry = next.inquiries[(t, s)];
            inquiry.answer matches Some(answer) ==> {
                &&& is_answer::<S>(given.states, inquiry, next.reigns[t].leader, t, answer)
                &&& given.sent.contains(answer) || led.core.out.contains(answer)
            }
        } by {
            if (t, s) != (term, seq) {
                assert(h.inquiries.contains_key((t, s)));
            }
        }
    }
    let waiting = Led { role, ..led };
    lemma_traces_after(given, h, next, led.core, led.core);
    assert(led_fits(given, next, waiting));
    lemma_broadcasting_fits(given, next, waiting, MessageView::Read { seq });
    next
}

/// A leader deals in order whatever its clients wait for.
proof fn lemma_same_order<S: State>(a: Led<S>, b: Led<S>)
    requires
        a.core == b.core,
        a.role.progress == b.role.progress,
        a.failed == b.failed,
        settles_in_order(a),
    ensures
        settles_in_order(b),
{
    lemma_same_target(a, b, a.core.log.last_index());
    let target = a.commit_target(a.core.log.last_index());
    if b.failed is None && target > b.core.log.commit_index {
        let core = Core { log: a.core.log.committing(target), ..a.core };
        let changes = changes_of(a.core.log.slice(a.core.applied() + 1, target as int));
        assert(is_orderly(Led { core, ..a }, changes));
        assert(is_orderly(Led { core, ..b }, changes));
    }
}

/// A joint configuration that adds to a leader's single one follows that of its log.
proof fn lemma_follows_config<S: State>(
    h: History,
    core: Core<S>,
    role: LeaderView,
    voters: Set<NodeID>,
)
    requires
        h.wf(),
        leader_fits(h, core, role),
        core.membership.active is Simple,
    ensures
        can_follow_config(
            h.config_at(h.logs[core.id]),
            MembershipView::Joint { old: core.membership.active.target(), new: voters },
        ),
{
    let log = h.logs[core.id];
    lemma_reign(h, core.term());
    lemma_reign_fair(h, core.term(), log.len() as int);
    assert(log.take(log.len() as int) =~= log);
}

/// A leader after a client asked for a membership change.
proof fn lemma_change_request_fits<S: State>(
    given: Given<S>,
    h: History,
    led: Led<S>,
    voters: Set<NodeID>,
    write: Write,
) -> (next: History)
    requires
        h.wf(),
        led_fits(given, h, led),
        led.failed is None,
        led.can_serve(RequestView::ChangeMembership { voters }),
        serves_in_order(led, RequestView::ChangeMembership { voters }),
        given.states.contains(
            (led.core.id, led.proposing_change(voters).awaiting_change(write).0.core.state),
        ),
    ensures
        next.wf(),
        goes_on(h, next, led.core.id),
        asks_nothing(h, next),
        led_fits(given, next, led.proposing_change(voters).awaiting_change(write).0),
        led.proposing_change(voters).awaiting_change(write).0.core.id == led.core.id,
{
    let node = led.core.id;
    match led.change_refused(voters) {
        Some(e) => {
            lemma_goes_on_same(h, node);
            lemma_sending_fits(
                given,
                h,
                led,
                write.from,
                MessageView::ClientResponse { id: write.id, response: Err(e) },
            );
            h
        },
        None => {
            let joint = MembershipView::Joint {
                old: led.core.membership.active.target(),
                new: voters,
            };
            let changed = led.changing(joint);
            lemma_follows_config(h, led.core, led.role, voters);
            let next = lemma_changing_fits(given, h, led, joint);
            if changed.failed is Some {
                lemma_stopped_fits(given, next, changed, write)
            } else {
                let waiting = Led {
                    role: LeaderView {
                        membership_writes: changed.role.membership_writes.insert(
                            changed.core.log.last_index() as u64,
                            write,
                        ),
                        ..changed.role
                    },
                    ..changed
                };
                assert(led_fits(given, next, waiting));
                if waiting.core.is_alone() {
                    lemma_same_order(changed, waiting);
                    lemma_can_commit_same(changed, waiting);
                    let last = lemma_committing_fits(given, next, waiting);
                    lemma_goes_on_twice(h, next, last, node);
                    last
                } else {
                    next
                }
            }
        },
    }
}

/// A leader that answers a membership change with the error that stopped it.
proof fn lemma_stopped_fits<S: State>(
    given: Given<S>,
    h: History,
    led: Led<S>,
    write: Write,
) -> (next: History)
    requires
        h.wf(),
        led_fits(given, h, led),
        led.failed is Some,
    ensures
        next == h,
        led_fits(given, next, led.awaiting_change(write).0),
        led.awaiting_change(write).0.core.id == led.core.id,
{
    let e = led.failed->Some_0;
    lemma_sending_fits(
        given,
        h,
        Led { failed: None, ..led },
        write.from,
        MessageView::ClientResponse { id: write.id, response: Err(e) },
    );
    h
}

/// A leader after a client's write.
proof fn lemma_write_fits<S: State>(
    given: Given<S>,
    h: History,
    led: Led<S>,
    command: Seq<u8>,
    write: Write,
) -> (next: History)
    requires
        h.wf(),
        led_fits(given, h, led),
        led.core.log.last_index() + 1 < u64::MAX,
        proposes_in_order(led.proposing(Some(command))),
        led.proposing(Some(command)).can_await(),
        given.init is Some ==> is_write::<S>(command),
        given.states.contains(
            (led.core.id, led.proposing(Some(command)).awaiting(write).0.core.state),
        ),
    ensures
        next.wf(),
        goes_on(h, next, led.core.id),
        asks_nothing(h, next),
        led_fits(given, next, led.proposing(Some(command)).awaiting(write).0),
        led.proposing(Some(command)).awaiting(write).0.core.id == led.core.id,
{
    let node = led.core.id;
    let proposed = led.proposing(Some(command));
    let next = lemma_proposing_fits(given, h, led, Some(command));
    if proposed.failed is Some {
        next
    } else {
        let waiting = Led {
            role: LeaderView {
                writes: proposed.role.writes.insert(
                    proposed.core.log.last_index() as u64,
                    write,
                ),
                ..proposed.role
            },
            ..proposed
        };
        assert(led_fits(given, next, waiting));
        if waiting.core.is_alone() {
            lemma_same_order(proposed, waiting);
            lemma_can_commit_same(proposed, waiting);
            let last = lemma_committing_fits(given, next, waiting);
            lemma_goes_on_twice(h, next, last, node);
            last
        } else {
            next
        }
    }
}

/// A leader after a client's request.
proof fn lemma_request_fits<S: State>(
    given: Given<S>,
    h: History,
    led: Led<S>,
    from: NodeID,
    id: RequestID,
    request: RequestView,
    storage: std::result::Result<StatusView, ErrorView>,
) -> (next: History)
    requires
        h.wf(),
        led_fits(given, h, led),
        led.failed is None,
        led.can_serve(request),
        serves_in_order(led, request),
        given.init is Some ==> asks_on::<S>(MessageView::ClientRequest { id, request }),
        given.states.contains((led.core.id, led.core.state)),
        given.states.contains(
            (led.core.id, led.requested(from, id, request, storage).0.core.state),
        ),
    ensures
        next.wf(),
        goes_on(h, next, led.core.id),
        forall|term: Term, seq: ReadSequence| #[trigger]
            next.inquiries.contains_key((term, seq)) && !h.inquiries.contains_key((term, seq))
                ==> (request matches RequestView::Read(command) && is_about(
                next.inquiries[(term, seq)],
                from,
                id,
                command,
            )),
        led_fits(given, next, led.requested(from, id, request, storage).0),
        led.requested(from, id, request, storage).0.core.id == led.core.id,
{
    let node = led.core.id;
    lemma_goes_on_same(h, node);
    let write = Write { from, id };
    match request {
        RequestView::Write(_) | RequestView::WriteSession { .. } => {
            let command = match request {
                RequestView::Write(command) => command,
                RequestView::WriteSession { client_id, seq, command } => session_command(
                    client_id,
                    seq,
                    command,
                ),
                _ => seq![],
            };
            lemma_write_fits(given, h, led, command, write)
        },
        RequestView::Read(command) => {
            let asked = lemma_queueing_fits(given, h, led, from, id, command);
            let seq = (led.role.read_seq + 1) as u64;
            let queued = Led {
                core: led.core.broadcasting(MessageView::Read { seq }),
                role: LeaderView {
                    read_seq: seq,
                    reads: led.role.reads.push(ReadView { seq, from, id, command }),
                    ..led.role
                },
                ..led
            };
            if queued.core.is_alone() {
                let next = lemma_reading_fits(given, asked, queued);
                lemma_goes_on(asked, next, node);
                lemma_goes_on_twice(h, asked, next, node);
                next
            } else {
                asked
            }
        },
        RequestView::ChangeMembership { voters } => {
            lemma_change_request_fits(given, h, led, voters, write)
        },
        _ => {
            let response = match storage {
                Ok(storage) => Ok(ResponseView::Status(led.status(storage))),
                Err(e) => Err(e),
            };
            lemma_sending_fits(given, h, led, from, MessageView::ClientResponse { id, response });
            h
        },
    }
}

/// A leader's step ends with the state that the leader has.
proof fn lemma_concluding_state<S: State>(led: Led<S>, step_down: bool, timeout: Ticks)
    ensures
        match concluding(led, step_down, timeout) {
            Ok(after) => after.base().state == led.core.state,
            Err(_) => true,
        },
{
}

/// A leader after the answer to a heartbeat.
proof fn lemma_heard_heartbeat_fits<S: State>(
    given: Given<S>,
    h: History,
    led: Led<S>,
    from: NodeID,
    match_index: Index,
    read_seq: ReadSequence,
) -> (next: History)
    requires
        h.wf(),
        led_fits(given, h, led),
        led.failed is None,
        led.role.progress.contains_key(from),
        match_index > 0 ==> h.acked(from, led.core.term(), match_index as nat),
        read_seq > 0 ==> h.confirmed(from, led.core.term(), read_seq),
        led.noting(from).confirming(from, read_seq).can_match(from, match_index),
        matches_in_order(led.noting(from).confirming(from, read_seq), from, match_index),
        given.states.contains((led.core.id, led.core.state)),
        given.states.contains(
            (led.core.id, led.heard_heartbeat(from, match_index, read_seq).0.core.state),
        ),
    ensures
        next.wf(),
        goes_on(h, next, led.core.id),
        asks_nothing(h, next),
        led_fits(given, next, led.heard_heartbeat(from, match_index, read_seq).0),
        led.heard_heartbeat(from, match_index, read_seq).0.core.id == led.core.id,
{
    let node = led.core.id;
    let noted = led.noting(from);
    assert(led_fits(given, h, noted));
    let first = lemma_confirming_fits(given, h, noted, from, read_seq);
    lemma_goes_on(h, first, node);
    let confirmed = noted.confirming(from, read_seq);
    let last = led.core.log.last_index() as u64;
    if match_index == 0 {
        let moved = confirmed.with_progress(
            from,
            confirmed.role.progress[from].regressing(last),
        );
        assert(led_fits(given, first, moved));
        lemma_sending_append_fits(given, first, moved, from, true);
        lemma_sending_keeps(moved, from, true);
        let asked = moved.sending_append(from, true);
        assert(asked.matching(from, match_index) == (asked, false));
        first
    } else {
        let next = lemma_matching_fits(given, first, confirmed, from, match_index);
        lemma_goes_on_twice(h, first, next, node);
        next
    }
}

/// A leader after a peer accepted an append or a snapshot.
proof fn lemma_heard_match_fits<S: State>(
    given: Given<S>,
    h: History,
    led: Led<S>,
    from: NodeID,
    index: Index,
) -> (next: History)
    requires
        h.wf(),
        led_fits(given, h, led),
        led.failed is None,
        led.role.progress.contains_key(from),
        index > 0 ==> h.acked(from, led.core.term(), index as nat),
        led.noting(from).can_match(from, index),
        matches_in_order(led.noting(from), from, index),
        given.states.contains((led.core.id, led.heard_match(from, index).0.core.state)),
    ensures
        next.wf(),
        goes_on(h, next, led.core.id),
        asks_nothing(h, next),
        led_fits(given, next, led.heard_match(from, index).0),
        led.heard_match(from, index).0.core.id == led.core.id,
{
    let noted = led.noting(from);
    assert(led_fits(given, h, noted));
    let after = noted.matching(from, index).0;
    lemma_sending_keeps(after, from, false);
    let next = lemma_matching_fits(given, h, noted, from, index);
    lemma_sending_append_fits(given, next, after, from, false);
    next
}

/// A leader after a message of its own term.
proof fn lemma_leader_step_fits<S: State>(
    given: Given<S>,
    h: History,
    core: Core<S>,
    role: LeaderView,
    msg: EnvelopeView,
    timeout: Ticks,
    storage: std::result::Result<StatusView, ErrorView>,
) -> (next: History)
    requires
        h.wf(),
        all_fits(given, h, NodeView::Leader(core, role)),
        message_fits(h, msg),
        msg.term == core.term(),
        leader_takes(core, role, msg),
        steps_in_order(NodeView::Leader(core, role), msg),
        given.init is Some ==> asks_on::<S>(msg.message),
        given.states.contains((core.id, core.state)),
        leader_step(core, role, msg, timeout, storage) matches Ok(after) && given.states.contains(
            (core.id, after.base().state),
        ),
    ensures
        next.wf(),
        goes_on(h, next, core.id),
        forall|term: Term, seq: ReadSequence| #[trigger]
            next.inquiries.contains_key((term, seq)) && !h.inquiries.contains_key((term, seq))
                ==> is_read(msg, next.inquiries[(term, seq)]),
        match leader_step(core, role, msg, timeout, storage) {
            Ok(after) => all_fits(given, next, after) && after.base().id == core.id,
            Err(_) => true,
        },
{
    let led = Led { core, role, failed: None };
    let from = msg.from;
    let known = role.progress.contains_key(from);
    let noted = led.noting(from);
    lemma_goes_on_same(h, core.id);
    assert(led_fits(given, h, led));
    assert(led_fits(given, h, noted));
    match msg.message {
        MessageView::HeartbeatResponse { match_index, read_seq } if known => {
            let (after, step_down) = led.heard_heartbeat(from, match_index, read_seq);
            lemma_concluding_state(after, step_down, timeout);
            let next = lemma_heard_heartbeat_fits(given, h, led, from, match_index, read_seq);
            lemma_concluding_fits(given, next, after, step_down, timeout);
            next
        },
        MessageView::AppendResponse { match_index, reject_index } if known => {
            if match_index > 0 {
                let (after, step_down) = led.heard_match(from, match_index);
                lemma_concluding_state(after, step_down, timeout);
                let next = lemma_heard_match_fits(given, h, led, from, match_index);
                lemma_concluding_fits(given, next, after, step_down, timeout);
                next
            } else {
                let progress = noted.role.progress[from];
                if reject_index > progress.match_index && progress.regresses(reject_index) {
                    let moved = noted.with_progress(from, progress.regressing(reject_index));
                    assert(led_fits(given, h, moved));
                    lemma_sending_append_fits(given, h, moved, from, true);
                    lemma_sending_keeps(moved, from, true);
                    let asked = moved.sending_append(from, true);
                    lemma_concluding_fits(given, h, asked, false, timeout);
                } else {
                    lemma_concluding_fits(given, h, noted, false, timeout);
                }
                h
            }
        },
        MessageView::ReadResponse { seq } if known => {
            let next = lemma_confirming_fits(given, h, noted, from, seq);
            lemma_concluding_fits(given, next, noted.confirming(from, seq), false, timeout);
            next
        },
        MessageView::InstallSnapshotResponse { last_included_index } if known => {
            let (after, step_down) = led.heard_match(from, last_included_index);
            lemma_concluding_state(after, step_down, timeout);
            let next = lemma_heard_match_fits(given, h, led, from, last_included_index);
            lemma_concluding_fits(given, next, after, step_down, timeout);
            next
        },
        MessageView::ClientRequest { id, request } => {
            let (after, step_down) = led.requested(from, id, request, storage);
            lemma_concluding_state(after, step_down, timeout);
            let next = lemma_request_fits(given, h, led, from, id, request, storage);
            lemma_concluding_fits(given, next, after, step_down, timeout);
            next
        },
        MessageView::Campaign { .. } => {
            lemma_sending_fits(given, h, led, from, MessageView::CampaignResponse { vote: false });
            lemma_concluding_fits(
                given,
                h,
                led.sending(from, MessageView::CampaignResponse { vote: false }),
                false,
                timeout,
            );
            h
        },
        _ => {
            lemma_concluding_fits(given, h, led, false, timeout);
            h
        },
    }
}

// Nodes.

/// A follower after a message of a later term.
#[verifier::spinoff_prover]
proof fn lemma_follower_later_fits<S: State>(
    given: Given<S>,
    h: History,
    core: Core<S>,
    role: FollowerView,
    msg: EnvelopeView,
    timeout: Ticks,
    storage: std::result::Result<StatusView, ErrorView>,
) -> (next: History)
    requires
        h.wf(),
        fits(h, NodeView::Follower(core, role)),
        core.out == Seq::<EnvelopeView>::empty(),
        answers_fit::<S>(h, given, seq![]),
        message_fits(h, msg),
        admits(NodeView::Follower(core, role), msg),
        is_known(core, msg.from),
        !drops_entries(h, core, msg),
        !skips_entries(core, msg.message),
        traces(given, h, core),
        given.init matches Some(init) ==> carries::<S>(init, h, msg),
        !is_prevote(msg.message),
        msg.term > core.term(),
        stepping(NodeView::Follower(core, role), msg, timeout, storage) matches Ok(after)
            && given.states.contains((core.id, after.base().state)),
    ensures
        next.wf(),
        goes_on(h, next, core.id),
        next.inquiries == h.inquiries,
        match stepping(NodeView::Follower(core, role), msg, timeout, storage) {
            Ok(after) => all_fits(given, next, after) && after.base().id == core.id,
            Err(_) => true,
        },
{
    let id = core.id;
    let after = stepping(NodeView::Follower(core, role), msg, timeout, storage);
    lemma_aborting_fits(
        h,
        core,
        requests_in_order(role.forwarded).map_values(|id: RequestID| (id, core.id)),
    );
    let found = lemma_adopting_fits(h, aborting_forwarded(core, role), msg.term);
    lemma_message_still_fits(h, found, id, msg);
    let (adopted, follower) = discovering(core, role, msg.term, timeout);
    assert(follower_takes(adopted, follower, msg)) by {
        assert(follower_takes(adopted, discovering(core, role, msg.term, 0).1, msg));
    }
    let next = lemma_follower_step_fits(found, adopted, follower, msg);
    lemma_goes_on_twice(h, found, next, id);
    lemma_traces_found(given, h, found, core, adopted, msg);
    lemma_follower_traces(given, found, next, adopted, follower, msg);
    lemma_answers_after(given, h, next, after, id);
    next
}

/// A follower after a message of its own term.
#[verifier::spinoff_prover]
proof fn lemma_follower_same_fits<S: State>(
    given: Given<S>,
    h: History,
    core: Core<S>,
    role: FollowerView,
    msg: EnvelopeView,
    timeout: Ticks,
    storage: std::result::Result<StatusView, ErrorView>,
) -> (next: History)
    requires
        h.wf(),
        fits(h, NodeView::Follower(core, role)),
        core.out == Seq::<EnvelopeView>::empty(),
        answers_fit::<S>(h, given, seq![]),
        message_fits(h, msg),
        admits(NodeView::Follower(core, role), msg),
        is_known(core, msg.from),
        !drops_entries(h, core, msg),
        !skips_entries(core, msg.message),
        traces(given, h, core),
        given.init matches Some(init) ==> carries::<S>(init, h, msg),
        !is_prevote(msg.message),
        msg.term == core.term(),
        stepping(NodeView::Follower(core, role), msg, timeout, storage) matches Ok(after)
            && given.states.contains((core.id, after.base().state)),
    ensures
        next.wf(),
        goes_on(h, next, core.id),
        next.inquiries == h.inquiries,
        match stepping(NodeView::Follower(core, role), msg, timeout, storage) {
            Ok(after) => all_fits(given, next, after) && after.base().id == core.id,
            Err(_) => true,
        },
{
    let id = core.id;
    let after = stepping(NodeView::Follower(core, role), msg, timeout, storage);
    let next = lemma_follower_step_fits(h, core, role, msg);
    lemma_follower_traces(given, h, next, core, role, msg);
    lemma_answers_after(given, h, next, after, id);
    next
}

/// A leader after a message of a later term.
#[verifier::spinoff_prover]
proof fn lemma_leader_later_fits<S: State>(
    given: Given<S>,
    h: History,
    core: Core<S>,
    role: LeaderView,
    msg: EnvelopeView,
    timeout: Ticks,
    storage: std::result::Result<StatusView, ErrorView>,
) -> (next: History)
    requires
        h.wf(),
        fits(h, NodeView::Leader(core, role)),
        core.out == Seq::<EnvelopeView>::empty(),
        answers_fit::<S>(h, given, seq![]),
        message_fits(h, msg),
        admits(NodeView::Leader(core, role), msg),
        is_known(core, msg.from),
        !drops_entries(h, core, msg),
        !skips_entries(core, msg.message),
        traces(given, h, core),
        given.init matches Some(init) ==> carries::<S>(init, h, msg),
        !is_prevote(msg.message),
        msg.term > core.term(),
        stepping(NodeView::Leader(core, role), msg, timeout, storage) matches Ok(after)
            && given.states.contains((core.id, after.base().state)),
    ensures
        next.wf(),
        goes_on(h, next, core.id),
        next.inquiries == h.inquiries,
        match stepping(NodeView::Leader(core, role), msg, timeout, storage) {
            Ok(after) => all_fits(given, next, after) && after.base().id == core.id,
            Err(_) => true,
        },
{
    let id = core.id;
    let after = stepping(NodeView::Leader(core, role), msg, timeout, storage);
    let found = lemma_stepping_down_fits(h, core, role, msg.term, timeout);
    lemma_message_still_fits(h, found, id, msg);
    let (adopted, follower) = stepping_down(core, role, msg.term, timeout);
    assert(follower_takes(adopted, follower, msg)) by {
        assert(follower_takes(
            stepping_down(core, role, msg.term, 0).0,
            stepping_down(core, role, msg.term, 0).1,
            msg,
        ));
    }
    let next = lemma_follower_step_fits(found, adopted, follower, msg);
    lemma_goes_on_twice(h, found, next, id);
    lemma_traces_found(given, h, found, core, adopted, msg);
    lemma_follower_traces(given, found, next, adopted, follower, msg);
    lemma_answers_after(given, h, next, after, id);
    next
}

/// A node after a message.
pub proof fn lemma_stepping_fits<S: State>(
    given: Given<S>,
    h: History,
    node: NodeView<S>,
    msg: EnvelopeView,
    timeout: Ticks,
    storage: std::result::Result<StatusView, ErrorView>,
) -> (next: History)
    requires
        h.wf(),
        fits(h, node),
        node.base().out == Seq::<EnvelopeView>::empty(),
        answers_fit::<S>(h, given, seq![]),
        message_fits(h, msg),
        admits(node, msg),
        !drops_entries(h, node.base(), msg),
        !skips_entries(node.base(), msg.message),
        steps_in_order(node, msg),
        traces(given, h, node.base()),
        given.init matches Some(init) ==> asks_on::<S>(msg.message) && carries::<S>(init, h, msg),
        given.states.contains((node.base().id, node.base().state)),
        stepping(node, msg, timeout, storage) matches Ok(after) && given.states.contains(
            (node.base().id, after.base().state),
        ),
    ensures
        next.wf(),
        goes_on(h, next, node.base().id),
        forall|term: Term, seq: ReadSequence| #[trigger]
            next.inquiries.contains_key((term, seq)) && !h.inquiries.contains_key((term, seq))
                ==> is_read(msg, next.inquiries[(term, seq)]),
        match stepping(node, msg, timeout, storage) {
            Ok(after) => all_fits(given, next, after) && after.base().id == node.base().id,
            Err(_) => true,
        },
{
    let id = node.base().id;
    lemma_goes_on_same(h, id);
    let after = stepping(node, msg, timeout, storage);
    lemma_answers_after(given, h, h, after, id);
    let moved = after->Ok_0.base();
    if moved.id == id && moved.state == node.base().state && moved.log == node.base().log && sends_plainly(
        node.base().out,
        moved.out,
    ) {
        lemma_traces_after(given, h, h, node.base(), moved);
    }
    if !is_known(node.base(), msg.from) {
        h
    } else {
        match node {
            NodeView::Follower(core, role) => {
                if is_prevote(msg.message) || msg.term < core.term() {
                    h
                } else if msg.term > core.term() {
                    lemma_follower_later_fits(given, h, core, role, msg, timeout, storage)
                } else {
                    lemma_follower_same_fits(given, h, core, role, msg, timeout, storage)
                }
            },
            NodeView::Candidate(core, role) => lemma_candidate_fits(
                given,
                h,
                core,
                role,
                msg,
                timeout,
            ),
            NodeView::Leader(core, role) => {
                if is_prevote(msg.message) || msg.term < core.term() {
                    h
                } else if msg.term > core.term() {
                    lemma_leader_later_fits(given, h, core, role, msg, timeout, storage)
                } else {
                    lemma_leader_step_fits(given, h, core, role, msg, timeout, storage)
                }
            },
        }
    }
}

/// A node that asks for support, or for votes at once.
proof fn lemma_pre_campaigning_fits<S: State>(h: History, core: Core<S>, timeout: Ticks) -> (next:
    History)
    requires
        h.wf(),
        core_fits(h, core),
        messages_fit(h, core.out),
        core.term() < u64::MAX,
    ensures
        next.wf(),
        goes_on(h, next, core.id),
        next.inquiries == h.inquiries,
        next.reigns == h.reigns,
        ({
            let (after, role) = pre_campaigning(core, timeout);
            &&& fits(next, NodeView::Candidate(after, role))
            &&& after.id == core.id
            &&& sends_plainly(core.out, after.out)
        }),
{
    if core.is_alone() {
        lemma_campaigning_fits(h, core, timeout)
    } else {
        let asking = core.sending_all(
            (core.log.term + 1) as u64,
            ascending(core.peers()),
            MessageView::PreCampaign {
                last_index: core.log.last_index() as u64,
                last_term: core.log.last_term(),
            },
        );
        assert forall|k: int| 0 <= k < asking.out.len() implies message_fits(
            h,
            #[trigger] asking.out[k],
        ) by {
            if k < core.out.len() {
                assert(asking.out[k] == core.out[k]);
            } else {
                assert(asking.out[k].message is PreCampaign);
            }
        }
        assert forall|k: int| core.out.len() <= k < asking.out.len() implies !((
        #[trigger] asking.out[k]).message is InstallSnapshot) by {
            assert(asking.out[k].message is PreCampaign);
        }
        lemma_plainly_twice(core.out, asking.out, pre_campaigning(core, timeout).0.out);
        if core.quorum(set![core.id]) {
            lemma_campaigning_fits(h, asking, timeout)
        } else {
            lemma_goes_on_same(h, core.id);
            h
        }
    }
}

/// A follower that becomes a candidate.
proof fn lemma_becoming_candidate_fits<S: State>(
    given: Given<S>,
    h: History,
    core: Core<S>,
    role: FollowerView,
    pre_vote: bool,
    timeout: Ticks,
) -> (next: History)
    requires
        h.wf(),
        core_fits(h, core),
        messages_fit(h, core.out),
        core.term() < u64::MAX,
        traces(given, h, core),
        given.init matches Some(init) ==> {
            let state = becoming_candidate(core, role, pre_vote, timeout).0.state;
            given.states.contains((core.id, state)) || leads_back::<S>(init, state)
        },
    ensures
        next.wf(),
        goes_on(h, next, core.id),
        next.inquiries == h.inquiries,
        next.reigns == h.reigns,
        ({
            let (after, candidate) = becoming_candidate(core, role, pre_vote, timeout);
            &&& fits(next, NodeView::Candidate(after, candidate))
            &&& after.id == core.id
            &&& traces(given, next, after)
        }),
{
    lemma_aborting_fits(
        h,
        core,
        requests_in_order(role.forwarded).map_values(|id: RequestID| (id, core.id)),
    );
    lemma_applying_fits(h, aborting_forwarded(core, role));
    let ready = applying_committed(aborting_forwarded(core, role));
    lemma_goes_on_same(h, core.id);
    lemma_traces_after(given, h, h, core, aborting_forwarded(core, role));
    lemma_traces_catching_up(given, h, aborting_forwarded(core, role));
    let next = if pre_vote {
        lemma_pre_campaigning_fits(h, ready, timeout)
    } else {
        lemma_campaigning_fits(h, ready, timeout)
    };
    lemma_traces_after(
        given,
        h,
        next,
        ready,
        becoming_candidate(core, role, pre_vote, timeout).0,
    );
    next
}

/// A node after a tick.
pub proof fn lemma_ticking_fits<S: State>(
    given: Given<S>,
    h: History,
    node: NodeView<S>,
    timeout: Ticks,
) -> (next: History)
    requires
        h.wf(),
        fits(h, node),
        answers_fit::<S>(h, given, seq![]),
        traces(given, h, node.base()),
        given.states.contains((node.base().id, ticking(node, timeout).base().state)),
        can_tick(node),
    ensures
        next.wf(),
        goes_on(h, next, node.base().id),
        all_fits(given, next, ticking(node, timeout)),
        ticking(node, timeout).base().id == node.base().id,
{
    let id = node.base().id;
    lemma_goes_on_same(h, id);
    let after = ticking(node, timeout);
    let next = match node {
        NodeView::Follower(core, role) => {
            let seen = (role.leader_seen + 1) as u8;
            if seen >= role.election_timeout {
                lemma_becoming_candidate_fits(given, h, core, role, core.opts.pre_vote, timeout)
            } else {
                lemma_traces_after(given, h, h, core, after.base());
                h
            }
        },
        NodeView::Candidate(core, role) => {
            let duration = (role.election_duration + 1) as u8;
            if duration >= role.election_timeout {
                let next = if core.opts.pre_vote {
                    lemma_pre_campaigning_fits(h, core, timeout)
                } else {
                    lemma_campaigning_fits(h, core, timeout)
                };
                lemma_traces_after(given, h, next, core, after.base());
                next
            } else {
                lemma_traces_after(given, h, h, core, after.base());
                h
            }
        },
        NodeView::Leader(core, role) => {
            let later = LeaderView {
                peer_seen: role.peer_seen.map_values(
                    |seen: Ticks|
                        if seen < u8::MAX {
                            (seen + 1) as u8
                        } else {
                            seen
                        },
                ),
                since_heartbeat: (role.since_heartbeat + 1) as u8,
                ..role
            };
            let led = Led { core, role: later, failed: None };
            lemma_answers_fit_more::<S>(h, h, given, seq![], core.out);
            assert(led_fits(given, h, led));
            lemma_heartbeating_fits(given, h, led);
            let beaten = if later.since_heartbeat >= core.opts.heartbeat_interval {
                led.heartbeating()
            } else {
                led
            };
            lemma_traces_after(given, h, h, beaten.core, after.base());
            lemma_stepping_down_fits(h, beaten.core, beaten.role, beaten.core.term(), timeout)
        },
    };
    lemma_answers_after(given, h, next, Ok(after), id);
    next
}

/// Whether a node that is alone can lead when it starts, and deals in order with what
/// it commits then.
pub open spec fn starts_in_order<S: State>(
    id: NodeID,
    peers: Set<NodeID>,
    log: LogView,
    state: S::Model,
    opts: Options,
) -> bool {
    let core = applying_committed(opened::<S>(id, peers, log, state, opts));
    let ready = becoming_candidate(core, new_follower(None, 0), false, 0).0;
    core.is_alone() ==> ready.quorum(set![id]) && wins_in_order(ready)
}

/// A node that opens the log that it has.
proof fn lemma_opened_fits<S: State>(
    h: History,
    id: NodeID,
    peers: Set<NodeID>,
    log: LogView,
    state: S::Model,
    opts: Options,
)
    requires
        h.wf(),
        log_fits(h, id, log),
        deeds_fit(h, id, log),
        log.latest_membership() is None ==> h.suits(
            h.logs[id],
            log.term + 1,
            MembershipView::Simple(peers.insert(id)),
        ),
    ensures
        core_fits(h, opened::<S>(id, peers, log, state, opts)),
{
    reveal(History::suits);
    lemma_config_of_rest(h, id, log);
}

/// A node that starts again with the log that it has.
pub proof fn lemma_starting_fits<S: State>(
    given: Given<S>,
    h: History,
    id: NodeID,
    peers: Set<NodeID>,
    log: LogView,
    state: S::Model,
    opts: Options,
    timeout: Ticks,
) -> (next: History)
    requires
        h.wf(),
        log_fits(h, id, log),
        deeds_fit(h, id, log),
        log.latest_membership() is None ==> h.suits(
            h.logs[id],
            log.term + 1,
            MembershipView::Simple(peers.insert(id)),
        ),
        starts_in_order::<S>(id, peers, log, state, opts),
        starting::<S>(id, peers, log, state, opts, timeout) matches Ok(after)
            && given.states.contains((id, after.base().state)),
        can_start::<S>(id, peers, log, state, opts),
        answers_fit::<S>(h, given, seq![]),
        ({
            let core = applying_committed(opened::<S>(id, peers, log, state, opts));
            &&& traces(given, h, core)
            &&& given.init is Some ==> core.applied() >= log.commit_index
            &&& given.init matches Some(init) ==> leads_back::<S>(init, core.state)
        }),
    ensures
        next.wf(),
        goes_on(h, next, id),
        match starting::<S>(id, peers, log, state, opts, timeout) {
            Ok(after) => all_fits(given, next, after) && after.base().id == id,
            Err(_) => true,
        },
{
    lemma_goes_on_same(h, id);
    let after = starting::<S>(id, peers, log, state, opts, timeout);
    lemma_answers_after(given, h, h, after, id);
    if peers.contains(id) {
        h
    } else {
        let first = opened::<S>(id, peers, log, state, opts);
        lemma_opened_fits::<S>(h, id, peers, log, state, opts);
        lemma_applying_fits(h, first);
        let core = applying_committed(first);
        let role = new_follower(None, timeout);
        if core.is_alone() {
            assert(given.init is Some ==> becoming_candidate(core, role, false, timeout).0.state
                == core.state) by {
                if given.init is Some {
                    let none = core.log.slice(core.applied() + 1, core.log.commit_index as int);
                    assert(none =~= seq![]);
                }
            }
            let asked = lemma_becoming_candidate_fits(given, h, core, role, false, timeout);
            lemma_goes_on(h, asked, id);
            lemma_answers_fit_more::<S>(h, asked, given, seq![], seq![]);
            let (ready, candidate) = becoming_candidate(core, role, false, timeout);
            assert(ready == becoming_candidate(core, new_follower(None, 0), false, 0).0);
            let voters = core.voters();
            lemma_ids_finite(voters);
            let next = lemma_winning_fits(given, asked, ready, candidate.votes);
            lemma_goes_on_twice(h, asked, next, id);
            next
        } else {
            h
        }
    }
}

} // verus!
