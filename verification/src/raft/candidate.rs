//! Candidates: they ask for votes, after asking whether they could win.

use std::collections::BTreeSet;

use vstd::prelude::*;

use super::entry::Term;
use super::follower::Follower;
use super::ids::NodeID;
use super::leader::{ends_with, steps_to};
use super::message::{Envelope, Message};
use super::model::{
    becoming_candidate, campaigning, can_win, candidate_admits, candidate_is_quiet,
    candidate_receives, candidate_step, candidate_takes, candidate_ticks, conceding, counting,
    follower_step, follower_takes, follower_ticks, is_binding, is_quiet_tick, is_same_log,
    new_candidate, new_follower, pre_campaigning, risks, supported, CandidateView, ElectionPhase,
    NodeView, Ticks,
};
use super::node::{Node, RawNode, Role};
use super::state::State;
use crate::error::{Error, Result};
use crate::storage::engine::Engine;

verus! {

broadcast use vstd::std_specs::btree::group_btree_axioms;

/// A candidate asks for votes.
pub struct Candidate {
    /// Who granted their vote, this node included.
    pub votes: BTreeSet<NodeID>,
    /// The ticks since the election started.
    pub election_duration: Ticks,
    pub election_timeout: Ticks,
    pub phase: ElectionPhase,
}

impl Role for Candidate {

}

impl View for Candidate {
    type V = CandidateView;

    open spec fn view(&self) -> CandidateView {
        CandidateView {
            votes: self.votes@,
            election_duration: self.election_duration,
            election_timeout: self.election_timeout,
            phase: self.phase,
        }
    }
}

impl Candidate {
    /// A candidate without any vote yet.
    pub fn new(election_timeout: Ticks, phase: ElectionPhase) -> (r: Candidate)
        ensures
            r@ == (CandidateView {
                votes: Set::empty(),
                election_duration: 0,
                election_timeout,
                phase,
            }),
    {
        Candidate { votes: BTreeSet::new(), election_duration: 0, election_timeout, phase }
    }
}

impl<E: Engine, S: State> RawNode<Candidate, E, S> {
    pub open spec fn view(&self) -> NodeView<S> {
        NodeView::Candidate(self.base(), self.role@)
    }

    pub open spec fn wf(&self) -> bool {
        &&& self.sound()
        &&& self.role.election_duration == 0 || self.role.election_duration
            < self.role.election_timeout
        &&& self.role.phase == ElectionPhase::Election ==> self.base().log.term > 0
            && self.base().log.vote == Some(self.id)
    }

    /// Whether what changed of the log on the way to `next` is durable.
    pub open spec fn answers_durably(&self, next: &Node<E, S>) -> bool {
        ||| next.is_flushed()
        ||| next.is_flushed() == self.log.is_flushed() && is_same_log(
            self.base().log,
            next.view().base().log,
        )
    }

    /// Starts over as a candidate that has its own vote.
    fn restart(&mut self, timeout: Ticks, phase: ElectionPhase)
        ensures
            *final(self) == (RawNode { role: final(self).role, ..*old(self) }),
            final(self).role@ == new_candidate(old(self).id, timeout, phase),
    {
        self.role = Candidate::new(timeout, phase);
        self.role.votes.insert(self.id);
        assert(self.role@.votes =~= set![self.id]);
    }

    /// Asks for votes in a new term.
    pub fn campaign(&mut self, timeout: Ticks) -> (r: Result<()>)
        requires
            old(self).sound(),
            old(self).base().term() < u64::MAX,
        ensures
            final(self).reliable() == old(self).reliable(),
            match r {
                Ok(()) => final(self).wf() && final(self).log.is_flushed() && (
                final(self).base(),
                final(self).role@,
                ) == campaigning(old(self).base(), timeout),
                Err(_) => !old(self).reliable(),
            },
    {
        let term = self.term() + 1;
        self.restart(timeout, ElectionPhase::Election);
        let id = self.id;
        match self.log.set_term_vote(term, Some(id)) {
            Ok(()) => {},
            Err(e) => return Err(e),
        }
        let (last_index, last_term) = self.log.get_last_index();
        self.broadcast(&Message::Campaign { last_index, last_term });
        Ok(())
    }

    /// Asks whether an election could be won, without raising the term.
    pub fn pre_campaign(&mut self, timeout: Ticks) -> (r: Result<()>)
        requires
            old(self).sound(),
            old(self).base().term() < u64::MAX,
        ensures
            final(self).reliable() == old(self).reliable(),
            !old(self).base().is_alone() && !old(self).base().quorum(set![old(self).id])
                ==> r is Ok,
            r is Ok && final(self).base().term() != old(self).base().term()
                ==> final(self).log.is_flushed(),
            match r {
                Ok(()) => final(self).wf() && (final(self).base(), final(self).role@)
                    == pre_campaigning(old(self).base(), timeout),
                Err(_) => !old(self).reliable(),
            },
    {
        self.restart(timeout, ElectionPhase::PreVote);
        if self.cluster_size() == 1 {
            return self.campaign(timeout);
        }
        let (last_index, last_term) = self.log.get_last_index();
        let intended = self.term() + 1;
        self.broadcast_in(intended, &Message::PreCampaign { last_index, last_term });
        if self.membership.has_quorum(&self.role.votes) {
            return self.campaign(timeout);
        }
        Ok(())
    }

    /// Becomes a follower: of a leader of the current term, or of none in a new
    /// term.
    pub fn into_follower(self, term: Term, leader: Option<NodeID>, timeout: Ticks) -> (r: Result<
        RawNode<Follower, E, S>,
    >)
        requires
            self.wf(),
            match leader {
                Some(_) => term == self.base().term(),
                None => term > self.base().term(),
            },
        ensures
            leader is Some ==> r is Ok && r->Ok_0.log == self.log,
            match r {
                Ok(node) => {
                    &&& node.wf()
                    &&& node.reliable() == self.reliable()
                    &&& leader is None ==> node.log.is_flushed()
                    &&& (node.base(), node.role@) == match leader {
                        Some(leader) => (self.base(), new_follower(Some(leader), timeout)),
                        None => conceding(self.base(), term, timeout),
                    }
                },
                Err(_) => !self.reliable(),
            },
    {
        let mut node = self;
        match leader {
            Some(leader) => Ok(node.into_role(Follower::new(Some(leader), timeout))),
            None => {
                match node.log.set_term_vote(term, None) {
                    Ok(()) => {},
                    Err(e) => return Err(e),
                }
                Ok(node.into_role(Follower::new(None, timeout)))
            },
        }
    }

    /// Counts a vote, if it is that of a voter, and tells whether there are
    /// enough.
    fn count(&mut self, from: NodeID) -> (r: bool)
        ensures
            *final(self) == (RawNode { role: final(self).role, ..*old(self) }),
            final(self).role@ == (CandidateView {
                votes: counting(old(self).base(), old(self).role@, from),
                ..old(self).role@
            }),
            r == old(self).base().quorum(counting(old(self).base(), old(self).role@, from)),
    {
        if self.membership.all_voters().contains(&from) {
            self.role.votes.insert(from);
        }
        self.membership.has_quorum(&self.role.votes)
    }

    /// Follows the leader that a message comes from, and takes the message.
    fn follow(self, msg: Envelope, timeout: Ticks) -> (r: Result<Node<E, S>>)
        requires
            self.wf(),
            msg.term == self.base().term(),
            follower_takes(self.base(), new_follower(Some(msg.from), timeout), msg@),
        ensures
            msg@.message is Read ==> r is Ok,
            is_binding(msg@.message, self.base().log.fsync) && r is Ok ==> self.answers_durably(
                &r->Ok_0,
            ),
            steps_to(
                r,
                follower_step(
                    self.base(),
                    new_follower(Some(msg.from), timeout),
                    msg@,
                ),
                self.reliable(),
                risks(NodeView::Follower(self.base(), new_follower(Some(msg.from), timeout)), msg@),
                self.view(),
                msg@,
            ),
    {
        let node = match self.into_follower(msg.term, Some(msg.from), timeout) {
            Ok(node) => node,
            Err(e) => return Err(e),
        };
        match node.step_in_term(msg) {
            Ok(node) => Ok(Node::Follower(node)),
            Err(e) => Err(e),
        }
    }

    /// Takes a message of the current term.
    fn step_in_term(self, msg: Envelope, timeout: Ticks) -> (r: Result<Node<E, S>>)
        requires
            self.wf(),
            msg.term == self.base().term(),
            candidate_takes(self.base(), self.role@, msg@),
        ensures
            candidate_is_quiet(self.base(), self.role@, msg@) ==> r is Ok,
            is_binding(msg@.message, self.base().log.fsync) && r is Ok ==> self.answers_durably(
                &r->Ok_0,
            ),
            steps_to(
                r,
                candidate_step(self.base(), self.role@, msg@, timeout),
                self.reliable(),
                risks(self.view(), msg@),
                self.view(),
                msg@,
            ),
    {
        let mut node = self;
        let from = msg.from;
        match &msg.message {
            Message::CampaignResponse { vote } => {
                if *vote {
                    match node.role.phase {
                        ElectionPhase::Election => {
                            if node.count(from) {
                                return match node.into_leader() {
                                    Ok(node) => Ok(Node::Leader(node)),
                                    Err(e) => Err(e),
                                };
                            }
                        },
                        ElectionPhase::PreVote => {},
                    }
                }
                Ok(Node::Candidate(node))
            },
            Message::Campaign { .. } => {
                node.send(from, Message::CampaignResponse { vote: false });
                Ok(Node::Candidate(node))
            },
            Message::Heartbeat { .. } => node.follow(msg, timeout),
            Message::Append { .. } => node.follow(msg, timeout),
            Message::Read { .. } => node.follow(msg, timeout),
            Message::InstallSnapshot { .. } => node.follow(msg, timeout),
            Message::ClientRequest { id, .. } => {
                node.send(
                    from,
                    Message::ClientResponse { id: *id, response: Err(Error::Abort) },
                );
                Ok(Node::Candidate(node))
            },
            _ => Ok(Node::Candidate(node)),
        }
    }

    /// Takes a message. A later term makes the candidate a follower first;
    /// pre-votes never change the term, and messages of past terms are dropped.
    pub fn step(self, msg: Envelope, timeout: Ticks) -> (r: Result<Node<E, S>>)
        requires
            self.wf(),
            candidate_admits(self.base(), self.role@, msg@),
        ensures
            candidate_is_quiet(self.base(), self.role@, msg@) ==> r is Ok,
            is_binding(msg@.message, self.base().log.fsync) && r is Ok ==> self.answers_durably(
                &r->Ok_0,
            ),
            steps_to(
                r,
                candidate_receives(self.base(), self.role@, msg@, timeout),
                self.reliable(),
                risks(self.view(), msg@),
                self.view(),
                msg@,
            ),
    {
        let mut node = self;
        match &msg.message {
            Message::PreCampaign { last_index, last_term } => {
                let vote = node.is_current(*last_index, *last_term) && msg.term > node.term();
                node.send(msg.from, Message::PreCampaignResponse { vote });
                return Ok(Node::Candidate(node));
            },
            Message::PreCampaignResponse { vote } => {
                if *vote {
                    match node.role.phase {
                        ElectionPhase::PreVote => {
                            return node.count_support(msg.from, timeout);
                        },
                        ElectionPhase::Election => {},
                    }
                }
                return Ok(Node::Candidate(node));
            },
            _ => {},
        }
        let term = node.term();
        if msg.term < term {
            return Ok(Node::Candidate(node));
        }
        if msg.term > term {
            let node = match node.into_follower(msg.term, None, timeout) {
                Ok(node) => node,
                Err(e) => return Err(e),
            };
            match node.step_in_term(msg) {
                Ok(node) => Ok(Node::Follower(node)),
                Err(e) => Err(e),
            }
        } else {
            node.step_in_term(msg, timeout)
        }
    }

    /// Counts support for an election, and starts it once there is enough.
    fn count_support(self, from: NodeID, timeout: Ticks) -> (r: Result<Node<E, S>>)
        requires
            self.wf(),
            self.role.phase == ElectionPhase::PreVote,
            self.base().quorum(counting(self.base(), self.role@, from)) ==> {
                &&& self.base().term() < u64::MAX
                &&& self.base().quorum(set![self.id]) ==> can_win(campaigning(self.base(), 0).0)
            },
        ensures
            !self.base().quorum(counting(self.base(), self.role@, from)) ==> r is Ok,
            ends_with(
                r,
                supported(self.base(), self.role@, from, timeout),
                self.reliable(),
            ),
    {
        let mut node = self;
        if !node.count(from) {
            return Ok(Node::Candidate(node));
        }
        match node.campaign(timeout) {
            Ok(()) => {},
            Err(e) => return Err(e),
        }
        assert(campaigning(self.base(), timeout).0 == campaigning(self.base(), 0).0);
        if node.membership.has_quorum(&node.role.votes) {
            match node.into_leader() {
                Ok(node) => Ok(Node::Leader(node)),
                Err(e) => Err(e),
            }
        } else {
            Ok(Node::Candidate(node))
        }
    }

    /// Takes a tick: the election starts over if it takes too long.
    pub fn tick(self, timeout: Ticks) -> (r: Result<Node<E, S>>)
        requires
            self.wf(),
            self.role.election_duration + 1 >= self.role.election_timeout ==> self.base().term()
                < u64::MAX,
        ensures
            is_quiet_tick(self.view()) ==> r is Ok,
            r is Ok && r->Ok_0.view().base().term() != self.base().term()
                ==> r->Ok_0.is_flushed(),
            ends_with(
                r,
                Ok(candidate_ticks(self.base(), self.role@, timeout)),
                self.reliable(),
            ),
    {
        let mut node = self;
        node.role.election_duration = node.role.election_duration + 1;
        if node.role.election_duration >= node.role.election_timeout {
            let started = if node.opts.pre_vote {
                node.pre_campaign(timeout)
            } else {
                node.campaign(timeout)
            };
            match started {
                Ok(()) => {},
                Err(e) => return Err(e),
            }
        }
        Ok(Node::Candidate(node))
    }
}

impl<E: Engine, S: State> RawNode<Follower, E, S> {
    /// Starts an election, with a pre-vote if `pre_vote` is set.
    pub fn into_candidate(self, pre_vote: bool, timeout: Ticks) -> (r: Result<
        RawNode<Candidate, E, S>,
    >)
        requires
            self.sound(),
            self.base().term() < u64::MAX,
        ensures
            match r {
                Ok(node) => {
                    &&& node.wf()
                    &&& node.reliable() == self.reliable()
                    &&& node.base().term() != self.base().term() ==> node.log.is_flushed()
                    &&& (node.base(), node.role@) == becoming_candidate(
                        self.base(),
                        self.role@,
                        pre_vote,
                        timeout,
                    )
                },
                Err(_) => !self.reliable(),
            },
    {
        let mut node = self;
        node.abort_forwarded();
        match node.maybe_apply() {
            Ok(()) => {},
            Err(e) => return Err(e),
        }
        let phase = if pre_vote {
            ElectionPhase::PreVote
        } else {
            ElectionPhase::Election
        };
        let mut node = node.into_role(Candidate::new(timeout, phase));
        let started = if pre_vote {
            node.pre_campaign(timeout)
        } else {
            node.campaign(timeout)
        };
        match started {
            Ok(()) => Ok(node),
            Err(e) => Err(e),
        }
    }

    /// Takes a tick: starts an election if no leader was heard from for the
    /// election timeout.
    pub fn tick(self, timeout: Ticks) -> (r: Result<Node<E, S>>)
        requires
            self.wf(),
            self.role.leader_seen + 1 >= self.role.election_timeout ==> self.base().term()
                < u64::MAX,
        ensures
            is_quiet_tick(self.view()) ==> r is Ok,
            r is Ok && r->Ok_0.view().base().term() != self.base().term()
                ==> r->Ok_0.is_flushed(),
            ends_with(
                r,
                Ok(follower_ticks(self.base(), self.role@, timeout)),
                self.reliable(),
            ),
    {
        let mut node = self;
        node.role.leader_seen = node.role.leader_seen + 1;
        if node.role.leader_seen >= node.role.election_timeout {
            let pre_vote = node.opts.pre_vote;
            match node.into_candidate(pre_vote, timeout) {
                Ok(node) => Ok(Node::Candidate(node)),
                Err(e) => Err(e),
            }
        } else {
            Ok(Node::Follower(node))
        }
    }
}

} // verus!
