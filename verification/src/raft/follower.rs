//! Followers: they answer the leader and vote for candidates.

use std::collections::HashSet;

use vstd::prelude::*;

use super::entry::{entry_views, Entry, Index, Term};
use super::ids::NodeID;
use super::log::latest_change;
use super::log_laws::{lemma_agreeing, splice_keeps_committed};
use super::membership::MembershipEntry;
use super::message::{
    answer, answer_detail, message_detail, Envelope, EnvelopeView, Message, Request, RequestID,
    Response,
};
use super::model::{
    aborting_forwarded, can_follow, discovering, follower_admits, follower_append,
    follower_campaign, follower_heartbeat, follower_is_quiet, follower_prevote, follower_receives,
    follower_request, follower_response, follower_snapshot, follower_step, follower_takes,
    following, grants_vote, installs, is_binding, is_foreign, is_known, is_quiet, is_same_log,
    new_follower, requests_in_order, risks, Core, FollowerView, NodeView, Ticks,
};
use super::node::{RawNode, Role};
use super::order::requests_of;
use super::state::State;
use crate::error::{Error, ErrorView, Result};
use crate::storage::engine::Engine;

verus! {

broadcast use vstd::std_specs::hash::group_hash_axioms;

/// A follower replicates the leader's log and forwards requests to it.
pub struct Follower {
    /// The leader of the current term, if it is known.
    pub leader: Option<NodeID>,
    /// The ticks since the leader was last heard.
    pub leader_seen: Ticks,
    pub election_timeout: Ticks,
    /// The requests forwarded to the leader, to be aborted when it changes.
    pub forwarded: HashSet<RequestID>,
}

impl Role for Follower {

}

impl View for Follower {
    type V = FollowerView;

    open spec fn view(&self) -> FollowerView {
        FollowerView {
            leader: self.leader,
            leader_seen: self.leader_seen,
            election_timeout: self.election_timeout,
            forwarded: self.forwarded@,
        }
    }
}

impl Follower {
    pub fn new(leader: Option<NodeID>, election_timeout: Ticks) -> (r: Follower)
        ensures
            r@ == new_follower(leader, election_timeout),
    {
        Follower { leader, leader_seen: 0, election_timeout, forwarded: HashSet::new() }
    }

    /// Whether another leader than `from` is known.
    pub fn is_foreign(&self, from: NodeID) -> (r: bool)
        ensures
            r == is_foreign(self@, from),
    {
        match self.leader {
            Some(leader) => leader != from,
            None => false,
        }
    }
}

impl<E: Engine, S: State> RawNode<Follower, E, S> {
    pub open spec fn view(&self) -> NodeView<S> {
        NodeView::Follower(self.base(), self.role@)
    }

    pub open spec fn wf(&self) -> bool {
        &&& self.sound()
        &&& self.role.leader_seen == 0 || self.role.leader_seen < self.role.election_timeout
    }

    /// Whether what changed of the log on the way to `next` is durable.
    pub open spec fn answers_durably(&self, next: &Self) -> bool {
        ||| next.log.is_flushed()
        ||| next.log.is_flushed() == self.log.is_flushed() && is_same_log(
            self.base().log,
            next.base().log,
        )
    }

    /// Aborts the requests forwarded to the leader.
    pub(crate) fn abort_forwarded(&mut self)
        ensures
            final(self).base() == aborting_forwarded(old(self).base(), old(self).role@),
            final(self).role@ == (FollowerView { forwarded: Set::empty(), ..old(self).role@ }),
            final(self).log == old(self).log,
            final(self).sound() == old(self).sound(),
            final(self).reliable() == old(self).reliable(),
    {
        let requests = requests_of(&self.role.forwarded);
        self.role.forwarded = HashSet::new();
        let mut own: Vec<(RequestID, NodeID)> = Vec::new();
        let mut i: usize = 0;
        while i < requests.len()
            invariant
                i <= requests@.len(),
                own@.len() == i,
                forall|k: int| 0 <= k < i ==> #[trigger] own@[k] == (requests@[k], self.id),
            decreases requests@.len() - i,
        {
            own.push((requests[i], self.id));
            i = i + 1;
        }
        let ghost core = old(self).base();
        assert(own@ =~= requests_in_order(old(self).role@.forwarded).map_values(
            |id: RequestID| (id, core.id),
        ));
        self.abort_all(&own);
    }

    /// Follows the leader of the current term, or becomes a follower without a
    /// leader in a new term.
    pub fn into_follower(self, term: Term, leader: Option<NodeID>, timeout: Ticks) -> (r: Result<
        RawNode<Follower, E, S>,
    >)
        requires
            self.wf(),
            term != 0,
            match leader {
                Some(leader) => {
                    &&& self.base().voters().contains(leader)
                    &&& self.role.leader is None
                    &&& term == self.base().term()
                },
                None => term > self.base().term(),
            },
        ensures
            leader is Some ==> r is Ok && r->Ok_0.log == self.log,
            match r {
                Ok(node) => {
                    &&& node.wf()
                    &&& node.reliable() == self.reliable()
                    &&& leader is None ==> node.log.is_flushed()
                    &&& (node.base(), node.role@) == match leader {
                        Some(leader) => following(self.base(), self.role@, leader),
                        None => discovering(self.base(), self.role@, term, timeout),
                    }
                },
                Err(_) => !self.reliable(),
            },
    {
        let mut node = self;
        node.abort_forwarded();
        match leader {
            Some(leader) => {
                let timeout = node.role.election_timeout;
                node.role = Follower::new(Some(leader), timeout);
            },
            None => {
                match node.log.set_term_vote(term, None) {
                    Ok(()) => {},
                    Err(e) => return Err(e),
                }
                node.role = Follower::new(None, timeout);
            },
        }
        Ok(node)
    }

    /// Answers a pre-vote. The term and the vote do not change.
    fn step_prevote(
        self,
        from: NodeID,
        term: Term,
        last_index: Index,
        last_term: Term,
        Ghost(msg): Ghost<EnvelopeView>,
    ) -> (r: RawNode<Follower, E, S>)
        requires
            self.wf(),
            msg.from == from,
            msg.term == term,
        ensures
            r.wf(),
            r.reliable() == self.reliable(),
            r.role == self.role,
            r.base() == follower_prevote(self.base(), self.role@, msg, last_index, last_term),
    {
        let mut node = self;
        let has_leader = match node.role.leader {
            Some(_) => true,
            None => false,
        };
        let vote = if has_leader && node.role.leader_seen < node.role.election_timeout {
            false
        } else {
            node.is_current(last_index, last_term) && term > node.term()
        };
        node.send(from, Message::PreCampaignResponse { vote });
        node
    }
}

impl<E: Engine, S: State> RawNode<Follower, E, S> {
    /// Follows the sender of a leader's message, if no leader is known.
    fn follow(self, from: NodeID) -> (r: Result<RawNode<Follower, E, S>>)
        requires
            self.wf(),
            !is_foreign(self.role@, from),
            can_follow(self.base(), self.role@, from),
        ensures
            r is Ok && r->Ok_0.log == self.log,
            match r {
                Ok(node) => {
                    &&& node.wf()
                    &&& node.reliable() == self.reliable()
                    &&& (node.base(), node.role@) == following(self.base(), self.role@, from)
                },
                Err(_) => !self.reliable(),
            },
    {
        match self.role.leader {
            Some(_) => Ok(self),
            None => {
                let term = self.term();
                let timeout = self.role.election_timeout;
                self.into_follower(term, Some(from), timeout)
            },
        }
    }

    /// Answers a heartbeat, and commits and applies what the leader committed if
    /// the logs match.
    fn step_heartbeat(
        self,
        from: NodeID,
        term: Term,
        last_index: Index,
        commit_index: Index,
        read_seq: u64,
        Ghost(msg): Ghost<EnvelopeView>,
    ) -> (r: Result<RawNode<Follower, E, S>>)
        requires
            self.wf(),
            msg.from == from,
            msg.term == term,
            commit_index <= last_index,
            self.base().log.has(last_index as int, term) ==> self.base().is_writable_to(
                commit_index as int,
            ),
        ensures
            match r {
                Ok(node) => {
                    &&& node.wf()
                    &&& node.reliable() == self.reliable()
                    &&& node.role == self.role
                    &&& node.base() == follower_heartbeat(
                        self.base(),
                        msg,
                        last_index,
                        commit_index,
                        read_seq,
                    )
                },
                Err(_) => !self.reliable(),
            },
    {
        let mut node = self;
        let matches = match node.log.has(last_index, term) {
            Ok(matches) => matches,
            Err(e) => return Err(e),
        };
        let match_index: Index = if matches {
            last_index
        } else {
            0
        };
        node.send(from, Message::HeartbeatResponse { match_index, read_seq });
        let (committed, _) = node.log.get_commit_index();
        if match_index != 0 && commit_index > committed {
            proof {
                node.log.lemma_bounds();
            }
            match node.log.commit(commit_index) {
                Ok(_) => {},
                Err(e) => return Err(e),
            }
            match node.maybe_apply() {
                Ok(()) => {},
                Err(e) => return Err(e),
            }
        }
        Ok(node)
    }

    /// Appends the leader's entries if the logs match before them, and adopts
    /// the last membership change in the log, if the log gained or lost one.
    fn step_append(
        self,
        from: NodeID,
        base_index: Index,
        base_term: Term,
        entries: Vec<Entry>,
        Ghost(msg): Ghost<EnvelopeView>,
    ) -> (r: Result<RawNode<Follower, E, S>>)
        requires
            self.wf(),
            msg.from == from,
            base_index == 0 || self.base().log.has(base_index as int, base_term)
                ==> self.base().log.spliceable(entry_views(entries@)),
        ensures
            match r {
                Ok(node) => {
                    &&& node.wf()
                    &&& node.reliable() == self.reliable()
                    &&& node.role == self.role
                    &&& self.base().log.fsync ==> self.answers_durably(&node)
                    &&& node.base() == follower_append(
                        self.base(),
                        msg,
                        base_index,
                        base_term,
                        entry_views(entries@),
                    )
                },
                Err(_) => !self.reliable(),
            },
    {
        let mut node = self;
        let ghost views = entry_views(entries@);
        let matches = if base_index == 0 {
            true
        } else {
            match node.log.has(base_index, base_term) {
                Ok(matches) => matches,
                Err(e) => return Err(e),
            }
        };
        if matches {
            let count = entries.len();
            let match_index: Index = if count == 0 {
                base_index
            } else {
                assert(views.last() == entries@[count - 1]@);
                entries[count - 1].index
            };
            let (last_index, _) = node.log.get_last_index();
            let grows = !has_change(&entries) && (count == 0 || entries[0].index > last_index);
            let ghost before = node.base();
            assert(count > 0 ==> views[0] == entries@[0]@);
            proof {
                node.log.lemma_bounds();
                splice_keeps_committed(before.log, views);
                lemma_agreeing(before.log, views);
            }
            match node.log.splice(entries) {
                Ok(_) => {},
                Err(e) => return Err(e),
            }
            assert(node.base().is_writable());
            if !grows {
                match node.restore_membership_from_log() {
                    Ok(()) => {},
                    Err(e) => return Err(e),
                }
            }
            node.send(from, Message::AppendResponse { match_index, reject_index: 0 });
        } else {
            let (last_index, _) = node.log.get_last_index();
            let reject_index: Index = if base_index <= last_index {
                base_index
            } else {
                last_index + 1
            };
            node.send(from, Message::AppendResponse { match_index: 0, reject_index });
        }
        Ok(node)
    }

    /// Votes for a candidate, if the node has not voted for another one in this
    /// term and the candidate's log is current.
    fn step_campaign(
        self,
        from: NodeID,
        last_index: Index,
        last_term: Term,
        Ghost(msg): Ghost<EnvelopeView>,
    ) -> (r: Result<RawNode<Follower, E, S>>)
        requires
            self.wf(),
            msg.from == from,
            msg.term == self.base().term(),
            grants_vote(self.base(), from, last_index, last_term) ==> self.base().term() > 0,
        ensures
            !grants_vote(self.base(), from, last_index, last_term) ==> r is Ok,
            match r {
                Ok(node) => {
                    &&& node.wf()
                    &&& node.reliable() == self.reliable()
                    &&& node.role == self.role
                    &&& self.answers_durably(&node)
                    &&& node.base() == follower_campaign(self.base(), msg, last_index, last_term)
                },
                Err(_) => !self.reliable(),
            },
    {
        let mut node = self;
        let (term, vote) = node.log.get_term_vote();
        let free = match vote {
            Some(vote) => vote == from,
            None => true,
        };
        if free && node.is_current(last_index, last_term) {
            match node.log.set_term_vote(term, Some(from)) {
                Ok(()) => {},
                Err(e) => return Err(e),
            }
            node.send(from, Message::CampaignResponse { vote: true });
        } else {
            node.send(from, Message::CampaignResponse { vote: false });
        }
        Ok(node)
    }

    /// Forwards a client's request to the leader, or aborts it if there is none
    /// or it is another node's.
    fn step_request(
        self,
        from: NodeID,
        id: RequestID,
        request: Request,
        Ghost(msg): Ghost<EnvelopeView>,
    ) -> (r: RawNode<Follower, E, S>)
        requires
            self.wf(),
            msg.from == from,
        ensures
            r.wf(),
            r.reliable() == self.reliable(),
            (r.base(), r.role@) == follower_request(self.base(), self.role@, msg, id, request@),
    {
        let mut node = self;
        if from != node.id {
            node.send(from, Message::ClientResponse { id, response: Err(Error::Abort) });
            return node;
        }
        match node.role.leader {
            Some(leader) => {
                node.role.forwarded.insert(id);
                node.send(leader, Message::ClientRequest { id, request });
            },
            None => {
                node.send(from, Message::ClientResponse { id, response: Err(Error::Abort) });
            },
        }
        node
    }

    /// Hands the leader's answer to a forwarded request on to the client.
    fn step_response(
        self,
        from: NodeID,
        id: RequestID,
        response: Result<Response>,
        Ghost(msg): Ghost<EnvelopeView>,
    ) -> (r: RawNode<Follower, E, S>)
        requires
            self.wf(),
            msg.from == from,
        ensures
            r.wf(),
            r.reliable() == self.reliable(),
            (r.base(), r.role@) == follower_response(
                self.base(),
                self.role@,
                msg,
                id,
                answer(response),
            ),
            r.outbox@.len() > self.outbox@.len() ==> message_detail(r.outbox@.last().message)
                == answer_detail(response),
    {
        let mut node = self;
        let is_leader = match node.role.leader {
            Some(leader) => leader == from,
            None => false,
        };
        if is_leader {
            if node.role.forwarded.remove(&id) {
                let to = node.id;
                node.send(to, Message::ClientResponse { id, response });
            } else {
                assert(node.role.forwarded@ =~= self.role.forwarded@);
            }
        }
        node
    }

    /// Installs a snapshot, if it is not behind what the node has.
    fn step_snapshot(
        self,
        from: NodeID,
        index: Index,
        term: Term,
        data: Vec<u8>,
        membership: MembershipEntry,
        Ghost(msg): Ghost<EnvelopeView>,
    ) -> (r: Result<RawNode<Follower, E, S>>)
        requires
            self.wf(),
            msg.from == from,
            installs(self.base(), index) ==> index < u64::MAX,
        ensures
            match r {
                Ok(node) => {
                    &&& node.reliable() == self.reliable()
                    &&& self.reliable() || !installs(self.base(), index) ==> node.wf()
                    &&& node.role == self.role
                    &&& follower_snapshot(
                        self.base(),
                        msg,
                        index,
                        term,
                        data@,
                        membership@,
                    ) == Ok::<Core<S>, ErrorView>(node.base())
                },
                Err(e) => self.reliable() ==> follower_snapshot(
                    self.base(),
                    msg,
                    index,
                    term,
                    data@,
                    membership@,
                ) == Err::<Core<S>, ErrorView>(e@),
            },
    {
        let mut node = self;
        let (snapshot_index, _) = node.log.get_snapshot_meta();
        let applied = node.state.get_applied_index();
        if index >= snapshot_index && index >= applied {
            match node.state.restore(data.as_slice(), index) {
                Ok(()) => {},
                Err(e) => return Err(e),
            }
            match node.log.set_snapshot(data) {
                Ok(()) => {},
                Err(e) => return Err(e),
            }
            match node.log.reset_with_snapshot(index, term) {
                Ok(()) => {},
                Err(e) => return Err(e),
            }
            node.membership.apply_entry(&membership);
            if !membership.is_joint() {
                node.membership.change_pending = false;
            }
        }
        node.send(from, Message::InstallSnapshotResponse { last_included_index: index });
        Ok(node)
    }

    /// Takes a message of the current term.
    pub fn step_in_term(self, msg: Envelope) -> (r: Result<RawNode<Follower, E, S>>)
        requires
            self.wf(),
            msg.term == self.base().term(),
            follower_takes(self.base(), self.role@, msg@),
        ensures
            follower_is_quiet(self.base(), self.role@, msg@) ==> r is Ok,
            is_binding(msg@.message, self.base().log.fsync) && r is Ok ==> self.answers_durably(
                &r->Ok_0,
            ),
            msg.message is ClientResponse && r is Ok && r->Ok_0.outbox@.len() > self.outbox@.len()
                ==> message_detail(r->Ok_0.outbox@.last().message) == message_detail(msg.message),
            match r {
                Ok(node) => {
                    &&& node.reliable() == self.reliable()
                    &&& self.reliable() || !risks(self.view(), msg@) ==> node.wf()
                    &&& follower_step(self.base(), self.role@, msg@) == Ok::<
                        NodeView<S>,
                        ErrorView,
                    >(node.view())
                },
                Err(e) => self.reliable() ==> follower_step(self.base(), self.role@, msg@) == Err::<
                    NodeView<S>,
                    ErrorView,
                >(e@),
            },
    {
        let mut node = self;
        let ghost envelope = msg@;
        let from = msg.from;
        let term = msg.term;
        let is_leader = match node.role.leader {
            Some(leader) => leader == from,
            None => false,
        };
        if is_leader {
            node.role.leader_seen = 0;
        }
        assert(node.base() == self.base());
        match msg.message {
            Message::Heartbeat { last_index, commit_index, read_seq } => {
                if node.role.is_foreign(from) {
                    return Ok(node);
                }
                match node.follow(from) {
                    Ok(node) => node.step_heartbeat(
                        from,
                        term,
                        last_index,
                        commit_index,
                        read_seq,
                        Ghost(envelope),
                    ),
                    Err(e) => Err(e),
                }
            },
            Message::Append { base_index, base_term, entries } => {
                if node.role.is_foreign(from) {
                    return Ok(node);
                }
                match node.follow(from) {
                    Ok(node) => node.step_append(
                        from,
                        base_index,
                        base_term,
                        entries,
                        Ghost(envelope),
                    ),
                    Err(e) => Err(e),
                }
            },
            Message::Read { seq } => {
                if node.role.is_foreign(from) {
                    return Ok(node);
                }
                match node.follow(from) {
                    Ok(node) => {
                        let mut node = node;
                        node.send(from, Message::ReadResponse { seq });
                        Ok(node)
                    },
                    Err(e) => Err(e),
                }
            },
            Message::Campaign { last_index, last_term } => node.step_campaign(
                from,
                last_index,
                last_term,
                Ghost(envelope),
            ),
            Message::ClientRequest { id, request } => Ok(
                node.step_request(from, id, request, Ghost(envelope)),
            ),
            Message::ClientResponse { id, response } => Ok(
                node.step_response(from, id, response, Ghost(envelope)),
            ),
            Message::InstallSnapshot {
                last_included_index,
                last_included_term,
                data,
                membership,
            } => {
                if node.role.is_foreign(from) {
                    return Ok(node);
                }
                match node.follow(from) {
                    Ok(node) => node.step_snapshot(
                        from,
                        last_included_index,
                        last_included_term,
                        data,
                        membership,
                        Ghost(envelope),
                    ),
                    Err(e) => Err(e),
                }
            },
            _ => Ok(node),
        }
    }

    /// Takes a message. A later term is adopted first; pre-votes never change
    /// the term, and messages of past terms are dropped.
    pub fn step(self, msg: Envelope, timeout: Ticks) -> (r: Result<RawNode<Follower, E, S>>)
        requires
            self.wf(),
            follower_admits(self.base(), self.role@, msg@),
        ensures
            is_quiet(self.view(), msg@) && is_known(self.base(), msg.from) ==> r is Ok,
            is_binding(msg@.message, self.base().log.fsync) && r is Ok ==> self.answers_durably(
                &r->Ok_0,
            ),
            match r {
                Ok(node) => {
                    &&& node.reliable() == self.reliable()
                    &&& self.reliable() || !risks(self.view(), msg@) ==> node.wf()
                    &&& follower_receives(self.base(), self.role@, msg@, timeout) == Ok::<
                        NodeView<S>,
                        ErrorView,
                    >(node.view())
                },
                Err(e) => self.reliable() ==> follower_receives(
                    self.base(),
                    self.role@,
                    msg@,
                    timeout,
                ) == Err::<NodeView<S>, ErrorView>(e@),
            },
    {
        match &msg.message {
            Message::PreCampaign { last_index, last_term } => {
                return Ok(
                    self.step_prevote(
                        msg.from,
                        msg.term,
                        *last_index,
                        *last_term,
                        Ghost(msg@),
                    ),
                );
            },
            Message::PreCampaignResponse { .. } => {
                return Ok(self);
            },
            _ => {},
        }
        let term = self.term();
        if msg.term < term {
            return Ok(self);
        }
        if msg.term > term {
            match self.into_follower(msg.term, None, timeout) {
                Ok(node) => node.step_in_term(msg),
                Err(e) => Err(e),
            }
        } else {
            self.step_in_term(msg)
        }
    }
}

/// Whether there is a membership change among entries.
fn has_change(entries: &Vec<Entry>) -> (r: bool)
    ensures
        r == latest_change(entry_views(entries@)) is Some,
{
    let ghost views = entry_views(entries@);
    let mut found = false;
    let mut i: usize = 0;
    while i < entries.len()
        invariant
            i <= entries@.len(),
            views == entry_views(entries@),
            found == latest_change(views.take(i as int)) is Some,
        decreases entries@.len() - i,
    {
        assert(views.take(i + 1).drop_last() =~= views.take(i as int));
        assert(views.take(i + 1).last() == entries@[i as int]@);
        if entries[i].membership.is_some() {
            found = true;
        }
        i = i + 1;
    }
    assert(views.take(i as int) =~= views);
    found
}

impl<R: Role, E: Engine, S: State> RawNode<R, E, S> {
    /// Whether a log that ends at `last_index` and `last_term` is at least as up
    /// to date as this node's.
    pub fn is_current(&self, last_index: Index, last_term: Term) -> (r: bool)
        requires
            self.log.wf(),
        ensures
            r == self.base().is_current(last_index, last_term),
    {
        let (log_index, log_term) = self.log.get_last_index();
        !(log_term > last_term || log_term == last_term && log_index > last_index)
    }
}

} // verus!
