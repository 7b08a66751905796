//! What a cluster did, as a whole: who led in which term, with what log, and who
//! voted for whom and has what. Nodes never see this; it is what the laws about
//! the whole cluster are proved with.

use vstd::prelude::*;

use super::entry::{EntryView, Term};
use super::ids::NodeID;
use super::membership::{is_majority, majorities_intersect, MembershipView};
use super::message::{EnvelopeView, ReadSequence, RequestID};

verus! {

/// The time that a node leads in one term.
#[verifier::ext_equal]
pub ghost struct Reign {
    pub leader: NodeID,
    /// Who voted for it.
    pub electors: Set<NodeID>,
    /// The configuration that it was elected in.
    pub config: MembershipView,
    /// How many entries it had when it was elected.
    pub start: nat,
    /// Its log, from the first entry on.
    pub log: Seq<EntryView>,
}

/// A vote that was cast.
#[verifier::ext_equal]
pub ghost struct Ballot {
    pub candidate: NodeID,
    /// The voter's log when it voted.
    pub log: Seq<EntryView>,
}

/// A read that a leader was asked for.
#[verifier::ext_equal]
pub ghost struct Inquiry {
    pub from: NodeID,
    pub id: RequestID,
    pub command: Seq<u8>,
    /// What was committed when it came.
    pub known: Set<(Term, nat)>,
    /// The later terms that had a leader when it came.
    pub rivals: Set<Term>,
    /// The nodes that were in a later term when it came.
    pub ahead: Set<NodeID>,
    /// The answer, once it was given.
    pub answer: Option<EnvelopeView>,
}

/// What a cluster did.
#[verifier::ext_equal]
pub ghost struct History {
    /// The configuration that the cluster started with.
    pub config: MembershipView,
    /// The log of every node, from the first entry on.
    pub logs: Map<NodeID, Seq<EntryView>>,
    /// The terms that had a leader.
    pub reigns: Map<Term, Reign>,
    /// The logs with which nodes asked for votes, by node and term.
    pub campaigns: Map<(NodeID, Term), Seq<EntryView>>,
    /// The votes, by voter and term.
    pub ballots: Map<(NodeID, Term), Ballot>,
    /// How many entries of a term's leader a node had in that term.
    pub acks: Map<(NodeID, Term), nat>,
    /// The terms and indexes of entries that a leader committed.
    pub commits: Set<(Term, nat)>,
    /// How many entries the leader had when it committed.
    pub spans: Map<(Term, nat), nat>,
    /// The term of every node.
    pub terms: Map<NodeID, Term>,
    /// The reads that leaders were asked for, by term and number.
    pub inquiries: Map<(Term, ReadSequence), Inquiry>,
    /// The last read that a node confirmed to the leader of a term.
    pub confirms: Map<(NodeID, Term), ReadSequence>,
}

/// The term of the last entry, or 0.
pub open spec fn final_term(log: Seq<EntryView>) -> Term {
    if log.len() == 0 {
        0
    } else {
        log.last().term
    }
}

/// Whether two logs have the same first `n` entries.
pub open spec fn share(a: Seq<EntryView>, b: Seq<EntryView>, n: int) -> bool {
    &&& 0 <= n <= a.len()
    &&& n <= b.len()
    &&& a.take(n) == b.take(n)
}

/// Whether one log is at least as up to date as another.
pub open spec fn not_behind(a: Seq<EntryView>, b: Seq<EntryView>) -> bool {
    final_term(a) > final_term(b) || (final_term(a) == final_term(b) && a.len() >= b.len())
}

/// Where the last membership change of a log is, or -1.
pub open spec fn last_change(log: Seq<EntryView>) -> int
    decreases log.len(),
{
    if log.len() == 0 {
        -1
    } else if log.last().membership is Some {
        log.len() - 1
    } else {
        last_change(log.drop_last())
    }
}

/// Whether a configuration can follow another: a joint one adds a target to a single
/// one, or to the target of a joint one; the target follows a joint one; and one may be
/// repeated.
pub open spec fn can_follow_config(before: MembershipView, after: MembershipView) -> bool {
    after == before || match (before, after) {
        (MembershipView::Simple(voters), MembershipView::Joint { old, .. }) => old == voters,
        (MembershipView::Joint { new, .. }, MembershipView::Simple(voters)) => voters == new,
        (MembershipView::Joint { new, .. }, MembershipView::Joint { old, .. }) => old == new,
        _ => false,
    }
}

impl History {
    /// The configuration at the end of a log.
    pub open spec fn config_at(self, log: Seq<EntryView>) -> MembershipView {
        if last_change(log) >= 0 {
            log[last_change(log)].membership->Some_0
        } else {
            self.config
        }
    }

    /// Whether the membership change at `p` of a log was committed before the entry at
    /// `k` was appended in `term`.
    pub open spec fn is_settled(
        self,
        log: Seq<EntryView>,
        p: int,
        term: Term,
        k: int,
    ) -> bool {
        exists|t: Term, n: nat| #[trigger]
            self.commits.contains((t, n)) && t <= term && p < n && share(
                log,
                self.log_of(t),
                p + 1,
            ) && (t < term || self.spans[(t, n)] <= k)
    }

    /// Whether the entry at `k` of the leader's log, if it is a membership change,
    /// follows the one before it, which was committed.
    pub open spec fn is_regular(self, term: Term, k: int) -> bool {
        let log = self.log_of(term);
        let before = log.take(k);
        log[k].membership matches Some(change) ==> {
            &&& can_follow_config(self.config_at(before), change)
            &&& last_change(before) >= 0 ==> self.is_settled(log, last_change(before), term, k)
        }
    }

    /// Whether a leader committed the entry at `p` of a log.
    pub open spec fn covers(self, log: Seq<EntryView>, p: int, term: Term, n: nat) -> bool {
        self.commits.contains((term, n)) && p < n && share(log, self.log_of(term), p + 1)
    }

    /// Whether a node with this log can have this configuration and be elected in it:
    /// it is that of the log, or follows that, where the last change of the log was
    /// committed before the term `bound`.
    pub open spec fn is_fair(
        self,
        log: Seq<EntryView>,
        bound: int,
        config: MembershipView,
    ) -> bool {
        config == self.config_at(log) || {
            &&& can_follow_config(self.config_at(log), config)
            &&& last_change(log) >= 0 ==> exists|t: Term, n: nat| #[trigger]
                self.covers(log, last_change(log), t, n) && t < bound
        }
    }

    /// Whether a leader committed a membership change that a log does not reach, with
    /// the acknowledgement of a majority that every quorum of the configuration meets.
    pub open spec fn outruns(
        self,
        log: Seq<EntryView>,
        config: MembershipView,
        term: Term,
        n: nat,
        q: int,
        quorum: Set<NodeID>,
        voters: Set<NodeID>,
    ) -> bool {
        &&& self.commits.contains((term, n))
        &&& log.len() <= q < n
        &&& self.log_of(term)[q].membership is Some
        &&& is_majority(voters, quorum)
        &&& forall|node: NodeID| #[trigger] quorum.contains(node) ==> self.acked(node, term, n)
        &&& forall|other: Set<NodeID>| #[trigger]
            config.quorum(other) ==> is_majority(voters, other)
    }

    /// Whether a node with this log has its configuration from further on than its log
    /// goes, and cannot be elected in it.
    pub open spec fn is_behind(
        self,
        log: Seq<EntryView>,
        bound: int,
        config: MembershipView,
    ) -> bool {
        exists|t: Term, n: nat, q: int, quorum: Set<NodeID>, voters: Set<NodeID>| #[trigger]
            self.outruns(log, config, t, n, q, quorum, voters) && t < bound
    }

    /// Whether a node with this log can have this configuration.
    #[verifier::opaque]
    pub open spec fn suits(
        self,
        log: Seq<EntryView>,
        bound: int,
        config: MembershipView,
    ) -> bool {
        self.is_fair(log, bound, config) || self.is_behind(log, bound, config)
    }

    /// The configuration of a term's leader when it had `n` entries.
    pub open spec fn config_in(self, term: Term, n: int) -> MembershipView {
        let log = self.log_of(term).take(n);
        if last_change(log) >= self.reigns[term].start {
            self.config_at(log)
        } else {
            self.reigns[term].config
        }
    }

    /// A log at whose end a node has this configuration: the configuration is added
    /// where it is not that of the log.
    pub open spec fn ground(self, log: Seq<EntryView>, config: MembershipView) -> Seq<EntryView> {
        if config == self.config_at(log) {
            log
        } else {
            log.push(EntryView { index: 0, term: 0, command: None, membership: Some(config) })
        }
    }

    /// The log of a term's leader.
    pub open spec fn log_of(self, term: Term) -> Seq<EntryView> {
        self.reigns[term].log
    }

    /// Every entry of a log came from the leader of its term, which had the same
    /// entries before it.
    pub open spec fn is_rooted(self, log: Seq<EntryView>) -> bool {
        forall|k: int|
            0 <= k < log.len() ==> self.reigns.contains_key((#[trigger] log[k]).term) && share(
                log,
                self.log_of(log[k].term),
                k + 1,
            )
    }

    /// Whether a node is known to have had the first `n` entries of the leader of
    /// `term`.
    pub open spec fn acked(self, node: NodeID, term: Term, n: nat) -> bool {
        self.acks.contains_key((node, term)) && n <= self.acks[(node, term)]
    }

    /// Whether the leaders of two terms differ in one of the first `n` entries.
    pub open spec fn conflict(self, term: Term, later: Term, n: int) -> bool {
        &&& self.reigns.contains_key(later)
        &&& exists|k: int|
            0 <= k < n && k < self.log_of(later).len() && #[trigger] self.log_of(later)[k]
                != self.log_of(term)[k]
    }

    /// Whether a log has the first `n` entries of the leader of `term`, or the
    /// leader of a later term before `bound` differs in one of them.
    pub open spec fn kept(self, log: Seq<EntryView>, term: Term, n: int, bound: int) -> bool {
        share(log, self.log_of(term), n) || exists|later: Term|
            term < later < bound && #[trigger] self.conflict(term, later, n)
    }

    /// Whether a quorum is known to have had the first `n` entries of the leader of
    /// `term`.
    pub open spec fn backed(self, quorum: Set<NodeID>, term: Term, n: nat) -> bool {
        &&& self.config_in(term, self.spans[(term, n)] as int).quorum(quorum)
        &&& forall|node: NodeID| #[trigger] quorum.contains(node) ==> self.acked(node, term, n)
    }

    /// Whether the entries of a log are committed, by a leader of a term up to
    /// `bound`.
    pub open spec fn is_decided(self, log: Seq<EntryView>, bound: Term) -> bool {
        log.len() == 0 || exists|term: Term, n: nat| #[trigger]
            self.commits.contains((term, n)) && term <= bound && log.len() <= n && share(
                log,
                self.log_of(term),
                log.len() as int,
            )
    }

    pub open spec fn is_reign(self, term: Term) -> bool {
        let reign = self.reigns[term];
        &&& reign.start < reign.log.len()
        &&& forall|k: int|
            0 <= k < reign.log.len() ==> {
                &&& (#[trigger] reign.log[k]).index == k + 1
                &&& k < reign.start ==> reign.log[k].term < term
                &&& k >= reign.start ==> reign.log[k].term == term && self.is_regular(term, k)
            }
        &&& self.is_rooted(reign.log)
        &&& reign.config.quorum(reign.electors)
        &&& self.is_fair(reign.log.take(reign.start as int), term as int, reign.config)
        &&& forall|node: NodeID| #[trigger]
            reign.electors.contains(node) ==> self.ballots.contains_key((node, term))
                && self.ballots[(node, term)].candidate == reign.leader
        &&& self.campaigns.contains_key((reign.leader, term))
        &&& self.campaigns[(reign.leader, term)] == reign.log.take(reign.start as int)
        &&& self.acks.contains_key((reign.leader, term))
        &&& self.acks[(reign.leader, term)] == reign.log.len()
    }

    pub open spec fn is_campaign(self, node: NodeID, term: Term) -> bool {
        let log = self.campaigns[(node, term)];
        &&& self.is_rooted(log)
        &&& forall|k: int| 0 <= k < log.len() ==> (#[trigger] log[k]).term < term
    }

    pub open spec fn is_ballot(self, node: NodeID, term: Term) -> bool {
        let ballot = self.ballots[(node, term)];
        &&& self.terms.contains_key(node)
        &&& term <= self.terms[node]
        &&& self.is_rooted(ballot.log)
        &&& self.campaigns.contains_key((ballot.candidate, term))
        &&& not_behind(self.campaigns[(ballot.candidate, term)], ballot.log)
        &&& self.is_faithful(node, term, ballot.log, term + 1)
        &&& self.may_elect(node, term) ==> self.is_faithful(node, term, ballot.log, term as int)
    }

    /// Whether a node's vote counts or can still count.
    pub open spec fn may_elect(self, node: NodeID, term: Term) -> bool {
        !self.reigns.contains_key(term) || self.reigns[term].electors.contains(node)
    }

    /// Whether a log has what its node acknowledged before `term`, or the leader of
    /// a term in between and before `bound` differs from it.
    pub open spec fn is_faithful(
        self,
        node: NodeID,
        term: Term,
        log: Seq<EntryView>,
        bound: int,
    ) -> bool {
        forall|earlier: Term, n: nat|
            earlier < term && self.acked(node, earlier, n) ==> #[trigger] self.kept(
                log,
                earlier,
                n as int,
                bound,
            )
    }

    pub open spec fn is_ack(self, node: NodeID, term: Term) -> bool {
        self.reigns.contains_key(term) && self.acks[(node, term)] <= self.log_of(term).len()
    }

    pub open spec fn is_commit(self, term: Term, n: nat) -> bool {
        &&& self.reigns.contains_key(term)
        &&& self.reigns[term].start < n <= self.log_of(term).len()
        &&& self.spans.contains_key((term, n))
        &&& n <= self.spans[(term, n)] <= self.log_of(term).len()
        &&& exists|quorum: Set<NodeID>| #[trigger] self.backed(quorum, term, n)
    }

    pub open spec fn is_inquiry(self, term: Term, seq: ReadSequence) -> bool {
        let inquiry = self.inquiries[(term, seq)];
        &&& seq > 0
        &&& self.reigns.contains_key(term)
        &&& forall|earlier: ReadSequence|
            0 < earlier <= seq ==> #[trigger] self.inquiries.contains_key((term, earlier))
        &&& forall|t: Term, n: nat| #[trigger]
            inquiry.known.contains((t, n)) ==> self.commits.contains((t, n)) && (t > term
                ==> inquiry.rivals.contains(t))
        &&& forall|rival: Term| #[trigger]
            inquiry.rivals.contains(rival) ==> self.is_rival(term, seq, rival)
        &&& forall|node: NodeID| #[trigger]
            inquiry.ahead.contains(node) ==> self.terms.contains_key(node) && self.terms[node]
                > term
    }

    pub open spec fn is_rival(self, term: Term, seq: ReadSequence, rival: Term) -> bool {
        let inquiry = self.inquiries[(term, seq)];
        let reign = self.reigns[rival];
        &&& rival > term
        &&& self.reigns.contains_key(rival)
        &&& reign.electors.subset_of(inquiry.ahead)
        &&& forall|k: int|
            0 <= k < reign.start && (#[trigger] reign.log[k]).term > term
                ==> inquiry.rivals.contains(reign.log[k].term)
        &&& ({
            let log = reign.log.take(reign.start as int);
            reign.config != self.config_at(log) && last_change(log) >= 0
                ==> exists|t: Term, n: nat| #[trigger]
                self.covers(log, last_change(log), t, n) && t < rival && (t > term
                    ==> inquiry.rivals.contains(t))
        })
    }

    pub open spec fn is_confirm(self, node: NodeID, term: Term) -> bool {
        let last = self.confirms[(node, term)];
        &&& last > 0 ==> self.inquiries.contains_key((term, last))
        &&& forall|seq: ReadSequence| #[trigger]
            self.inquiries.contains_key((term, seq)) && seq <= last ==> !self.inquiries[(
                term,
                seq,
            )].ahead.contains(node)
    }

    /// Whether a node is known to have confirmed a read to the leader of `term`.
    pub open spec fn confirmed(self, node: NodeID, term: Term, seq: ReadSequence) -> bool {
        self.confirms.contains_key((node, term)) && seq <= self.confirms[(node, term)]
    }

    /// What holds of every history.
    #[verifier::opaque]
    pub open spec fn wf(self) -> bool {
        &&& forall|term: Term| #[trigger] self.reigns.contains_key(term) ==> self.is_reign(term)
        &&& forall|node: NodeID, term: Term| #[trigger]
            self.campaigns.contains_key((node, term)) ==> self.is_campaign(node, term)
        &&& forall|node: NodeID, term: Term| #[trigger]
            self.ballots.contains_key((node, term)) ==> self.is_ballot(node, term)
        &&& forall|node: NodeID, term: Term| #[trigger]
            self.acks.contains_key((node, term)) ==> self.is_ack(node, term)
        &&& forall|term: Term, n: nat| #[trigger]
            self.commits.contains((term, n)) ==> self.is_commit(term, n)
        &&& forall|term: Term, seq: ReadSequence| #[trigger]
            self.inquiries.contains_key((term, seq)) ==> self.is_inquiry(term, seq)
        &&& forall|node: NodeID, term: Term| #[trigger]
            self.confirms.contains_key((node, term)) ==> self.is_confirm(node, term)
    }
}

/// What holds of a term that had a leader.
pub proof fn lemma_reign(h: History, term: Term)
    requires
        h.wf(),
        h.reigns.contains_key(term),
    ensures
        h.is_reign(term),
{
    reveal(History::wf);
}

/// What holds of a campaign.
pub proof fn lemma_campaign(h: History, node: NodeID, term: Term)
    requires
        h.wf(),
        h.campaigns.contains_key((node, term)),
    ensures
        h.is_campaign(node, term),
{
    reveal(History::wf);
}

/// What holds of a vote.
pub proof fn lemma_ballot(h: History, node: NodeID, term: Term)
    requires
        h.wf(),
        h.ballots.contains_key((node, term)),
    ensures
        h.is_ballot(node, term),
{
    reveal(History::wf);
}

/// What holds of what a node acknowledged.
pub proof fn lemma_ack(h: History, node: NodeID, term: Term)
    requires
        h.wf(),
        h.acks.contains_key((node, term)),
    ensures
        h.is_ack(node, term),
{
    reveal(History::wf);
}

/// What holds of a committed entry.
pub proof fn lemma_commit(h: History, term: Term, n: nat)
    requires
        h.wf(),
        h.commits.contains((term, n)),
    ensures
        h.is_commit(term, n),
{
    reveal(History::wf);
}

/// What holds of a read that a leader was asked for.
pub proof fn lemma_inquiry(h: History, term: Term, seq: ReadSequence)
    requires
        h.wf(),
        h.inquiries.contains_key((term, seq)),
    ensures
        h.is_inquiry(term, seq),
{
    reveal(History::wf);
}

/// What holds of a read that a node confirmed.
pub proof fn lemma_confirm(h: History, node: NodeID, term: Term)
    requires
        h.wf(),
        h.confirms.contains_key((node, term)),
    ensures
        h.is_confirm(node, term),
{
    reveal(History::wf);
}

pub proof fn lemma_share_less(a: Seq<EntryView>, b: Seq<EntryView>, n: int, m: int)
    requires
        share(a, b, n),
        0 <= m <= n,
    ensures
        share(a, b, m),
{
    assert(a.take(m) =~= a.take(n).take(m));
    assert(b.take(m) =~= b.take(n).take(m));
}

pub proof fn lemma_share_at(a: Seq<EntryView>, b: Seq<EntryView>, n: int, k: int)
    requires
        share(a, b, n),
        0 <= k < n,
    ensures
        a[k] == b[k],
{
    assert(a.take(n)[k] == a[k]);
    assert(b.take(n)[k] == b[k]);
}

pub proof fn lemma_share_all(a: Seq<EntryView>, b: Seq<EntryView>, n: int)
    requires
        0 <= n <= a.len(),
        n <= b.len(),
        forall|k: int| 0 <= k < n ==> #[trigger] a[k] == b[k],
    ensures
        share(a, b, n),
{
    assert(a.take(n) =~= b.take(n));
}

/// Log matching: rooted logs with entries of the same term at one place have the
/// same entries up to there.
pub proof fn rooted_logs_match(h: History, a: Seq<EntryView>, b: Seq<EntryView>, k: int)
    requires
        h.is_rooted(a),
        h.is_rooted(b),
        0 <= k < a.len(),
        k < b.len(),
        a[k].term == b[k].term,
    ensures
        share(a, b, k + 1),
{
    assert(share(a, h.log_of(a[k].term), k + 1));
    assert(share(b, h.log_of(b[k].term), k + 1));
}

/// The entries of a rooted log are numbered from 1 on.
pub proof fn lemma_rooted_entries(h: History, log: Seq<EntryView>)
    requires
        h.wf(),
        h.is_rooted(log),
    ensures
        forall|k: int|
            0 <= k < log.len() ==> (#[trigger] log[k]).index == k + 1,
{
    assert forall|k: int| 0 <= k < log.len() implies (#[trigger] log[k]).index == k + 1 by {
        let term = log[k].term;
        lemma_share_at(log, h.log_of(term), k + 1, k);
        lemma_reign(h, term);
        assert(h.log_of(term)[k].index == k + 1);
    }
}

/// What a node's log cannot have: an entry of a later term than the last one.
proof fn lemma_final_term(h: History, log: Seq<EntryView>, k: int)
    requires
        h.wf(),
        h.is_rooted(log),
        0 <= k < log.len(),
    ensures
        log[k].term <= final_term(log),
{
    let last = log.len() - 1;
    let term = log[last].term;
    assert(h.reigns.contains_key(term));
    lemma_reign(h, term);
    lemma_share_at(log, h.log_of(term), last + 1, k);
}

// Configurations.

/// The last membership change is the last one.
pub proof fn lemma_last_change(log: Seq<EntryView>)
    ensures
        -1 <= last_change(log) < log.len(),
        last_change(log) >= 0 ==> log[last_change(log)].membership is Some,
        forall|k: int|
            last_change(log) < k < log.len() ==> (#[trigger] log[k]).membership is None,
    decreases log.len(),
{
    if log.len() > 0 && log.last().membership is None {
        let rest = log.drop_last();
        lemma_last_change(rest);
        assert forall|k: int| last_change(log) < k < log.len() implies (
        #[trigger] log[k]).membership is None by {
            if k < rest.len() {
                assert(rest[k] == log[k]);
            }
        }
        if last_change(log) >= 0 {
            assert(rest[last_change(log)] == log[last_change(log)]);
        }
    }
}

/// What a place must be like to be that of the last membership change.
pub proof fn lemma_last_change_at(log: Seq<EntryView>, j: int)
    requires
        -1 <= j < log.len(),
        j >= 0 ==> log[j].membership is Some,
        forall|k: int| j < k < log.len() ==> (#[trigger] log[k]).membership is None,
    ensures
        last_change(log) == j,
{
    lemma_last_change(log);
}

/// The configuration at the end of a log is that of its part up to the last change.
pub proof fn lemma_config_of_part(h: History, log: Seq<EntryView>, n: int)
    requires
        last_change(log) < n <= log.len(),
        0 <= n,
    ensures
        h.config_at(log.take(n)) == h.config_at(log),
{
    lemma_last_change(log);
    let part = log.take(n);
    let j = last_change(log);
    assert forall|k: int| j < k < part.len() implies (#[trigger] part[k]).membership is None by {
        assert(part[k] == log[k]);
    }
    if j >= 0 {
        assert(part[j] == log[j]);
    }
    lemma_last_change_at(part, j);
}

/// A quorum of a configuration that follows another has a majority of the voters that
/// the other leads to.
proof fn lemma_quorum_of_follower(
    before: MembershipView,
    after: MembershipView,
    quorum: Set<NodeID>,
)
    requires
        can_follow_config(before, after),
        after.quorum(quorum),
    ensures
        is_majority(before.target(), quorum),
{
}

/// What holds of a membership change in a log: it follows the configuration before it,
/// and the change before it was committed.
pub proof fn lemma_change(h: History, log: Seq<EntryView>, j: int)
    requires
        h.wf(),
        h.is_rooted(log),
        0 <= j < log.len(),
        log[j].membership is Some,
    ensures
        can_follow_config(h.config_at(log.take(j)), log[j].membership->Some_0),
        last_change(log.take(j)) >= 0 ==> h.is_settled(
            log,
            last_change(log.take(j)),
            log[j].term,
            j,
        ),
{
    let term = log[j].term;
    let leader = h.log_of(term);
    assert(share(log, leader, j + 1));
    lemma_share_at(log, leader, j + 1, j);
    lemma_share_less(log, leader, j + 1, j);
    lemma_reign(h, term);
    assert(leader[j].term == term);
    assert(h.is_regular(term, j));
    let p = last_change(log.take(j));
    lemma_last_change(log.take(j));
    if p >= 0 {
        let (t, n) = choose|t: Term, n: nat| #[trigger]
            h.commits.contains((t, n)) && t <= term && p < n && share(leader, h.log_of(t), p + 1)
                && (t < term || h.spans[(t, n)] <= j);
        lemma_share_less(log, leader, j + 1, p + 1);
        assert(h.commits.contains((t, n)) && t <= term && p < n && share(log, h.log_of(t), p + 1)
            && (t < term || h.spans[(t, n)] <= j));
    }
}

/// Entries without a change at the end of a log do not matter.
pub proof fn lemma_fair_more(
    h: History,
    log: Seq<EntryView>,
    more: Seq<EntryView>,
    bound: int,
    config: MembershipView,
)
    requires
        share(more, log, log.len() as int),
        forall|k: int| log.len() <= k < more.len() ==> (#[trigger] more[k]).membership is None,
    ensures
        last_change(more) == last_change(log),
        h.config_at(more) == h.config_at(log),
        h.is_fair(log, bound, config) ==> h.is_fair(more, bound, config),
{
    let p = last_change(log);
    lemma_last_change(log);
    let n = log.len() as int;
    assert forall|k: int| p < k < more.len() implies (#[trigger] more[k]).membership is None by {
        if k < n {
            lemma_share_at(more, log, n, k);
        }
    }
    if p >= 0 {
        lemma_share_at(more, log, n, p);
    }
    lemma_last_change_at(more, p);
    if h.is_fair(log, bound, config) && config != h.config_at(log) && p >= 0 {
        let (t, m) = choose|t: Term, m: nat| #[trigger] h.covers(log, p, t, m) && t < bound;
        lemma_share_less(more, log, n, p + 1);
        assert(h.covers(more, p, t, m));
    }
}

/// What holds of the configuration of a term's leader.
pub proof fn lemma_reign_fair(h: History, term: Term, n: int)
    requires
        h.wf(),
        h.reigns.contains_key(term),
        h.reigns[term].start <= n <= h.log_of(term).len(),
    ensures
        h.is_fair(h.log_of(term).take(n), term as int, h.config_in(term, n)),
{
    lemma_reign(h, term);
    let log = h.log_of(term).take(n);
    let start = h.reigns[term].start as int;
    let first = h.log_of(term).take(start);
    lemma_last_change(log);
    if last_change(log) < start {
        assert(log.take(start) =~= first);
        assert(first.take(start) =~= first);
        lemma_fair_more(h, first, log, term as int, h.reigns[term].config);
    }
}

/// What holds of a log to whose end a configuration was added.
proof fn lemma_ground(h: History, log: Seq<EntryView>, bound: int, config: MembershipView)
    requires
        h.wf(),
        h.is_rooted(log),
        h.is_fair(log, bound, config),
    ensures
        ({
            let ground = h.ground(log, config);
            let i = last_change(ground);
            let p = last_change(ground.take(i));
            &&& h.config_at(ground) == config
            &&& -1 <= i <= log.len()
            &&& i >= 0 ==> can_follow_config(h.config_at(ground.take(i)), config)
            &&& i >= 0 ==> -1 <= p < log.len() && p < i
            &&& forall|k: int| 0 <= k < log.len() ==> #[trigger] ground[k] == log[k]
            &&& config == h.config_at(log) ==> ground == log
            &&& config != h.config_at(log) ==> i == log.len() && ground.take(i) == log
        }),
{
    let ground = h.ground(log, config);
    let i = last_change(ground);
    lemma_last_change(log);
    if config == h.config_at(log) {
        if i >= 0 {
            lemma_change(h, log, i);
        }
    } else {
        assert(ground.take(log.len() as int) =~= log);
    }
    if i >= 0 {
        lemma_last_change(ground.take(i));
    }
}

/// Logs that share entries do so with configurations added.
proof fn lemma_grounds_share(
    h: History,
    a: Seq<EntryView>,
    x: MembershipView,
    b: Seq<EntryView>,
    y: MembershipView,
    n: int,
)
    requires
        share(a, b, n),
    ensures
        share(h.ground(a, x), h.ground(b, y), n),
{
    assert(h.ground(a, x).take(n) =~= a.take(n));
    assert(h.ground(b, y).take(n) =~= b.take(n));
}

/// The configurations of two logs have a majority in common, if each log has what the
/// other had committed before its last membership change.
proof fn lemma_configs_meet(
    h: History,
    a: Seq<EntryView>,
    b: Seq<EntryView>,
    x: Set<NodeID>,
    y: Set<NodeID>,
)
    requires
        last_change(a) >= 0 ==> can_follow_config(
            h.config_at(a.take(last_change(a))),
            h.config_at(a),
        ),
        last_change(b) >= 0 ==> can_follow_config(
            h.config_at(b.take(last_change(b))),
            h.config_at(b),
        ),
        h.config_at(a).quorum(x),
        h.config_at(b).quorum(y),
        ({
            let i = last_change(a);
            let p = last_change(a.take(i));
            i >= 0 && p >= 0 ==> share(a, b, p + 1)
        }),
        ({
            let j = last_change(b);
            let q = last_change(b.take(j));
            j >= 0 && q >= 0 ==> share(b, a, q + 1)
        }),
    ensures
        exists|node: NodeID| #[trigger] x.contains(node) && y.contains(node),
{
    let i = last_change(a);
    let j = last_change(b);
    lemma_last_change(a);
    lemma_last_change(b);
    let p = last_change(a.take(i));
    let q = last_change(b.take(j));
    if i >= 0 {
        lemma_last_change(a.take(i));
        if p >= 0 {
            lemma_share_at(a, b, p + 1, p);
            assert(a.take(i)[p] == a[p]);
            assert(b[p].membership is Some);
        }
    }
    if j >= 0 {
        lemma_last_change(b.take(j));
        if q >= 0 {
            lemma_share_at(b, a, q + 1, q);
            assert(b.take(j)[q] == b[q]);
            assert(a[q].membership is Some);
        }
    }
    // The configuration that both follow, or are.
    let anchor = if i < 0 {
        h.config_at(a)
    } else if j < 0 {
        h.config_at(b)
    } else if p == j {
        h.config_at(b)
    } else if q == i {
        h.config_at(a)
    } else {
        if p >= 0 {
            assert(b.take(j)[p] == b[p]);
            assert(p <= q);
        }
        if q >= 0 {
            assert(a.take(i)[q] == a[q]);
            assert(q <= p);
        }
        h.config_at(a.take(i))
    };
    lemma_quorum_of_follower(anchor, h.config_at(a), x);
    lemma_quorum_of_follower(anchor, h.config_at(b), y);
    majorities_intersect(anchor.target(), x, y);
}

/// What a leader committed is in the log of whoever is elected in a later term.
pub proof fn lemma_elected_are_complete(
    h: History,
    term: Term,
    n: nat,
    later: Term,
    candidate: NodeID,
    config: MembershipView,
    electors: Set<NodeID>,
    strict: bool,
)
    requires
        h.wf(),
        h.commits.contains((term, n)),
        term < later,
        h.campaigns.contains_key((candidate, later)),
        h.is_fair(h.campaigns[(candidate, later)], later as int, config),
        config.quorum(electors),
        forall|node: NodeID| #[trigger]
            electors.contains(node) ==> h.ballots.contains_key((node, later)) && h.ballots[(
                node,
                later,
            )].candidate == candidate && (strict ==> h.may_elect(node, later)),
        !strict ==> h.reigns.contains_key(later),
    ensures
        share(h.campaigns[(candidate, later)], h.log_of(term), n as int),
    decreases
            later,
            term,
            h.spans[(term, n)],
            if strict {
                2nat
            } else {
                5nat
            },
{
    lemma_commit(h, term, n);
    lemma_reign(h, term);
    let leader = h.log_of(term);
    let asked = h.campaigns[(candidate, later)];
    lemma_campaign(h, candidate, later);
    let own = final_term(asked);
    let top = asked.len() - 1;
    if own > term {
        assert(asked[top].term == own);
        assert(share(asked, h.log_of(own), top + 1));
        lemma_share_at(asked, h.log_of(own), top + 1, top);
        leaders_are_complete(h, term, n, own);
        lemma_reign(h, own);
        assert(top >= h.reigns[own].start);
        lemma_share_less(asked, h.log_of(own), top + 1, n as int);
    } else if own == term && asked.len() >= n {
        assert(own > 0 || asked.len() > 0);
        assert(asked[top].term == own);
        assert(share(asked, leader, top + 1));
        lemma_share_less(asked, leader, top + 1, n as int);
    } else {
        let quorum = choose|quorum: Set<NodeID>| #[trigger] h.backed(quorum, term, n);
        let span = h.spans[(term, n)];
        let node = lemma_quorums_meet(
            h,
            term,
            n,
            later,
            candidate,
            config,
            electors,
            strict,
            quorum,
        );
        assert(h.acked(node, term, n));
        let ballot = h.ballots[(node, later)];
        lemma_ballot(h, node, later);
        let bound = if strict {
            later as int
        } else {
            later + 1
        };
        assert(h.kept(ballot.log, term, n as int, bound));
        if !share(ballot.log, leader, n as int) {
            let middle = choose|middle: Term|
                term < middle < bound && #[trigger] h.conflict(term, middle, n as int);
            leaders_are_complete(h, term, n, middle);
            let k = choose|k: int|
                0 <= k < n && k < h.log_of(middle).len() && #[trigger] h.log_of(middle)[k]
                    != leader[k];
            lemma_share_at(h.log_of(middle), leader, n as int, k);
        }
        let last = n - 1;
        assert(leader[last].term == term);
        lemma_share_at(ballot.log, leader, n as int, last);
        lemma_final_term(h, ballot.log, last);
        assert(final_term(ballot.log) == own);
        let k = ballot.log.len() - 1;
        assert(asked[top].term == own);
        assert(ballot.log[k].term == own);
        assert(share(asked, h.log_of(own), top + 1));
        assert(share(ballot.log, h.log_of(own), k + 1));
        lemma_share_less(asked, h.log_of(own), top + 1, k + 1);
        assert(share(asked, ballot.log, k + 1));
        lemma_share_less(asked, ballot.log, k + 1, n as int);
    }
}

/// What a commit's leader had when it appended its last change, whoever is elected
/// later has.
proof fn lemma_elected_have_change(
    h: History,
    term: Term,
    n: nat,
    later: Term,
    candidate: NodeID,
    config: MembershipView,
    electors: Set<NodeID>,
    strict: bool,
)
    requires
        h.wf(),
        h.commits.contains((term, n)),
        term < later,
        h.campaigns.contains_key((candidate, later)),
        h.is_fair(h.campaigns[(candidate, later)], later as int, config),
        config.quorum(electors),
        forall|node: NodeID| #[trigger]
            electors.contains(node) ==> h.ballots.contains_key((node, later)) && h.ballots[(
                node,
                later,
            )].candidate == candidate && (strict ==> h.may_elect(node, later)),
        !strict ==> h.reigns.contains_key(later),
    ensures
        ({
            let span = h.spans[(term, n)] as int;
            let log = h.log_of(term).take(span);
            let ground = h.ground(log, h.config_in(term, span));
            let i = last_change(ground);
            let p = last_change(ground.take(i));
            i >= 0 && p >= 0 ==> share(log, h.campaigns[(candidate, later)], p + 1)
        }),
    decreases later, term, h.spans[(term, n)], 0nat,
{
    lemma_commit(h, term, n);
    lemma_reign(h, term);
    let leader = h.log_of(term);
    let span = h.spans[(term, n)] as int;
    let log = leader.take(span);
    let own = h.config_in(term, span);
    let b = h.campaigns[(candidate, later)];
    lemma_rooted_part(h, leader, span);
    lemma_reign_fair(h, term, span);
    lemma_ground(h, log, term as int, own);
    let ground = h.ground(log, own);
    let i = last_change(ground);
    let p = last_change(ground.take(i));
    if i >= 0 && p >= 0 {
        if own == h.config_at(log) {
            lemma_last_change(log);
            lemma_change(h, log, i);
            lemma_last_change(log.take(i));
            assert(log[i] == leader[i]);
            let made = log[i].term;
            let (t, m) = choose|t: Term, m: nat| #[trigger]
                h.commits.contains((t, m)) && t <= made && p < m && share(log, h.log_of(t), p + 1)
                    && (t < made || h.spans[(t, m)] <= i);
            assert(made <= term);
            lemma_elected_are_complete(h, t, m, later, candidate, config, electors, strict);
            lemma_share_less(b, h.log_of(t), m as int, p + 1);
        } else {
            let (t, m) = choose|t: Term, m: nat| #[trigger]
                h.covers(log, p, t, m) && t < term;
            lemma_elected_are_complete(h, t, m, later, candidate, config, electors, strict);
            lemma_share_less(b, h.log_of(t), m as int, p + 1);
        }
    }
}

/// What whoever is elected later had before its last change, the leader of an earlier
/// commit has, unless the one who is elected has what was committed.
proof fn lemma_leader_has_change(
    h: History,
    term: Term,
    n: nat,
    later: Term,
    candidate: NodeID,
    config: MembershipView,
)
    requires
        h.wf(),
        h.commits.contains((term, n)),
        term < later,
        h.campaigns.contains_key((candidate, later)),
        h.is_fair(h.campaigns[(candidate, later)], later as int, config),
        ({
            let asked = h.campaigns[(candidate, later)];
            let own = final_term(asked);
            own <= term && (own == term ==> asked.len() < n)
        }),
    ensures
        ({
            let log = h.log_of(term).take(h.spans[(term, n)] as int);
            let b = h.campaigns[(candidate, later)];
            let ground = h.ground(b, config);
            let j = last_change(ground);
            let q = last_change(ground.take(j));
            j >= 0 && q >= 0 ==> share(b, log, q + 1)
        }),
    decreases later, term, h.spans[(term, n)], 0nat,
{
    lemma_commit(h, term, n);
    lemma_reign(h, term);
    lemma_campaign(h, candidate, later);
    let leader = h.log_of(term);
    let span = h.spans[(term, n)] as int;
    let a = leader.take(span);
    let b = h.campaigns[(candidate, later)];
    lemma_ground(h, b, later as int, config);
    let ground = h.ground(b, config);
    let j = last_change(ground);
    let q = last_change(ground.take(j));
    if j >= 0 && q >= 0 {
        if config == h.config_at(b) {
            lemma_last_change(b);
            lemma_change(h, b, j);
            lemma_last_change(b.take(j));
            let made = b[j].term;
            let (t, m) = choose|t: Term, m: nat| #[trigger]
                h.commits.contains((t, m)) && t <= made && q < m && share(b, h.log_of(t), q + 1)
                    && (t < made || h.spans[(t, m)] <= j);
            lemma_final_term(h, b, j);
            if t < term {
                leaders_are_complete(h, t, m, term);
                lemma_share_less(leader, h.log_of(t), m as int, q + 1);
            } else {
                assert(made == term);
                assert(final_term(b) == term);
                assert(b[b.len() - 1].term == term);
                assert(share(b, leader, b.len() as int));
                lemma_share_less(b, leader, b.len() as int, q + 1);
            }
        } else {
            let (t, m) = choose|t: Term, m: nat| #[trigger]
                h.covers(b, q, t, m) && t < later;
            if t < term {
                leaders_are_complete(h, t, m, term);
                lemma_share_less(leader, h.log_of(t), m as int, q + 1);
            } else if t == term {
                lemma_share_at(b, leader, q + 1, q);
                lemma_final_term(h, b, q);
                assert(q < n) by {
                    if q >= n {
                        assert(leader[q].term == term);
                    }
                }
            } else {
                lemma_commit(h, t, m);
                leaders_are_complete(h, term, n, t);
                if q + 1 <= n {
                    lemma_share_less(h.log_of(t), leader, n as int, q + 1);
                } else {
                    lemma_share_less(b, h.log_of(t), q + 1, n as int);
                    lemma_share_at(b, leader, n as int, n - 1);
                    assert(leader[n - 1].term == term);
                    lemma_final_term(h, b, n - 1);
                }
            }
        }
        assert(share(b, leader, q + 1));
        assert(a.take(q + 1) =~= leader.take(q + 1));
    }
}

/// Who backed a commit and who elects someone later whose log is no later than the
/// commit's leader have a node in common.
proof fn lemma_quorums_meet(
    h: History,
    term: Term,
    n: nat,
    later: Term,
    candidate: NodeID,
    config: MembershipView,
    electors: Set<NodeID>,
    strict: bool,
    quorum: Set<NodeID>,
) -> (node: NodeID)
    requires
        h.wf(),
        h.commits.contains((term, n)),
        term < later,
        h.campaigns.contains_key((candidate, later)),
        h.is_fair(h.campaigns[(candidate, later)], later as int, config),
        config.quorum(electors),
        forall|node: NodeID| #[trigger]
            electors.contains(node) ==> h.ballots.contains_key((node, later)) && h.ballots[(
                node,
                later,
            )].candidate == candidate && (strict ==> h.may_elect(node, later)),
        !strict ==> h.reigns.contains_key(later),
        h.backed(quorum, term, n),
        ({
            let asked = h.campaigns[(candidate, later)];
            let own = final_term(asked);
            own <= term && (own == term ==> asked.len() < n)
        }),
    ensures
        quorum.contains(node),
        electors.contains(node),
    decreases
            later,
            term,
            h.spans[(term, n)],
            if strict {
                1nat
            } else {
                4nat
            },
{
    lemma_commit(h, term, n);
    lemma_reign(h, term);
    lemma_campaign(h, candidate, later);
    let leader = h.log_of(term);
    let span = h.spans[(term, n)] as int;
    let a = leader.take(span);
    let own = h.config_in(term, span);
    let b = h.campaigns[(candidate, later)];
    lemma_rooted_part(h, leader, span);
    lemma_reign_fair(h, term, span);
    lemma_ground(h, a, term as int, own);
    lemma_ground(h, b, later as int, config);
    lemma_elected_have_change(h, term, n, later, candidate, config, electors, strict);
    lemma_leader_has_change(h, term, n, later, candidate, config);
    lemma_grounds_meet(h, a, own, b, config, quorum, electors);
    choose|node: NodeID| #[trigger] quorum.contains(node) && electors.contains(node)
}

/// Quorums of two configurations meet, if each log has what the other had committed
/// before its last change.
proof fn lemma_grounds_meet(
    h: History,
    a: Seq<EntryView>,
    x: MembershipView,
    b: Seq<EntryView>,
    y: MembershipView,
    one: Set<NodeID>,
    other: Set<NodeID>,
)
    requires
        h.config_at(h.ground(a, x)) == x,
        h.config_at(h.ground(b, y)) == y,
        x.quorum(one),
        y.quorum(other),
        ({
            let ground = h.ground(a, x);
            let i = last_change(ground);
            let p = last_change(ground.take(i));
            &&& i >= 0 ==> can_follow_config(h.config_at(ground.take(i)), x)
            &&& i >= 0 && p >= 0 ==> share(a, b, p + 1)
        }),
        ({
            let ground = h.ground(b, y);
            let j = last_change(ground);
            let q = last_change(ground.take(j));
            &&& j >= 0 ==> can_follow_config(h.config_at(ground.take(j)), y)
            &&& j >= 0 && q >= 0 ==> share(b, a, q + 1)
        }),
    ensures
        exists|node: NodeID| #[trigger] one.contains(node) && other.contains(node),
{
    let left = h.ground(a, x);
    let right = h.ground(b, y);
    let i = last_change(left);
    let j = last_change(right);
    let p = last_change(left.take(i));
    let q = last_change(right.take(j));
    if i >= 0 && p >= 0 {
        lemma_grounds_share(h, a, x, b, y, p + 1);
    }
    if j >= 0 && q >= 0 {
        lemma_grounds_share(h, b, y, a, x, q + 1);
    }
    lemma_configs_meet(h, left, right, one, other);
}

/// A part of a rooted log is rooted.
pub proof fn lemma_rooted_part(h: History, log: Seq<EntryView>, n: int)
    requires
        h.is_rooted(log),
        0 <= n <= log.len(),
    ensures
        h.is_rooted(log.take(n)),
{
    let part = log.take(n);
    assert forall|k: int| 0 <= k < part.len() implies h.reigns.contains_key(
        (#[trigger] part[k]).term,
    ) && share(part, h.log_of(part[k].term), k + 1) by {
        assert(part[k] == log[k]);
        assert(share(log, h.log_of(log[k].term), k + 1));
        assert(part.take(k + 1) =~= log.take(k + 1));
    }
}

/// Leader completeness: what a leader committed is in the log of every leader of a
/// later term, from its election on.
pub proof fn leaders_are_complete(h: History, term: Term, n: nat, later: Term)
    requires
        h.wf(),
        h.commits.contains((term, n)),
        h.reigns.contains_key(later),
        term < later,
    ensures
        n <= h.reigns[later].start,
        share(h.log_of(later), h.log_of(term), n as int),
    decreases later, term, h.spans[(term, n)], 3nat,
{
    lemma_reign(h, later);
    let reign = h.reigns[later];
    assert forall|node: NodeID| #[trigger] reign.electors.contains(node) implies h.may_elect(
        node,
        later,
    ) by {
    }
    lemma_elected_are_complete(
        h,
        term,
        n,
        later,
        reign.leader,
        reign.config,
        reign.electors,
        true,
    );
    assert(reign.log.take(reign.start as int).take(n as int) =~= reign.log.take(n as int));
}

/// Nobody is elected in a configuration from further on than its log goes.
pub proof fn lemma_behind_loses(
    h: History,
    node: NodeID,
    term: Term,
    config: MembershipView,
    electors: Set<NodeID>,
)
    requires
        h.wf(),
        h.campaigns.contains_key((node, term)),
        h.suits(h.campaigns[(node, term)], term as int, config),
        config.quorum(electors),
        forall|who: NodeID| #[trigger]
            electors.contains(who) ==> h.ballots.contains_key((who, term)) && h.ballots[(
                who,
                term,
            )].candidate == node,
    ensures
        h.is_fair(h.campaigns[(node, term)], term as int, config),
{
    reveal(History::suits);
    let asked = h.campaigns[(node, term)];
    if h.is_behind(asked, term as int, config) {
        let (t, n, q, quorum, voters) = choose|
            t: Term,
            n: nat,
            q: int,
            quorum: Set<NodeID>,
            voters: Set<NodeID>,
        | #[trigger]
            h.outruns(asked, config, t, n, q, quorum, voters) && t < term;
        lemma_commit(h, t, n);
        lemma_reign(h, t);
        lemma_campaign(h, node, term);
        let leader = h.log_of(t);
        let own = final_term(asked);
        let top = asked.len() - 1;
        if own > t {
            assert(asked[top].term == own);
            assert(share(asked, h.log_of(own), top + 1));
            lemma_share_at(asked, h.log_of(own), top + 1, top);
            leaders_are_complete(h, t, n, own);
            lemma_reign(h, own);
            assert(top >= h.reigns[own].start);
        } else {
            majorities_intersect(voters, quorum, electors);
            let who = choose|who: NodeID|
                voters.contains(who) && #[trigger] quorum.contains(who) && electors.contains(who);
            let ballot = h.ballots[(who, term)];
            lemma_ballot(h, who, term);
            assert(h.acked(who, t, n));
            assert(h.kept(ballot.log, t, n as int, term + 1));
            if !share(ballot.log, leader, n as int) {
                let middle = choose|middle: Term|
                    t < middle < term + 1 && #[trigger] h.conflict(t, middle, n as int);
                leaders_are_complete(h, t, n, middle);
                let k = choose|k: int|
                    0 <= k < n && k < h.log_of(middle).len() && #[trigger] h.log_of(middle)[k]
                        != leader[k];
                lemma_share_at(h.log_of(middle), leader, n as int, k);
            }
            let last = n - 1;
            assert(leader[last].term == t);
            lemma_share_at(ballot.log, leader, n as int, last);
            lemma_final_term(h, ballot.log, last);
        }
    }
}

/// No two nodes win one term.
pub proof fn lemma_one_reign(
    h: History,
    node: NodeID,
    term: Term,
    config: MembershipView,
    electors: Set<NodeID>,
)
    requires
        h.wf(),
        h.campaigns.contains_key((node, term)),
        h.is_fair(h.campaigns[(node, term)], term as int, config),
        config.quorum(electors),
        forall|who: NodeID| #[trigger]
            electors.contains(who) ==> h.ballots.contains_key((who, term)) && h.ballots[(
                who,
                term,
            )].candidate == node,
        h.reigns.contains_key(term),
    ensures
        h.reigns[term].leader == node,
{
    lemma_reign(h, term);
    let reign = h.reigns[term];
    let a = reign.log.take(reign.start as int);
    let b = h.campaigns[(node, term)];
    lemma_campaign(h, node, term);
    lemma_rooted_part(h, reign.log, reign.start as int);
    lemma_ground(h, a, term as int, reign.config);
    lemma_ground(h, b, term as int, config);
    let left = h.ground(a, reign.config);
    let right = h.ground(b, config);
    let i = last_change(left);
    let j = last_change(right);
    let p = last_change(left.take(i));
    let q = last_change(right.take(j));
    if i >= 0 && p >= 0 {
        assert forall|k: int| 0 <= k < a.len() implies (#[trigger] a[k]).term < term by {
            assert(a[k] == reign.log[k]);
        }
        let (t, m) = lemma_covered(h, a, term, reign.config);
        lemma_elected_are_complete(h, t, m, term, node, config, electors, false);
        lemma_share_less(b, h.log_of(t), m as int, p + 1);
    }
    if j >= 0 && q >= 0 {
        let (t, m) = lemma_covered(h, b, term, config);
        leaders_are_complete(h, t, m, term);
        lemma_share_less(reign.log, h.log_of(t), m as int, q + 1);
        assert(a.take(q + 1) =~= reign.log.take(q + 1));
    }
    lemma_grounds_meet(h, a, reign.config, b, config, reign.electors, electors);
    let who = choose|who: NodeID| #[trigger]
        reign.electors.contains(who) && electors.contains(who);
    assert(h.ballots[(who, term)].candidate == reign.leader);
}

/// The change before the last one was committed in an earlier term, if all entries are
/// of earlier terms.
proof fn lemma_covered(
    h: History,
    log: Seq<EntryView>,
    term: Term,
    config: MembershipView,
) -> (commit: (Term, nat))
    requires
        h.wf(),
        h.is_rooted(log),
        h.is_fair(log, term as int, config),
        forall|k: int| 0 <= k < log.len() ==> (#[trigger] log[k]).term < term,
        ({
            let ground = h.ground(log, config);
            let i = last_change(ground);
            i >= 0 && last_change(ground.take(i)) >= 0
        }),
    ensures
        ({
            let ground = h.ground(log, config);
            let p = last_change(ground.take(last_change(ground)));
            h.covers(log, p, commit.0, commit.1) && commit.0 < term
        }),
{
    lemma_ground(h, log, term as int, config);
    let ground = h.ground(log, config);
    let i = last_change(ground);
    let p = last_change(ground.take(i));
    if config == h.config_at(log) {
        lemma_last_change(log);
        lemma_change(h, log, i);
        lemma_last_change(log.take(i));
        let made = log[i].term;
        let (t, m) = choose|t: Term, m: nat| #[trigger]
            h.commits.contains((t, m)) && t <= made && p < m && share(log, h.log_of(t), p + 1) && (t
                < made || h.spans[(t, m)] <= i);
        assert(h.covers(log, p, t, m));
        (t, m)
    } else {
        let (t, m) = choose|t: Term, m: nat| #[trigger] h.covers(log, p, t, m) && t < term;
        (t, m)
    }
}

/// The change before the last one was committed before a leader had so many entries.
proof fn lemma_earlier_cover(h: History, term: Term, n: int) -> (commit: (Term, nat))
    requires
        h.wf(),
        h.reigns.contains_key(term),
        h.reigns[term].start <= n <= h.log_of(term).len(),
        ({
            let log = h.log_of(term).take(n);
            let ground = h.ground(log, h.config_in(term, n));
            let i = last_change(ground);
            i >= 0 && last_change(ground.take(i)) >= 0
        }),
    ensures
        ({
            let log = h.log_of(term).take(n);
            let ground = h.ground(log, h.config_in(term, n));
            let p = last_change(ground.take(last_change(ground)));
            &&& h.covers(log, p, commit.0, commit.1)
            &&& commit.0 < term || (commit.0 == term && h.spans[commit] < n)
        }),
{
    lemma_reign(h, term);
    let leader = h.log_of(term);
    let log = leader.take(n);
    let own = h.config_in(term, n);
    lemma_rooted_part(h, leader, n);
    lemma_reign_fair(h, term, n);
    lemma_ground(h, log, term as int, own);
    let ground = h.ground(log, own);
    let i = last_change(ground);
    let p = last_change(ground.take(i));
    if own == h.config_at(log) {
        lemma_last_change(log);
        lemma_change(h, log, i);
        assert(log[i] == leader[i]);
        let made = log[i].term;
        let (t, m) = choose|t: Term, m: nat| #[trigger]
            h.commits.contains((t, m)) && t <= made && p < m && share(log, h.log_of(t), p + 1) && (t
                < made || h.spans[(t, m)] <= i);
        assert(h.covers(log, p, t, m));
        (t, m)
    } else {
        let (t, m) = choose|t: Term, m: nat| #[trigger] h.covers(log, p, t, m) && t < term;
        (t, m)
    }
}

/// A commit that covers a membership change and that a majority of its target
/// acknowledged.
pub proof fn lemma_first_cover(
    h: History,
    log: Seq<EntryView>,
    p: int,
    term: Term,
    n: nat,
) -> (first: (Term, nat, Set<NodeID>))
    requires
        h.wf(),
        0 <= p < log.len(),
        log[p].membership is Some,
        h.covers(log, p, term, n),
    ensures
        h.covers(log, p, first.0, first.1),
        first.0 <= term,
        is_majority(log[p].membership->Some_0.target(), first.2),
        forall|node: NodeID| #[trigger]
            first.2.contains(node) ==> h.acked(node, first.0, first.1),
    decreases term, h.spans[(term, n)],
{
    lemma_commit(h, term, n);
    lemma_reign(h, term);
    let quorum = choose|quorum: Set<NodeID>| #[trigger] h.backed(quorum, term, n);
    let leader = h.log_of(term);
    let span = h.spans[(term, n)] as int;
    let a = leader.take(span);
    let own = h.config_in(term, span);
    let change = log[p].membership->Some_0;
    lemma_rooted_part(h, leader, span);
    lemma_reign_fair(h, term, span);
    lemma_ground(h, a, term as int, own);
    let ground = h.ground(a, own);
    let i = last_change(ground);
    lemma_share_at(log, leader, p + 1, p);
    assert(a[p] == leader[p]);
    assert(ground[p] == a[p]);
    lemma_last_change(ground);
    assert(i >= p);
    if i == p {
        lemma_quorum_of_follower(change, own, quorum);
        (term, n, quorum)
    } else {
        let rest = ground.take(i);
        let q = last_change(rest);
        lemma_last_change(rest);
        assert(rest[p] == ground[p]);
        assert(q >= p);
        if q == p {
            lemma_quorum_of_follower(change, own, quorum);
            (term, n, quorum)
        } else {
            let (t, m) = lemma_earlier_cover(h, term, span);
            lemma_share_less(a, h.log_of(t), q + 1, p + 1);
            assert(a.take(p + 1) =~= leader.take(p + 1));
            assert(h.covers(log, p, t, m));
            lemma_first_cover(h, log, p, t, m)
        }
    }
}

/// What a leader has as its configuration, a node can have whose log is a part of the
/// leader's.
pub proof fn lemma_part_suits(h: History, term: Term, n: int)
    requires
        h.wf(),
        h.reigns.contains_key(term),
        0 <= n <= h.log_of(term).len(),
    ensures
        h.suits(
            h.log_of(term).take(n),
            term + 1,
            h.config_in(term, h.log_of(term).len() as int),
        ),
{
    reveal(History::suits);
    lemma_reign(h, term);
    let log = h.log_of(term);
    let whole = log.len() as int;
    let config = h.config_in(term, whole);
    lemma_reign_fair(h, term, whole);
    assert(log.take(whole) =~= log);
    lemma_ground(h, log, term as int, config);
    let ground = h.ground(log, config);
    let i = last_change(ground);
    let part = log.take(n);
    if i < n {
        lemma_config_of_part(h, log, n);
    } else {
        let rest = ground.take(i);
        let p = last_change(rest);
        lemma_last_change(rest);
        if p >= 0 {
            assert(rest[p] == ground[p]);
            assert(ground[p] == log[p]);
        }
        let (t, m) = if p < 0 {
            (0u64, 0nat)
        } else {
            lemma_earlier_cover(h, term, whole)
        };
        if p < n {
            assert(part =~= rest.take(n));
            lemma_config_of_part(h, rest, n);
            assert forall|k: int| p < k < part.len() implies (
            #[trigger] part[k]).membership is None by {
                assert(part[k] == rest[k]);
            }
            lemma_last_change_at(part, p);
            if p >= 0 {
                assert(part.take(p + 1) =~= log.take(p + 1));
                assert(h.covers(part, p, t, m));
            }
        } else {
            assert(h.covers(log, p, t, m));
            let (u, k, quorum) = lemma_first_cover(h, log, p, t, m);
            let change = log[p].membership->Some_0;
            assert forall|other: Set<NodeID>| #[trigger] config.quorum(other) implies is_majority(
                change.target(),
                other,
            ) by {
                lemma_quorum_of_follower(change, config, other);
            }
            lemma_share_at(log, h.log_of(u), p + 1, p);
            assert(h.outruns(part, config, u, k, p, quorum, change.target()));
        }
    }
}

/// What is committed is committed for good: two logs of committed entries are the
/// same as far as both go.
pub proof fn decisions_agree(h: History, a: Seq<EntryView>, b: Seq<EntryView>, n: int)
    requires
        h.wf(),
        exists|bound: Term| #[trigger] h.is_decided(a, bound),
        exists|bound: Term| #[trigger] h.is_decided(b, bound),
        0 <= n <= a.len(),
        n <= b.len(),
    ensures
        share(a, b, n),
{
    if n > 0 {
        let bound_a = choose|bound: Term| #[trigger] h.is_decided(a, bound);
        let bound_b = choose|bound: Term| #[trigger] h.is_decided(b, bound);
        let (t, i) = choose|t: Term, i: nat| #[trigger]
            h.commits.contains((t, i)) && t <= bound_a && a.len() <= i && share(
                a,
                h.log_of(t),
                a.len() as int,
            );
        let (u, j) = choose|u: Term, j: nat| #[trigger]
            h.commits.contains((u, j)) && u <= bound_b && b.len() <= j && share(
                b,
                h.log_of(u),
                b.len() as int,
            );
        lemma_commit(h, t, i);
        lemma_commit(h, u, j);
        lemma_share_less(a, h.log_of(t), a.len() as int, n);
        lemma_share_less(b, h.log_of(u), b.len() as int, n);
        if t < u {
            leaders_are_complete(h, t, i, u);
            lemma_share_less(h.log_of(u), h.log_of(t), i as int, n);
        } else if u < t {
            leaders_are_complete(h, u, j, t);
            lemma_share_less(h.log_of(t), h.log_of(u), j as int, n);
        }
    } else {
        assert(a.take(0) =~= b.take(0));
    }
}

/// Linearizability: when a quorum confirmed a read to the leader of a term, no later
/// term had a leader when the read came.
pub proof fn confirmed_reads_have_no_rivals(
    h: History,
    term: Term,
    seq: ReadSequence,
    quorum: Set<NodeID>,
    rival: Term,
)
    requires
        h.wf(),
        h.inquiries.contains_key((term, seq)),
        h.config_in(term, h.log_of(term).len() as int).quorum(quorum),
        forall|node: NodeID| #[trigger]
            quorum.contains(node) ==> !h.inquiries[(term, seq)].ahead.contains(node),
    ensures
        !h.inquiries[(term, seq)].rivals.contains(rival),
    decreases rival,
{
    let inquiry = h.inquiries[(term, seq)];
    if inquiry.rivals.contains(rival) {
        lemma_inquiry(h, term, seq);
        assert(h.is_rival(term, seq, rival));
        lemma_reign(h, term);
        lemma_reign(h, rival);
        let reign = h.reigns[rival];
        let a = h.log_of(term);
        let b = reign.log.take(reign.start as int);
        // The rival's log is of no later term, or it has a rival before it.
        assert forall|k: int| 0 <= k < b.len() implies (#[trigger] b[k]).term <= term by {
            assert(b[k] == reign.log[k]);
            if b[k].term > term {
                confirmed_reads_have_no_rivals(h, term, seq, quorum, b[k].term);
            }
        }
        lemma_rooted_part(h, reign.log, reign.start as int);
        let own = h.config_in(term, a.len() as int);
        lemma_reign_fair(h, term, a.len() as int);
        assert(a.take(a.len() as int) =~= a);
        lemma_ground(h, a, term as int, own);
        lemma_ground(h, b, rival as int, reign.config);
        let left = h.ground(a, own);
        let right = h.ground(b, reign.config);
        let i = last_change(left);
        let j = last_change(right);
        let p = last_change(left.take(i));
        let q = last_change(right.take(j));
        if i >= 0 && p >= 0 {
            let (t, m) = if own == h.config_at(a) {
                lemma_last_change(a);
                lemma_change(h, a, i);
                let made = a[i].term;
                choose|t: Term, m: nat| #[trigger]
                    h.commits.contains((t, m)) && t <= made && p < m && share(
                        a,
                        h.log_of(t),
                        p + 1,
                    ) && (t < made || h.spans[(t, m)] <= i)
            } else {
                choose|t: Term, m: nat| #[trigger] h.covers(a, p, t, m) && t < term
            };
            leaders_are_complete(h, t, m, rival);
            lemma_share_less(reign.log, h.log_of(t), m as int, p + 1);
            assert(b.take(p + 1) =~= reign.log.take(p + 1));
        }
        if j >= 0 && q >= 0 {
            let (t, m) = if reign.config == h.config_at(b) {
                lemma_last_change(b);
                lemma_change(h, b, j);
                let made = b[j].term;
                choose|t: Term, m: nat| #[trigger]
                    h.commits.contains((t, m)) && t <= made && q < m && share(
                        b,
                        h.log_of(t),
                        q + 1,
                    ) && (t < made || h.spans[(t, m)] <= j)
            } else {
                choose|t: Term, m: nat| #[trigger]
                    h.covers(b, q, t, m) && t < rival && (t > term ==> inquiry.rivals.contains(t))
            };
            if t < term {
                leaders_are_complete(h, t, m, term);
                lemma_share_less(a, h.log_of(t), m as int, q + 1);
            } else if t > term {
                confirmed_reads_have_no_rivals(h, term, seq, quorum, t);
            }
        }
        lemma_grounds_meet(h, a, own, b, reign.config, quorum, reign.electors);
        let node = choose|node: NodeID| #[trigger]
            quorum.contains(node) && reign.electors.contains(node);
        assert(inquiry.ahead.contains(node));
    }
}

/// What is decided is in the log of every leader of a later term.
pub proof fn lemma_decided_in_reign(h: History, log: Seq<EntryView>, bound: Term)
    requires
        h.wf(),
        h.is_decided(log, bound),
        h.reigns.contains_key(bound),
    ensures
        share(log, h.log_of(bound), log.len() as int),
{
    if log.len() > 0 {
        let (t, i) = choose|t: Term, i: nat| #[trigger]
            h.commits.contains((t, i)) && t <= bound && log.len() <= i && share(
                log,
                h.log_of(t),
                log.len() as int,
            );
        lemma_commit(h, t, i);
        if t < bound {
            leaders_are_complete(h, t, i, bound);
            lemma_share_less(h.log_of(bound), h.log_of(t), i as int, log.len() as int);
        }
    } else {
        assert(log.take(0) =~= h.log_of(bound).take(0));
    }
}

} // verus!
