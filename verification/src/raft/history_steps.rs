//! How the history of a cluster goes on.

use vstd::prelude::*;

use super::entry::{EntryView, Term};
use super::history::{
    can_follow_config, last_change, lemma_ack, lemma_campaign, lemma_commit, lemma_last_change,
    lemma_reign, lemma_share_all, lemma_share_at, lemma_share_less, not_behind, share, Ballot,
    History, Inquiry, Reign,
};
use super::ids::NodeID;
use super::membership::MembershipView;
use super::message::{EnvelopeView, ReadSequence};

verus! {

/// Whether one history goes on as another by what `node` does: nothing that
/// happened is undone, and what is new is the node's own.
#[verifier::opaque]
pub open spec fn goes_on(h: History, next: History, node: NodeID) -> bool {
    &&& next.config == h.config
    &&& forall|other: NodeID|
        other != node ==> (#[trigger] next.logs[other]) == h.logs[other]
            && next.logs.contains_key(other) == h.logs.contains_key(other)
    &&& forall|term: Term| #[trigger]
        h.reigns.contains_key(term) ==> {
            &&& next.reigns.contains_key(term)
            &&& next.reigns[term].leader == h.reigns[term].leader
            &&& next.reigns[term].electors == h.reigns[term].electors
            &&& next.reigns[term].start == h.reigns[term].start
            &&& next.reigns[term].config == h.reigns[term].config
            &&& share(next.log_of(term), h.log_of(term), h.log_of(term).len() as int)
            &&& h.reigns[term].leader != node ==> next.log_of(term) == h.log_of(term)
        }
    &&& forall|term: Term| #[trigger]
        next.reigns.contains_key(term) && !h.reigns.contains_key(term)
            ==> next.reigns[term].leader == node
    &&& forall|who: NodeID, term: Term| #[trigger]
        h.campaigns.contains_key((who, term)) ==> next.campaigns.contains_key((who, term))
            && next.campaigns[(who, term)] == h.campaigns[(who, term)]
    &&& forall|who: NodeID, term: Term| #[trigger]
        next.campaigns.contains_key((who, term)) && who != node ==> h.campaigns.contains_key(
            (who, term),
        )
    &&& forall|who: NodeID, term: Term| #[trigger]
        h.ballots.contains_key((who, term)) ==> next.ballots.contains_key((who, term))
            && next.ballots[(who, term)] == h.ballots[(who, term)]
    &&& forall|who: NodeID, term: Term| #[trigger]
        next.ballots.contains_key((who, term)) && who != node ==> h.ballots.contains_key(
            (who, term),
        )
    &&& forall|who: NodeID, term: Term| #[trigger]
        h.acks.contains_key((who, term)) ==> next.acks.contains_key((who, term))
            && next.acks[(who, term)] >= h.acks[(who, term)]
    &&& forall|who: NodeID, term: Term| #[trigger]
        next.acks.contains_key((who, term)) && who != node ==> h.acks.contains_key((who, term))
            && next.acks[(who, term)] == h.acks[(who, term)]
    &&& forall|term: Term, n: nat| #[trigger]
        h.commits.contains((term, n)) ==> {
            &&& next.commits.contains((term, n))
            &&& h.spans.contains_key((term, n)) ==> next.spans.contains_key((term, n))
            &&& next.spans[(term, n)] == h.spans[(term, n)]
        }
    &&& forall|term: Term, n: nat| #[trigger]
        next.commits.contains((term, n)) && !h.commits.contains((term, n))
            ==> next.reigns.contains_key(term) && next.reigns[term].leader == node
    &&& forall|who: NodeID| #[trigger]
        h.terms.contains_key(who) ==> next.terms.contains_key(who) && next.terms[who]
            >= h.terms[who] && (who != node ==> next.terms[who] == h.terms[who])
    &&& forall|term: Term, seq: ReadSequence| #[trigger]
        h.inquiries.contains_key((term, seq)) ==> {
            &&& next.inquiries.contains_key((term, seq))
            &&& is_same_inquiry(h.inquiries[(term, seq)], next.inquiries[(term, seq)])
            &&& h.reigns[term].leader != node ==> next.inquiries[(term, seq)]
                == h.inquiries[(term, seq)]
        }
    &&& forall|term: Term, seq: ReadSequence| #[trigger]
        next.inquiries.contains_key((term, seq)) && !h.inquiries.contains_key((term, seq)) ==> {
            &&& next.reigns.contains_key(term)
            &&& next.reigns[term].leader == node
            &&& h.commits.subset_of(next.inquiries[(term, seq)].known)
        }
    &&& forall|who: NodeID, term: Term| #[trigger]
        h.confirms.contains_key((who, term)) ==> next.confirms.contains_key((who, term))
            && next.confirms[(who, term)] >= h.confirms[(who, term)]
}

/// Whether no leader was asked for a read.
pub open spec fn asks_nothing(h: History, next: History) -> bool {
    forall|term: Term, seq: ReadSequence| #[trigger]
        next.inquiries.contains_key((term, seq)) ==> h.inquiries.contains_key((term, seq))
}

/// Whether an inquiry is the same as another, but may be answered.
pub open spec fn is_same_inquiry(before: Inquiry, after: Inquiry) -> bool {
    &&& after == (Inquiry { answer: after.answer, ..before })
    &&& before.answer is Some ==> after.answer == before.answer
}

/// A history goes on as itself.
pub proof fn lemma_goes_on_same(h: History, node: NodeID)
    ensures
        goes_on(h, h, node),
{
    reveal(goes_on);
}

/// The reigns and logs of other nodes when the history goes on.
pub proof fn lemma_goes_on(h: History, next: History, node: NodeID)
    requires
        goes_on(h, next, node),
    ensures
        next.config == h.config,
        forall|term: Term| #[trigger]
            h.reigns.contains_key(term) ==> next.reigns.contains_key(term)
                && next.reigns[term].leader == h.reigns[term].leader && share(
                next.log_of(term),
                h.log_of(term),
                h.log_of(term).len() as int,
            ),
        forall|term: Term, n: nat| #[trigger]
            h.commits.contains((term, n)) ==> next.commits.contains((term, n)),
        forall|who: NodeID, term: Term, n: nat|
            h.acked(who, term, n) ==> #[trigger] next.acked(who, term, n),
        forall|who: NodeID, term: Term, seq: ReadSequence|
            h.confirmed(who, term, seq) ==> #[trigger] next.confirmed(who, term, seq),
        forall|term: Term, seq: ReadSequence| #[trigger]
            h.inquiries.contains_key((term, seq)) ==> next.inquiries.contains_key((term, seq))
                && is_same_inquiry(h.inquiries[(term, seq)], next.inquiries[(term, seq)]),
        forall|term: Term, seq: ReadSequence| #[trigger]
            next.inquiries.contains_key((term, seq)) && !h.inquiries.contains_key((term, seq))
                ==> h.commits.subset_of(next.inquiries[(term, seq)].known),
{
    reveal(goes_on);
}

/// What stays true of a log when the history goes on.
pub proof fn lemma_still_rooted(h: History, next: History, node: NodeID, log: Seq<EntryView>)
    requires
        goes_on(h, next, node),
        h.is_rooted(log),
    ensures
        next.is_rooted(log),
{
    reveal(goes_on);
    reveal(History::wf);
    assert forall|k: int| 0 <= k < log.len() implies next.reigns.contains_key(
        (#[trigger] log[k]).term,
    ) && share(log, next.log_of(log[k].term), k + 1) by {
        let term = log[k].term;
        assert(h.reigns.contains_key(term));
        lemma_share_less(next.log_of(term), h.log_of(term), h.log_of(term).len() as int, k + 1);
    }
}

pub proof fn lemma_still_kept(
    h: History,
    next: History,
    node: NodeID,
    log: Seq<EntryView>,
    term: Term,
    n: int,
    bound: int,
    next_bound: int,
)
    requires
        goes_on(h, next, node),
        h.reigns.contains_key(term),
        0 <= n <= h.log_of(term).len(),
        h.kept(log, term, n, bound),
        bound <= next_bound,
    ensures
        next.kept(log, term, n, next_bound),
{
    reveal(goes_on);
    reveal(History::wf);
    lemma_share_less(next.log_of(term), h.log_of(term), h.log_of(term).len() as int, n);
    if !share(log, h.log_of(term), n) {
        let later = choose|later: Term|
            term < later < bound && #[trigger] h.conflict(term, later, n);
        let k = choose|k: int|
            0 <= k < n && k < h.log_of(later).len() && #[trigger] h.log_of(later)[k] != h.log_of(
                term,
            )[k];
        lemma_share_at(next.log_of(later), h.log_of(later), h.log_of(later).len() as int, k);
        lemma_share_at(next.log_of(term), h.log_of(term), h.log_of(term).len() as int, k);
        assert(next.log_of(later)[k] != next.log_of(term)[k]);
        assert(next.conflict(term, later, n));
    }
}

pub proof fn lemma_still_decided(
    h: History,
    next: History,
    node: NodeID,
    log: Seq<EntryView>,
    bound: Term,
    next_bound: Term,
)
    requires
        h.wf(),
        goes_on(h, next, node),
        h.is_decided(log, bound),
        bound <= next_bound,
    ensures
        next.is_decided(log, next_bound),
{
    reveal(goes_on);
    reveal(History::wf);
    if log.len() > 0 {
        let (t, i) = choose|t: Term, i: nat| #[trigger]
            h.commits.contains((t, i)) && t <= bound && log.len() <= i && share(
                log,
                h.log_of(t),
                log.len() as int,
            );
        assert(h.is_commit(t, i));
        lemma_share_less(
            next.log_of(t),
            h.log_of(t),
            h.log_of(t).len() as int,
            log.len() as int,
        );
        assert(next.commits.contains((t, i)));
    }
}

/// What was committed before a change was appended stays so.
proof fn lemma_settled_stays(
    h: History,
    next: History,
    node: NodeID,
    log: Seq<EntryView>,
    p: int,
    term: Term,
    k: int,
)
    requires
        h.wf(),
        goes_on(h, next, node),
        h.is_settled(log, p, term, k),
    ensures
        next.is_settled(log, p, term, k),
{
    reveal(goes_on);
    let (t, n) = choose|t: Term, n: nat| #[trigger]
        h.commits.contains((t, n)) && t <= term && p < n && share(log, h.log_of(t), p + 1) && (t
            < term || h.spans[(t, n)] <= k);
    lemma_commit(h, t, n);
    lemma_share_less(next.log_of(t), h.log_of(t), h.log_of(t).len() as int, p + 1);
    assert(next.commits.contains((t, n)));
}

/// A commit that covers an entry stays so.
pub proof fn lemma_covers_stays(
    h: History,
    next: History,
    node: NodeID,
    log: Seq<EntryView>,
    p: int,
    t: Term,
    n: nat,
)
    requires
        h.wf(),
        goes_on(h, next, node),
        h.covers(log, p, t, n),
    ensures
        next.covers(log, p, t, n),
{
    reveal(goes_on);
    lemma_commit(h, t, n);
    lemma_share_less(next.log_of(t), h.log_of(t), h.log_of(t).len() as int, p + 1);
}

/// A configuration that a node can be elected in stays so.
pub proof fn lemma_fair_stays(
    h: History,
    next: History,
    node: NodeID,
    log: Seq<EntryView>,
    bound: int,
    longer: int,
    config: MembershipView,
)
    requires
        h.wf(),
        goes_on(h, next, node),
        h.is_fair(log, bound, config),
        bound <= longer,
    ensures
        next.is_fair(log, longer, config),
{
    reveal(goes_on);
    if config != h.config_at(log) && last_change(log) >= 0 {
        let p = last_change(log);
        let (t, n) = choose|t: Term, n: nat| #[trigger] h.covers(log, p, t, n) && t < bound;
        lemma_covers_stays(h, next, node, log, p, t, n);
    }
}

/// A configuration that a node can have stays so.
pub proof fn lemma_suits_stays(
    h: History,
    next: History,
    node: NodeID,
    log: Seq<EntryView>,
    bound: int,
    longer: int,
    config: MembershipView,
)
    requires
        h.wf(),
        goes_on(h, next, node),
        h.suits(log, bound, config),
        bound <= longer,
    ensures
        next.suits(log, longer, config),
{
    reveal(History::suits);
    if h.is_fair(log, bound, config) {
        lemma_fair_stays(h, next, node, log, bound, longer, config);
    } else {
        reveal(goes_on);
        let (t, n, q, quorum, voters) = choose|
            t: Term,
            n: nat,
            q: int,
            quorum: Set<NodeID>,
            voters: Set<NodeID>,
        | #[trigger]
            h.outruns(log, config, t, n, q, quorum, voters) && t < bound;
        lemma_commit(h, t, n);
        lemma_share_at(next.log_of(t), h.log_of(t), h.log_of(t).len() as int, q);
        assert forall|who: NodeID| #[trigger] quorum.contains(who) implies next.acked(
            who,
            t,
            n,
        ) by {
            assert(h.acked(who, t, n));
        }
        assert(next.outruns(log, config, t, n, q, quorum, voters));
    }
}

/// An entry of a leader's log stays regular.
proof fn lemma_regular_stays(h: History, next: History, node: NodeID, term: Term, k: int)
    requires
        h.wf(),
        goes_on(h, next, node),
        h.reigns.contains_key(term),
        0 <= k < h.log_of(term).len(),
        h.is_regular(term, k),
    ensures
        next.is_regular(term, k),
{
    reveal(goes_on);
    let before = h.log_of(term);
    let after = next.log_of(term);
    lemma_share_at(after, before, before.len() as int, k);
    lemma_share_less(after, before, before.len() as int, k);
    let p = last_change(before.take(k));
    lemma_last_change(before.take(k));
    if before[k].membership is Some && p >= 0 {
        lemma_settled_stays(h, next, node, before, p, term, k);
        let (t, n) = choose|t: Term, n: nat| #[trigger]
            next.commits.contains((t, n)) && t <= term && p < n && share(
                before,
                next.log_of(t),
                p + 1,
            ) && (t < term || next.spans[(t, n)] <= k);
        lemma_share_less(after, before, before.len() as int, p + 1);
        assert(next.commits.contains((t, n)) && t <= term && p < n && share(
            after,
            next.log_of(t),
            p + 1,
        ) && (t < term || next.spans[(t, n)] <= k));
    }
}

/// A ballot stays true when its voter acknowledged nothing else before it.
proof fn lemma_ballot_stays(h: History, next: History, node: NodeID, who: NodeID, term: Term)
    requires
        h.wf(),
        goes_on(h, next, node),
        h.ballots.contains_key((who, term)),
        forall|earlier: Term| #[trigger]
            next.acks.contains_key((who, earlier)) && earlier < term ==> h.acks.contains_key(
                (who, earlier),
            ) && next.acks[(who, earlier)] == h.acks[(who, earlier)],
    ensures
        next.is_ballot(who, term),
{
    reveal(goes_on);
    reveal(History::wf);
    assert(h.is_ballot(who, term));
    let ballot = h.ballots[(who, term)];
    lemma_still_rooted(h, next, node, ballot.log);
    assert(h.campaigns.contains_key((ballot.candidate, term)));
    lemma_faithful_stays(h, next, node, who, term, ballot.log, term + 1);
    if next.may_elect(who, term) {
        assert(h.may_elect(who, term)) by {
            if h.reigns.contains_key(term) {
                assert(next.reigns.contains_key(term));
            }
        }
        lemma_faithful_stays(h, next, node, who, term, ballot.log, term as int);
    }
}

proof fn lemma_faithful_stays(
    h: History,
    next: History,
    node: NodeID,
    who: NodeID,
    term: Term,
    log: Seq<EntryView>,
    bound: int,
)
    requires
        h.wf(),
        goes_on(h, next, node),
        h.is_faithful(who, term, log, bound),
        forall|earlier: Term| #[trigger]
            next.acks.contains_key((who, earlier)) && earlier < term ==> h.acks.contains_key(
                (who, earlier),
            ) && next.acks[(who, earlier)] == h.acks[(who, earlier)],
    ensures
        next.is_faithful(who, term, log, bound),
{
    reveal(goes_on);
    reveal(History::wf);
    assert forall|earlier: Term, n: nat|
        earlier < term && next.acked(who, earlier, n) implies #[trigger] next.kept(
        log,
        earlier,
        n as int,
        bound,
    ) by {
        assert(next.acks.contains_key((who, earlier)));
        assert(h.acked(who, earlier, n));
        assert(h.is_ack(who, earlier));
        assert(h.kept(log, earlier, n as int, bound));
        lemma_still_kept(h, next, node, log, earlier, n as int, bound, bound);
    }
}

/// What stays true of the parts of a history that are not new.
proof fn lemma_old_parts(h: History, next: History, node: NodeID)
    requires
        h.wf(),
        goes_on(h, next, node),
        forall|term: Term| #[trigger]
            h.reigns.contains_key(term) && h.reigns[term].leader != node ==> next.acks[(
                h.reigns[term].leader,
                term,
            )] == h.acks[(h.reigns[term].leader, term)],
    ensures
        forall|term: Term| #[trigger]
            h.reigns.contains_key(term) && next.log_of(term) == h.log_of(term)
                && next.acks[(h.reigns[term].leader, term)] == h.log_of(term).len()
                ==> next.is_reign(term),
        forall|who: NodeID, term: Term| #[trigger]
            h.campaigns.contains_key((who, term)) ==> next.is_campaign(who, term),
        forall|who: NodeID, term: Term| #[trigger]
            h.ballots.contains_key((who, term)) && who != node ==> next.is_ballot(who, term),
        forall|who: NodeID, term: Term| #[trigger]
            h.acks.contains_key((who, term)) && next.acks[(who, term)] == h.acks[(who, term)]
                ==> next.is_ack(who, term),
        forall|term: Term, n: nat| #[trigger]
            h.commits.contains((term, n)) ==> next.is_commit(term, n),
{
    reveal(goes_on);
    reveal(History::wf);
    assert forall|term: Term| #[trigger]
        h.reigns.contains_key(term) && next.log_of(term) == h.log_of(term) && next.acks[(
            h.reigns[term].leader,
            term,
        )] == h.log_of(term).len() implies next.is_reign(term) by {
        assert(h.is_reign(term));
        lemma_still_rooted(h, next, node, h.log_of(term));
        let reign = h.reigns[term];
        assert(next.reigns[term] == reign);
        assert forall|k: int| 0 <= k < reign.log.len() implies {
            &&& (#[trigger] reign.log[k]).index == k + 1
            &&& k < reign.start ==> reign.log[k].term < term
            &&& k >= reign.start ==> reign.log[k].term == term && next.is_regular(term, k)
        } by {
            if k >= reign.start {
                lemma_regular_stays(h, next, node, term, k);
            }
        }
        assert forall|who: NodeID| #[trigger] reign.electors.contains(who) implies
            next.ballots.contains_key((who, term)) && next.ballots[(who, term)].candidate
            == reign.leader by {
            assert(h.ballots.contains_key((who, term)));
        }
        assert(h.campaigns.contains_key((reign.leader, term)));
        assert(h.acks.contains_key((reign.leader, term)));
        lemma_fair_stays(
            h,
            next,
            node,
            reign.log.take(reign.start as int),
            term as int,
            term as int,
            reign.config,
        );
    }
    assert forall|who: NodeID, term: Term| #[trigger]
        h.campaigns.contains_key((who, term)) implies next.is_campaign(who, term) by {
        assert(h.is_campaign(who, term));
        lemma_still_rooted(h, next, node, h.campaigns[(who, term)]);
    }
    assert forall|who: NodeID, term: Term| #[trigger]
        h.ballots.contains_key((who, term)) && who != node implies next.is_ballot(who, term) by {
        lemma_ballot_stays(h, next, node, who, term);
    }
    assert forall|who: NodeID, term: Term| #[trigger]
        h.acks.contains_key((who, term)) && next.acks[(who, term)] == h.acks[(who, term)] implies
        next.is_ack(who, term) by {
        assert(h.is_ack(who, term));
    }
    assert forall|term: Term, n: nat| #[trigger] h.commits.contains((term, n)) implies
        next.is_commit(term, n) by {
        assert(h.is_commit(term, n));
        let quorum = choose|quorum: Set<NodeID>| #[trigger] h.backed(quorum, term, n);
        assert forall|who: NodeID| #[trigger] quorum.contains(who) implies next.acked(
            who,
            term,
            n,
        ) by {
            assert(h.acked(who, term, n));
        }
        lemma_share_less(
            next.log_of(term),
            h.log_of(term),
            h.log_of(term).len() as int,
            h.spans[(term, n)] as int,
        );
        assert(next.backed(quorum, term, n));
    }
}

/// What stays true of reads when none is new, or answered, or confirmed.
proof fn lemma_old_inquiries(h: History, next: History, node: NodeID)
    requires
        h.wf(),
        goes_on(h, next, node),
        next.inquiries == h.inquiries,
        next.confirms == h.confirms,
    ensures
        forall|term: Term, seq: ReadSequence| #[trigger]
            next.inquiries.contains_key((term, seq)) ==> next.is_inquiry(term, seq),
        forall|who: NodeID, term: Term| #[trigger]
            next.confirms.contains_key((who, term)) ==> next.is_confirm(who, term),
{
    reveal(goes_on);
    reveal(History::wf);
    assert forall|term: Term, seq: ReadSequence| #[trigger]
        next.inquiries.contains_key((term, seq)) implies next.is_inquiry(term, seq) by {
        lemma_inquiry_stays(h, next, node, term, seq);
    }
    assert forall|who: NodeID, term: Term| #[trigger]
        next.confirms.contains_key((who, term)) implies next.is_confirm(who, term) by {
        assert(h.is_confirm(who, term));
    }
}

/// An inquiry stays true.
proof fn lemma_inquiry_stays(
    h: History,
    next: History,
    node: NodeID,
    term: Term,
    seq: ReadSequence,
)
    requires
        h.wf(),
        goes_on(h, next, node),
        h.inquiries.contains_key((term, seq)),
    ensures
        next.is_inquiry(term, seq),
{
    reveal(goes_on);
    reveal(History::wf);
    assert(h.is_inquiry(term, seq));
    let inquiry = h.inquiries[(term, seq)];
    let after = next.inquiries[(term, seq)];
    assert(after.known == inquiry.known && after.ahead == inquiry.ahead && after.rivals
        == inquiry.rivals);
    assert forall|earlier: ReadSequence| 0 < earlier <= seq implies
        #[trigger] next.inquiries.contains_key((term, earlier)) by {
        assert(h.inquiries.contains_key((term, earlier)));
    }
    assert forall|t: Term, n: nat| #[trigger] after.known.contains((t, n)) implies
        next.commits.contains((t, n)) && (t > term ==> after.rivals.contains(t)) by {
        assert(inquiry.known.contains((t, n)));
    }
    assert forall|rival: Term| #[trigger] after.rivals.contains(rival) implies next.is_rival(
        term,
        seq,
        rival,
    ) by {
        assert(inquiry.rivals.contains(rival));
        assert(h.is_rival(term, seq, rival));
        assert(h.is_reign(rival));
        let reign = h.reigns[rival];
        let later = next.reigns[rival];
        assert forall|k: int|
            0 <= k < later.start && (#[trigger] later.log[k]).term > term implies
            after.rivals.contains(later.log[k].term) by {
            lemma_share_at(later.log, reign.log, reign.log.len() as int, k);
        }
        let log = reign.log.take(reign.start as int);
        lemma_share_less(later.log, reign.log, reign.log.len() as int, reign.start as int);
        if reign.config != h.config_at(log) && last_change(log) >= 0 {
            let (t, n) = choose|t: Term, n: nat| #[trigger]
                h.covers(log, last_change(log), t, n) && t < rival && (t > term
                    ==> inquiry.rivals.contains(t));
            lemma_covers_stays(h, next, node, log, last_change(log), t, n);
        }
    }
    assert forall|who: NodeID| #[trigger] after.ahead.contains(who) implies
        next.terms.contains_key(who) && next.terms[who] > term by {
        assert(inquiry.ahead.contains(who));
        assert(h.terms.contains_key(who));
    }
}

/// A voter's own ballots stay true when it acknowledges something in a term that is
/// not before them.
proof fn lemma_old_ballots(h: History, next: History, node: NodeID, now: Term)
    requires
        h.wf(),
        goes_on(h, next, node),
        forall|term: Term| #[trigger] h.ballots.contains_key((node, term)) ==> term <= now,
        forall|term: Term| #[trigger]
            next.acks.contains_key((node, term)) && term != now ==> h.acks.contains_key(
                (node, term),
            ) && next.acks[(node, term)] == h.acks[(node, term)],
    ensures
        forall|term: Term| #[trigger]
            h.ballots.contains_key((node, term)) ==> next.is_ballot(node, term),
{
    reveal(goes_on);
    reveal(History::wf);
    assert forall|term: Term| #[trigger] h.ballots.contains_key((node, term)) implies next.is_ballot(
        node,
        term,
    ) by {
        lemma_ballot_stays(h, next, node, node, term);
    }
}

impl History {
    /// After a node's log became `log`, of which the first `n` entries are those of
    /// the leader of `term`.
    pub open spec fn following(
        self,
        node: NodeID,
        log: Seq<EntryView>,
        term: Term,
        n: nat,
    ) -> History {
        let seen = if self.acked(node, term, n) {
            self.acks[(node, term)]
        } else {
            n
        };
        History {
            logs: self.logs.insert(node, log),
            acks: self.acks.insert((node, term), seen),
            ..self
        }
    }

    /// After a node voted.
    pub open spec fn voting(self, node: NodeID, term: Term, candidate: NodeID) -> History {
        History {
            ballots: self.ballots.insert(
                (node, term),
                Ballot { candidate, log: self.logs[node] },
            ),
            ..self
        }
    }

    /// After a node asked for votes, and voted for itself.
    pub open spec fn campaigning(self, node: NodeID, term: Term) -> History {
        History {
            terms: self.terms.insert(node, term),
            campaigns: self.campaigns.insert((node, term), self.logs[node]),
            ballots: self.ballots.insert(
                (node, term),
                Ballot { candidate: node, log: self.logs[node] },
            ),
            ..self
        }
    }

    /// After a node discovered a later term.
    pub open spec fn adopting(self, node: NodeID, term: Term) -> History {
        History { terms: self.terms.insert(node, term), ..self }
    }

    /// After a node confirmed a read to the leader of a term.
    pub open spec fn confirming(self, node: NodeID, term: Term, seq: ReadSequence) -> History {
        let last = if self.confirmed(node, term, seq) {
            self.confirms[(node, term)]
        } else {
            seq
        };
        History { confirms: self.confirms.insert((node, term), last), ..self }
    }

    /// After the leader of a term was asked for a read.
    pub open spec fn asking(self, term: Term, seq: ReadSequence, inquiry: Inquiry) -> History {
        History { inquiries: self.inquiries.insert((term, seq), inquiry), ..self }
    }

    /// The nodes that are in a later term.
    pub open spec fn ahead(self, term: Term) -> Set<NodeID> {
        Set::new(|node: NodeID| self.terms.contains_key(node) && self.terms[node] > term)
    }

    /// The later terms that had a leader.
    pub open spec fn rivals(self, term: Term) -> Set<Term> {
        Set::new(|later: Term| later > term && self.reigns.contains_key(later))
    }

    /// After the leader of a term answered a read.
    pub open spec fn answering(
        self,
        term: Term,
        seq: ReadSequence,
        answer: EnvelopeView,
    ) -> History {
        History {
            inquiries: self.inquiries.insert(
                (term, seq),
                Inquiry { answer: Some(answer), ..self.inquiries[(term, seq)] },
            ),
            ..self
        }
    }

    /// After a node won an election, and appended an entry.
    pub open spec fn winning(
        self,
        node: NodeID,
        term: Term,
        config: MembershipView,
        electors: Set<NodeID>,
        entry: EntryView,
    ) -> History {
        let log = self.logs[node].push(entry);
        History {
            logs: self.logs.insert(node, log),
            reigns: self.reigns.insert(
                term,
                Reign { leader: node, electors, config, start: self.logs[node].len(), log },
            ),
            acks: self.acks.insert((node, term), log.len()),
            ..self
        }
    }

    /// After the leader of a term appended an entry.
    pub open spec fn leading(self, node: NodeID, term: Term, entry: EntryView) -> History {
        let log = self.logs[node].push(entry);
        History {
            logs: self.logs.insert(node, log),
            reigns: self.reigns.insert(term, Reign { log, ..self.reigns[term] }),
            acks: self.acks.insert((node, term), log.len()),
            ..self
        }
    }

    /// After the leader of a term committed its first `n` entries.
    pub open spec fn committing(self, term: Term, n: nat) -> History {
        History {
            commits: self.commits.insert((term, n)),
            spans: self.spans.insert((term, n), self.log_of(term).len()),
            ..self
        }
    }
}

pub proof fn lemma_following(h: History, node: NodeID, log: Seq<EntryView>, term: Term, n: nat)
    requires
        h.wf(),
        h.reigns.contains_key(term),
        h.reigns[term].leader != node,
        n <= h.log_of(term).len(),
        forall|t: Term| #[trigger] h.ballots.contains_key((node, t)) ==> t <= term,
    ensures
        h.following(node, log, term, n).wf(),
        goes_on(h, h.following(node, log, term, n), node),
        h.following(node, log, term, n).acked(node, term, n),
{
    let next = h.following(node, log, term, n);
    assert forall|t: Term| #[trigger] h.reigns.contains_key(t) implies share(
        next.log_of(t),
        h.log_of(t),
        h.log_of(t).len() as int,
    ) by {
    }
    assert forall|t: Term| #[trigger] h.reigns.contains_key(t) implies next.acks[(
        h.reigns[t].leader,
        t,
    )] == h.acks[(h.reigns[t].leader, t)] by {
        lemma_reign(h, t);
    }
    assert(goes_on(h, next, node)) by {
        reveal(goes_on);
    }
    lemma_old_parts(h, next, node);
    lemma_old_inquiries(h, next, node);
    lemma_old_ballots(h, next, node, term);
    assert forall|t: Term| #[trigger] next.reigns.contains_key(t) implies next.is_reign(t) by {
        assert(h.reigns.contains_key(t));
        lemma_reign(h, t);
    }
    assert forall|who: NodeID, t: Term| #[trigger] next.acks.contains_key((who, t)) implies
        next.is_ack(who, t) by {
        if (who, t) == (node, term) {
            if h.acks.contains_key((who, t)) {
                lemma_ack(h, who, t);
            }
        } else {
            assert(h.acks.contains_key((who, t)));
        }
    }
    assert forall|who: NodeID, t: Term| #[trigger] next.campaigns.contains_key((who, t)) implies
        next.is_campaign(who, t) by {
        assert(h.campaigns.contains_key((who, t)));
    }
    assert forall|who: NodeID, t: Term| #[trigger] next.ballots.contains_key((who, t)) implies
        next.is_ballot(who, t) by {
        assert(h.ballots.contains_key((who, t)));
    }
    assert forall|t: Term, m: nat| #[trigger] next.commits.contains((t, m)) implies next.is_commit(
        t,
        m,
    ) by {
        assert(h.commits.contains((t, m)));
    }
    assert(next.wf()) by {
        reveal(History::wf);
    }
}

pub proof fn lemma_voting(h: History, node: NodeID, term: Term, candidate: NodeID)
    requires
        h.wf(),
        !h.ballots.contains_key((node, term)),
        h.terms.contains_key(node),
        term <= h.terms[node],
        h.is_rooted(h.logs[node]),
        h.campaigns.contains_key((candidate, term)),
        not_behind(h.campaigns[(candidate, term)], h.logs[node]),
        h.is_faithful(node, term, h.logs[node], term + 1),
        h.may_elect(node, term) ==> h.is_faithful(node, term, h.logs[node], term as int),
    ensures
        h.voting(node, term, candidate).wf(),
        goes_on(h, h.voting(node, term, candidate), node),
{
    reveal(goes_on);
    reveal(History::wf);
    let next = h.voting(node, term, candidate);
    assert(goes_on(h, next, node));
    lemma_parts_with_ballot(h, next, node, term);
}

/// What stays true when a node's ballot is new, and is true of the ballot.
proof fn lemma_parts_with_ballot(h: History, next: History, node: NodeID, term: Term)
    requires
        h.wf(),
        goes_on(h, next, node),
        next.logs == h.logs,
        next.reigns == h.reigns,
        next.acks == h.acks,
        next.commits == h.commits,
        next.spans == h.spans,
        next.inquiries == h.inquiries,
        next.confirms == h.confirms,
        next.terms.contains_key(node),
        term <= next.terms[node],
        !h.ballots.contains_key((node, term)),
        next.ballots == h.ballots.insert((node, term), next.ballots[(node, term)]),
        forall|who: NodeID, t: Term| #[trigger]
            next.campaigns.contains_key((who, t)) ==> h.campaigns.contains_key((who, t))
                || next.is_campaign(who, t),
        h.is_rooted(next.ballots[(node, term)].log),
        next.ballots[(node, term)].log == h.logs[node],
        next.campaigns.contains_key((next.ballots[(node, term)].candidate, term)),
        not_behind(
            next.campaigns[(next.ballots[(node, term)].candidate, term)],
            next.ballots[(node, term)].log,
        ),
        h.is_faithful(node, term, h.logs[node], term + 1),
        h.may_elect(node, term) ==> h.is_faithful(node, term, h.logs[node], term as int),
    ensures
        next.wf(),
{
    lemma_old_parts(h, next, node);
    lemma_old_inquiries(h, next, node);
    assert forall|t: Term| #[trigger] next.reigns.contains_key(t) implies next.is_reign(t) by {
        assert(h.reigns.contains_key(t));
        lemma_reign(h, t);
    }
    assert forall|who: NodeID, t: Term| #[trigger] next.ballots.contains_key((who, t)) implies
        next.is_ballot(who, t) by {
        if (who, t) == (node, term) {
            let ballot = next.ballots[(who, t)];
            lemma_still_rooted(h, next, node, ballot.log);
            lemma_faithful_stays(h, next, node, node, term, ballot.log, term + 1);
            if next.may_elect(who, t) {
                lemma_faithful_stays(h, next, node, node, term, ballot.log, term as int);
            }
        } else {
            assert(h.ballots.contains_key((who, t)));
            lemma_ballot_stays(h, next, node, who, t);
        }
    }
    assert forall|who: NodeID, t: Term| #[trigger] next.campaigns.contains_key((who, t)) implies
        next.is_campaign(who, t) by {
    }
    assert forall|who: NodeID, t: Term| #[trigger] next.acks.contains_key((who, t)) implies
        next.is_ack(who, t) by {
        assert(h.acks.contains_key((who, t)));
    }
    assert forall|t: Term, m: nat| #[trigger] next.commits.contains((t, m)) implies next.is_commit(
        t,
        m,
    ) by {
        assert(h.commits.contains((t, m)));
    }
    assert(next.wf()) by {
        reveal(History::wf);
    }
}

pub proof fn lemma_campaigning(h: History, node: NodeID, term: Term)
    requires
        h.wf(),
        !h.ballots.contains_key((node, term)),
        !h.campaigns.contains_key((node, term)),
        h.terms.contains_key(node) ==> h.terms[node] <= term,
        h.is_rooted(h.logs[node]),
        forall|k: int| 0 <= k < h.logs[node].len() ==> (#[trigger] h.logs[node][k]).term < term,
        h.is_faithful(node, term, h.logs[node], term + 1),
        h.may_elect(node, term) ==> h.is_faithful(node, term, h.logs[node], term as int),
    ensures
        h.campaigning(node, term).wf(),
        goes_on(h, h.campaigning(node, term), node),
{
    reveal(goes_on);
    reveal(History::wf);
    let next = h.campaigning(node, term);
    assert(goes_on(h, next, node));
    lemma_still_rooted(h, next, node, h.logs[node]);
    lemma_parts_with_ballot(h, next, node, term);
}

pub proof fn lemma_winning(
    h: History,
    node: NodeID,
    term: Term,
    config: MembershipView,
    electors: Set<NodeID>,
    entry: EntryView,
)
    requires
        h.wf(),
        !h.reigns.contains_key(term),
        config.quorum(electors),
        h.is_fair(h.logs[node], term as int, config),
        forall|who: NodeID| #[trigger]
            electors.contains(who) ==> h.ballots.contains_key((who, term)) && h.ballots[(
                who,
                term,
            )].candidate == node,
        h.campaigns.contains_key((node, term)),
        h.campaigns[(node, term)] == h.logs[node],
        forall|t: Term| #[trigger] h.ballots.contains_key((node, t)) ==> t <= term,
        entry.index == h.logs[node].len() + 1,
        entry.term == term,
        entry.membership is None,
        forall|k: int|
            0 <= k < h.logs[node].len() ==> (#[trigger] h.logs[node][k]).index == k + 1,
    ensures
        h.winning(node, term, config, electors, entry).wf(),
        goes_on(h, h.winning(node, term, config, electors, entry), node),
        h.winning(node, term, config, electors, entry).is_rooted(h.logs[node].push(entry)),
{
    let next = h.winning(node, term, config, electors, entry);
    let old_log = h.logs[node];
    let log = old_log.push(entry);
    assert(!h.acks.contains_key((node, term))) by {
        if h.acks.contains_key((node, term)) {
            lemma_ack(h, node, term);
        }
    }
    assert(goes_on(h, next, node)) by {
        reveal(goes_on);
    }
    assert forall|t: Term| #[trigger] h.reigns.contains_key(t) implies next.acks[(
        h.reigns[t].leader,
        t,
    )] == h.acks[(h.reigns[t].leader, t)] by {
    }
    lemma_old_parts(h, next, node);
    lemma_old_inquiries(h, next, node);
    lemma_old_ballots(h, next, node, term);
    lemma_campaign(h, node, term);
    lemma_still_rooted(h, next, node, old_log);
    assert(next.is_rooted(log)) by {
        assert forall|k: int| 0 <= k < log.len() implies next.reigns.contains_key(
            (#[trigger] log[k]).term,
        ) && share(log, next.log_of(log[k].term), k + 1) by {
            if k < old_log.len() {
                assert(log[k] == old_log[k]);
                assert(share(old_log, next.log_of(old_log[k].term), k + 1));
                assert(log.take(k + 1) =~= old_log.take(k + 1));
            }
        }
    }
    lemma_fair_stays(h, next, node, old_log, term as int, term as int, config);
    assert(next.is_reign(term)) by {
        assert(log.take(old_log.len() as int) =~= old_log);
        assert forall|k: int| 0 <= k < log.len() implies {
            &&& (#[trigger] log[k]).index == k + 1
            &&& k < old_log.len() ==> log[k].term < term
            &&& k >= old_log.len() ==> log[k].term == term && next.is_regular(term, k)
        } by {
            if k < old_log.len() {
                assert(log[k] == old_log[k]);
            }
        }
    }
    assert forall|t: Term| #[trigger] next.reigns.contains_key(t) implies next.is_reign(t) by {
        if t != term {
            assert(h.reigns.contains_key(t));
            lemma_reign(h, t);
        }
    }
    assert forall|who: NodeID, t: Term| #[trigger] next.acks.contains_key((who, t)) implies
        next.is_ack(who, t) by {
        if (who, t) != (node, term) {
            assert(h.acks.contains_key((who, t)));
        }
    }
    assert forall|who: NodeID, t: Term| #[trigger] next.campaigns.contains_key((who, t)) implies
        next.is_campaign(who, t) by {
        assert(h.campaigns.contains_key((who, t)));
    }
    assert forall|who: NodeID, t: Term| #[trigger] next.ballots.contains_key((who, t)) implies
        next.is_ballot(who, t) by {
        assert(h.ballots.contains_key((who, t)));
    }
    assert forall|t: Term, m: nat| #[trigger] next.commits.contains((t, m)) implies next.is_commit(
        t,
        m,
    ) by {
        assert(h.commits.contains((t, m)));
    }
    assert(next.wf()) by {
        reveal(History::wf);
    }
}

pub proof fn lemma_leading(h: History, node: NodeID, term: Term, entry: EntryView)
    requires
        h.wf(),
        h.reigns.contains_key(term),
        h.reigns[term].leader == node,
        h.log_of(term) == h.logs[node],
        forall|t: Term| #[trigger] h.ballots.contains_key((node, t)) ==> t <= term,
        entry.index == h.logs[node].len() + 1,
        entry.term == term,
        entry.membership matches Some(change) ==> {
            let log = h.logs[node];
            &&& can_follow_config(h.config_at(log), change)
            &&& last_change(log) >= 0 ==> h.is_settled(
                log,
                last_change(log),
                term,
                log.len() as int,
            )
        },
    ensures
        h.leading(node, term, entry).wf(),
        goes_on(h, h.leading(node, term, entry), node),
        h.leading(node, term, entry).is_rooted(h.logs[node].push(entry)),
{
    let next = h.leading(node, term, entry);
    let old_log = h.logs[node];
    let log = old_log.push(entry);
    lemma_reign(h, term);
    assert(log.take(old_log.len() as int) =~= old_log.take(old_log.len() as int));
    assert(goes_on(h, next, node)) by {
        reveal(goes_on);
    }
    lemma_old_parts(h, next, node);
    lemma_old_inquiries(h, next, node);
    lemma_old_ballots(h, next, node, term);
    lemma_still_rooted(h, next, node, old_log);
    assert(next.is_rooted(log)) by {
        assert forall|k: int| 0 <= k < log.len() implies next.reigns.contains_key(
            (#[trigger] log[k]).term,
        ) && share(log, next.log_of(log[k].term), k + 1) by {
            if k < old_log.len() {
                assert(log[k] == old_log[k]);
                assert(share(old_log, next.log_of(old_log[k].term), k + 1));
                assert(log.take(k + 1) =~= old_log.take(k + 1));
            }
        }
    }
    assert(next.is_reign(term)) by {
        let reign = h.reigns[term];
        assert(log.take(reign.start as int) =~= old_log.take(reign.start as int));
        lemma_fair_stays(
            h,
            next,
            node,
            old_log.take(reign.start as int),
            term as int,
            term as int,
            reign.config,
        );
        assert forall|k: int| 0 <= k < log.len() implies {
            &&& (#[trigger] log[k]).index == k + 1
            &&& k < reign.start ==> log[k].term < term
            &&& k >= reign.start ==> log[k].term == term && next.is_regular(term, k)
        } by {
            if k < old_log.len() {
                assert(log[k] == old_log[k]);
                if k >= reign.start {
                    lemma_regular_stays(h, next, node, term, k);
                }
            } else {
                assert(log.take(k) =~= old_log);
                let p = last_change(old_log);
                lemma_last_change(old_log);
                if entry.membership is Some && p >= 0 {
                    lemma_settled_stays(h, next, node, old_log, p, term, k);
                    let (t, n) = choose|t: Term, n: nat| #[trigger]
                        next.commits.contains((t, n)) && t <= term && p < n && share(
                            old_log,
                            next.log_of(t),
                            p + 1,
                        ) && (t < term || next.spans[(t, n)] <= k);
                    assert(log.take(p + 1) =~= old_log.take(p + 1));
                    assert(next.commits.contains((t, n)) && t <= term && p < n && share(
                        log,
                        next.log_of(t),
                        p + 1,
                    ) && (t < term || next.spans[(t, n)] <= k));
                }
            }
        }
        assert forall|who: NodeID| #[trigger] reign.electors.contains(who) implies
            next.ballots.contains_key((who, term)) && next.ballots[(who, term)].candidate
            == reign.leader by {
        }
    }
    assert forall|t: Term| #[trigger] next.reigns.contains_key(t) implies next.is_reign(t) by {
        if t != term {
            assert(h.reigns.contains_key(t));
            lemma_reign(h, t);
        }
    }
    assert forall|who: NodeID, t: Term| #[trigger] next.acks.contains_key((who, t)) implies
        next.is_ack(who, t) by {
        if (who, t) != (node, term) {
            assert(h.acks.contains_key((who, t)));
            lemma_ack(h, who, t);
        }
    }
    assert forall|who: NodeID, t: Term| #[trigger] next.campaigns.contains_key((who, t)) implies
        next.is_campaign(who, t) by {
        assert(h.campaigns.contains_key((who, t)));
    }
    assert forall|who: NodeID, t: Term| #[trigger] next.ballots.contains_key((who, t)) implies
        next.is_ballot(who, t) by {
        assert(h.ballots.contains_key((who, t)));
    }
    assert forall|t: Term, m: nat| #[trigger] next.commits.contains((t, m)) implies next.is_commit(
        t,
        m,
    ) by {
        assert(h.commits.contains((t, m)));
    }
    assert(next.wf()) by {
        reveal(History::wf);
    }
}

/// What a quorum has is a commit.
proof fn lemma_new_commit(h: History, term: Term, n: nat, quorum: Set<NodeID>)
    requires
        h.reigns.contains_key(term),
        h.reigns[term].start < n <= h.log_of(term).len(),
        h.config_in(term, h.log_of(term).len() as int).quorum(quorum),
        forall|who: NodeID| #[trigger] quorum.contains(who) ==> h.acked(who, term, n),
    ensures
        h.committing(term, n).is_commit(term, n),
{
    let next = h.committing(term, n);
    let whole = h.log_of(term);
    assert(whole.take(whole.len() as int) =~= whole);
    assert(next.backed(quorum, term, n)) by {
        assert forall|who: NodeID| #[trigger] quorum.contains(who) implies next.acked(
            who,
            term,
            n,
        ) by {
            assert(h.acked(who, term, n));
        }
    }
}

pub proof fn lemma_committing(
    h: History,
    node: NodeID,
    term: Term,
    n: nat,
    quorum: Set<NodeID>,
)
    requires
        h.wf(),
        h.reigns.contains_key(term),
        h.reigns[term].start < n <= h.log_of(term).len(),
        h.reigns[term].leader == node,
        !h.commits.contains((term, n)),
        h.config_in(term, h.log_of(term).len() as int).quorum(quorum),
        forall|who: NodeID| #[trigger] quorum.contains(who) ==> h.acked(who, term, n),
    ensures
        h.committing(term, n).wf(),
        goes_on(h, h.committing(term, n), node),
        h.committing(term, n).is_decided(h.log_of(term).take(n as int), term),
{
    let next = h.committing(term, n);
    assert(goes_on(h, next, node)) by {
        reveal(goes_on);
    }
    lemma_old_parts(h, next, node);
    lemma_old_inquiries(h, next, node);
    lemma_old_ballots(h, next, node, u64::MAX);
    lemma_new_commit(h, term, n, quorum);
    assert forall|t: Term| #[trigger] next.reigns.contains_key(t) implies next.is_reign(t) by {
        assert(h.reigns.contains_key(t));
        lemma_reign(h, t);
    }
    assert forall|who: NodeID, t: Term| #[trigger] next.acks.contains_key((who, t)) implies
        next.is_ack(who, t) by {
        assert(h.acks.contains_key((who, t)));
    }
    assert forall|t: Term, m: nat| #[trigger] next.commits.contains((t, m)) implies next.is_commit(
        t,
        m,
    ) by {
        if (t, m) != (term, n) {
            assert(h.commits.contains((t, m)));
        }
    }
    assert forall|who: NodeID, t: Term| #[trigger] next.ballots.contains_key((who, t)) implies
        next.is_ballot(who, t) by {
        assert(h.ballots.contains_key((who, t)));
    }
    assert forall|who: NodeID, t: Term| #[trigger] next.campaigns.contains_key((who, t)) implies
        next.is_campaign(who, t) by {
        assert(h.campaigns.contains_key((who, t)));
    }
    assert(next.wf()) by {
        reveal(History::wf);
    }
    let log = h.log_of(term).take(n as int);
    lemma_share_all(log, next.log_of(term), n as int);
    assert(next.commits.contains((term, n)));
}

pub proof fn lemma_adopting(h: History, node: NodeID, term: Term)
    requires
        h.wf(),
        h.terms.contains_key(node) ==> h.terms[node] <= term,
    ensures
        h.adopting(node, term).wf(),
        goes_on(h, h.adopting(node, term), node),
{
    reveal(goes_on);
    reveal(History::wf);
    let next = h.adopting(node, term);
    assert(goes_on(h, next, node));
    lemma_only_reads_change(h, next, node);
    lemma_old_inquiries(h, next, node);
}

/// What stays true when only terms and reads change.
proof fn lemma_only_reads_change(h: History, next: History, node: NodeID)
    requires
        h.wf(),
        goes_on(h, next, node),
        next.logs == h.logs,
        next.reigns == h.reigns,
        next.campaigns == h.campaigns,
        next.ballots == h.ballots,
        next.acks == h.acks,
        next.commits == h.commits,
        next.spans == h.spans,
    ensures
        forall|term: Term| #[trigger] next.reigns.contains_key(term) ==> next.is_reign(term),
        forall|who: NodeID, term: Term| #[trigger]
            next.campaigns.contains_key((who, term)) ==> next.is_campaign(who, term),
        forall|who: NodeID, term: Term| #[trigger]
            next.ballots.contains_key((who, term)) ==> next.is_ballot(who, term),
        forall|who: NodeID, term: Term| #[trigger]
            next.acks.contains_key((who, term)) ==> next.is_ack(who, term),
        forall|term: Term, n: nat| #[trigger]
            next.commits.contains((term, n)) ==> next.is_commit(term, n),
{
    reveal(goes_on);
    reveal(History::wf);
    lemma_old_parts(h, next, node);
    lemma_old_ballots(h, next, node, u64::MAX);
    assert forall|t: Term| #[trigger] next.reigns.contains_key(t) implies next.is_reign(t) by {
        assert(h.reigns.contains_key(t));
        assert(h.is_reign(t));
    }
    assert forall|who: NodeID, t: Term| #[trigger] next.acks.contains_key((who, t)) implies
        next.is_ack(who, t) by {
        assert(h.acks.contains_key((who, t)));
    }
}

pub proof fn lemma_confirming(h: History, node: NodeID, term: Term, seq: ReadSequence)
    requires
        h.wf(),
        h.terms.contains_key(node),
        h.terms[node] <= term,
        seq > 0 ==> h.inquiries.contains_key((term, seq)),
    ensures
        h.confirming(node, term, seq).wf(),
        goes_on(h, h.confirming(node, term, seq), node),
        h.confirming(node, term, seq).confirmed(node, term, seq),
{
    reveal(goes_on);
    reveal(History::wf);
    let next = h.confirming(node, term, seq);
    assert(goes_on(h, next, node));
    lemma_only_reads_change(h, next, node);
    assert forall|t: Term, s: ReadSequence| #[trigger]
        next.inquiries.contains_key((t, s)) implies next.is_inquiry(t, s) by {
        lemma_inquiry_stays(h, next, node, t, s);
    }
    assert forall|who: NodeID, t: Term| #[trigger] next.confirms.contains_key((who, t)) implies
        next.is_confirm(who, t) by {
        if h.confirms.contains_key((who, t)) {
            assert(h.is_confirm(who, t));
        }
        if (who, t) == (node, term) {
            assert forall|s: ReadSequence| #[trigger] h.inquiries.contains_key((t, s)) implies
                !h.inquiries[(t, s)].ahead.contains(who) by {
                assert(h.is_inquiry(t, s));
            }
        }
    }
}

pub proof fn lemma_asking(h: History, node: NodeID, term: Term, seq: ReadSequence, inquiry: Inquiry)
    requires
        h.wf(),
        h.reigns.contains_key(term),
        h.reigns[term].leader == node,
        seq > 0,
        forall|s: ReadSequence| #[trigger] h.inquiries.contains_key((term, s)) ==> s < seq,
        seq > 1 ==> h.inquiries.contains_key((term, (seq - 1) as u64)),
        inquiry.known == h.commits,
        inquiry.rivals == h.rivals(term),
        inquiry.ahead == h.ahead(term),
    ensures
        h.asking(term, seq, inquiry).wf(),
        goes_on(h, h.asking(term, seq, inquiry), node),
{
    reveal(goes_on);
    reveal(History::wf);
    let next = h.asking(term, seq, inquiry);
    assert(!h.inquiries.contains_key((term, seq)));
    assert(goes_on(h, next, node));
    lemma_only_reads_change(h, next, node);
    assert forall|t: Term, s: ReadSequence| #[trigger]
        next.inquiries.contains_key((t, s)) implies next.is_inquiry(t, s) by {
        if (t, s) != (term, seq) {
            assert(h.inquiries.contains_key((t, s)));
            lemma_inquiry_stays(h, next, node, t, s);
        } else {
            assert forall|earlier: ReadSequence| 0 < earlier <= seq implies
                #[trigger] next.inquiries.contains_key((term, earlier)) by {
                if earlier < seq {
                    assert(h.is_inquiry(term, (seq - 1) as u64));
                    assert(h.inquiries.contains_key((term, earlier)));
                }
            }
            assert forall|u: Term, n: nat| #[trigger] inquiry.known.contains((u, n)) implies (u
                > term ==> inquiry.rivals.contains(u)) by {
                assert(h.is_commit(u, n));
            }
            assert forall|u: Term| #[trigger] inquiry.rivals.contains(u) implies next.is_rival(
                term,
                seq,
                u,
            ) by {
                assert(h.is_reign(u));
                let reign = h.reigns[u];
                assert forall|who: NodeID| #[trigger] reign.electors.contains(who) implies
                    inquiry.ahead.contains(who) by {
                    assert(h.ballots.contains_key((who, u)));
                    assert(h.is_ballot(who, u));
                }
                assert forall|k: int|
                    0 <= k < reign.start && (#[trigger] reign.log[k]).term > term implies
                    inquiry.rivals.contains(reign.log[k].term) by {
                    assert(h.reigns.contains_key(reign.log[k].term));
                }
                let log = reign.log.take(reign.start as int);
                if reign.config != h.config_at(log) && last_change(log) >= 0 {
                    let (t, n) = choose|t: Term, n: nat| #[trigger]
                        h.covers(log, last_change(log), t, n) && t < u;
                    assert(h.is_commit(t, n));
                    assert(next.covers(log, last_change(log), t, n));
                }
            }
        }
    }
    assert forall|who: NodeID, t: Term| #[trigger] next.confirms.contains_key((who, t)) implies
        next.is_confirm(who, t) by {
        assert(h.is_confirm(who, t));
        let last = h.confirms[(who, t)];
        if t == term && last >= seq {
            assert(h.inquiries.contains_key((term, last)));
        }
    }
}

pub proof fn lemma_answering(
    h: History,
    node: NodeID,
    term: Term,
    seq: ReadSequence,
    answer: EnvelopeView,
)
    requires
        h.wf(),
        h.reigns.contains_key(term),
        h.reigns[term].leader == node,
        h.inquiries.contains_key((term, seq)),
        h.inquiries[(term, seq)].answer is None,
    ensures
        h.answering(term, seq, answer).wf(),
        goes_on(h, h.answering(term, seq, answer), node),
{
    reveal(goes_on);
    reveal(History::wf);
    let next = h.answering(term, seq, answer);
    assert(goes_on(h, next, node));
    lemma_only_reads_change(h, next, node);
    assert forall|t: Term, s: ReadSequence| #[trigger]
        next.inquiries.contains_key((t, s)) implies next.is_inquiry(t, s) by {
        assert(h.inquiries.contains_key((t, s)));
        lemma_inquiry_stays(h, next, node, t, s);
    }
    assert forall|who: NodeID, t: Term| #[trigger] next.confirms.contains_key((who, t)) implies
        next.is_confirm(who, t) by {
        assert(h.is_confirm(who, t));
    }
}

/// What a node does in two steps.
pub proof fn lemma_goes_on_twice(a: History, b: History, c: History, node: NodeID)
    requires
        a.wf(),
        goes_on(a, b, node),
        goes_on(b, c, node),
    ensures
        goes_on(a, c, node),
{
    reveal(goes_on);
    reveal(History::wf);
    assert forall|term: Term| #[trigger] a.reigns.contains_key(term) implies {
        &&& c.reigns.contains_key(term)
        &&& c.reigns[term].leader == a.reigns[term].leader
        &&& c.reigns[term].electors == a.reigns[term].electors
        &&& c.reigns[term].start == a.reigns[term].start
        &&& share(c.log_of(term), a.log_of(term), a.log_of(term).len() as int)
        &&& a.reigns[term].leader != node ==> c.log_of(term) == a.log_of(term)
    } by {
        assert(b.reigns.contains_key(term));
        lemma_share_less(
            c.log_of(term),
            b.log_of(term),
            b.log_of(term).len() as int,
            a.log_of(term).len() as int,
        );
    }
    assert forall|term: Term| #[trigger]
        c.reigns.contains_key(term) && !a.reigns.contains_key(term) implies c.reigns[term].leader
        == node by {
        if b.reigns.contains_key(term) {
            assert(b.reigns[term].leader == node);
        }
    }
    assert forall|who: NodeID, term: Term| #[trigger]
        c.campaigns.contains_key((who, term)) && who != node implies a.campaigns.contains_key(
        (who, term),
    ) by {
        assert(b.campaigns.contains_key((who, term)));
    }
    assert forall|who: NodeID, term: Term| #[trigger]
        c.ballots.contains_key((who, term)) && who != node implies a.ballots.contains_key(
        (who, term),
    ) by {
        assert(b.ballots.contains_key((who, term)));
    }
    assert forall|who: NodeID, term: Term| #[trigger]
        c.acks.contains_key((who, term)) && who != node implies a.acks.contains_key((who, term))
        && c.acks[(who, term)] == a.acks[(who, term)] by {
        assert(b.acks.contains_key((who, term)));
    }
    assert forall|who: NodeID, term: Term| #[trigger] a.acks.contains_key((who, term)) implies
        c.acks.contains_key((who, term)) && c.acks[(who, term)] >= a.acks[(who, term)] by {
        assert(b.acks.contains_key((who, term)));
    }
    assert forall|term: Term, n: nat| #[trigger]
        c.commits.contains((term, n)) && !a.commits.contains((term, n)) implies
        c.reigns.contains_key(term) && c.reigns[term].leader == node by {
        if b.commits.contains((term, n)) {
            assert(b.reigns.contains_key(term));
        }
    }
    assert forall|term: Term, seq: ReadSequence| #[trigger]
        c.inquiries.contains_key((term, seq)) && !a.inquiries.contains_key((term, seq)) implies {
        &&& c.reigns.contains_key(term)
        &&& c.reigns[term].leader == node
        &&& a.commits.subset_of(c.inquiries[(term, seq)].known)
    } by {
        if b.inquiries.contains_key((term, seq)) {
            assert(b.reigns.contains_key(term));
        } else {
            assert forall|commit: (Term, nat)| #[trigger] a.commits.contains(commit) implies
                c.inquiries[(term, seq)].known.contains(commit) by {
                assert(a.commits.contains((commit.0, commit.1)));
                assert(b.commits.contains(commit));
            }
        }
    }
    assert forall|term: Term, seq: ReadSequence| #[trigger]
        a.inquiries.contains_key((term, seq)) implies {
        &&& c.inquiries.contains_key((term, seq))
        &&& is_same_inquiry(a.inquiries[(term, seq)], c.inquiries[(term, seq)])
        &&& a.reigns[term].leader != node ==> c.inquiries[(term, seq)] == a.inquiries[(term, seq)]
    } by {
        assert(b.inquiries.contains_key((term, seq)));
        assert(a.is_inquiry(term, seq));
        assert(a.reigns.contains_key(term));
    }
    assert forall|who: NodeID| #[trigger] a.terms.contains_key(who) implies
        c.terms.contains_key(who) && c.terms[who] >= a.terms[who] && (who != node ==> c.terms[who]
        == a.terms[who]) by {
        assert(b.terms.contains_key(who));
    }
    assert forall|who: NodeID, term: Term| #[trigger]
        a.confirms.contains_key((who, term)) implies c.confirms.contains_key((who, term))
        && c.confirms[(who, term)] >= a.confirms[(who, term)] by {
        assert(b.confirms.contains_key((who, term)));
    }
    assert forall|other: NodeID| other != node implies (#[trigger] c.logs[other]) == a.logs[other]
        && c.logs.contains_key(other) == a.logs.contains_key(other) by {
        assert(b.logs[other] == a.logs[other]);
    }
}

} // verus!
