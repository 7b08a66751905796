//! What a follower does fits the history of its cluster.

use vstd::prelude::*;

use super::entry::{EntryView, Index, Term};
use super::history::{
    final_term, last_change, leaders_are_complete, lemma_ack, lemma_change, lemma_commit,
    lemma_decided_in_reign, lemma_fair_more, lemma_last_change, lemma_last_change_at, lemma_reign,
    lemma_rooted_part, lemma_share_all, lemma_share_at, lemma_share_less, not_behind,
    rooted_logs_match, share, History,
};
use super::history_steps::{
    goes_on, lemma_confirming, lemma_following, lemma_goes_on, lemma_goes_on_same,
    lemma_goes_on_twice, lemma_still_decided, lemma_still_kept, lemma_still_rooted,
    lemma_suits_stays, lemma_voting,
};
use super::ids::NodeID;
use super::log::{latest_change, LogView};
use super::log_laws::{lemma_agreeing, splice_keeps_committed};
use super::membership::{MembershipStateView, MembershipView};
use super::message::{EnvelopeView, MessageView, ReadSequence};
use super::model::{
    appended_membership, follower_append, follower_campaign, follower_heartbeat, follower_snapshot,
    grants_vote, installs, is_last_change, Core,
};
use super::state::State;
use super::world::{
    core_fits, deeds_fit, is_rest_of, lemma_applying_fits, lemma_log_still_fits,
    lemma_message_still_fits, lemma_messages_still_fit, lemma_rest_at, lemma_rest_last, log_fits,
    message_fits, messages_fit,
};

verus! {

/// The latest change of a log is its last one.
pub proof fn lemma_latest_change(log: Seq<EntryView>)
    ensures
        match latest_change(log) {
            Some((index, change)) => {
                &&& last_change(log) >= 0
                &&& log[last_change(log)].index == index
                &&& log[last_change(log)].membership == Some(change)
            },
            None => last_change(log) == -1,
        },
    decreases log.len(),
{
    if log.len() > 0 && log.last().membership is None {
        lemma_latest_change(log.drop_last());
        lemma_last_change(log.drop_last());
    }
}

/// The last change of two parts of a log.
pub proof fn lemma_latest_of_more(a: Seq<EntryView>, b: Seq<EntryView>)
    ensures
        latest_change(a + b) == if latest_change(b) is Some {
            latest_change(b)
        } else {
            latest_change(a)
        },
    decreases b.len(),
{
    if b.len() == 0 {
        assert(a + b =~= a);
    } else {
        assert((a + b).drop_last() =~= a + b.drop_last());
        lemma_latest_of_more(a, b.drop_last());
    }
}

/// Whatever is appended, a change that is not committed is known of.
proof fn lemma_spliced_changes(
    log: LogView,
    entries: Seq<EntryView>,
    membership: MembershipStateView,
)
    requires
        membership.change_pending || is_last_change(log, log.commit_index),
        log.spliceable(entries),
    ensures
        appended_membership(membership, log, entries).change_pending || is_last_change(
            log.splicing(entries),
            log.commit_index,
        ),
{
    if latest_change(entries) is None && entries.len() > 0 && entries[0].index > log.last_index() {
        assert(log.agreeing(entries) == 0);
        assert(log.splicing(entries).entries =~= log.entries + entries);
        lemma_latest_of_more(log.entries, entries);
    }
}

/// The configuration of a log with more entries at its end.
pub proof fn lemma_config_of_more(h: History, log: Seq<EntryView>, more: Seq<EntryView>)
    ensures
        h.config_at(log + more) == match latest_change(more) {
            Some((_, change)) => change,
            None => h.config_at(log),
        },
        last_change(log + more) == if last_change(more) >= 0 {
            log.len() + last_change(more)
        } else {
            last_change(log)
        },
{
    let all = log + more;
    lemma_latest_change(more);
    lemma_last_change(more);
    lemma_last_change(log);
    let j = last_change(more);
    let place = if j >= 0 {
        log.len() + j
    } else {
        last_change(log)
    };
    assert forall|k: int| place < k < all.len() implies (#[trigger] all[k]).membership is None by {
        if k < log.len() {
            assert(all[k] == log[k]);
        } else {
            assert(all[k] == more[k - log.len()]);
        }
    }
    if j >= 0 {
        assert(all[place] == more[j]);
    } else if place >= 0 {
        assert(all[place] == log[place]);
    }
    lemma_last_change_at(all, place);
}

/// The first entry that does not count as agreeing is not one of the log.
proof fn lemma_agreeing_stops(log: LogView, entries: Seq<EntryView>)
    ensures
        ({
            let n = log.agreeing(entries) as int;
            n < entries.len() ==> !(log.holds(entries[n].index as int) && log.at(
                entries[n].index as int,
            ).term == entries[n].term)
        }),
    decreases entries.len(),
{
    if log.agreeing(entries) > 0 {
        let rest = entries.skip(1);
        lemma_agreeing_stops(log, rest);
        let n = log.agreeing(entries) as int;
        if n < entries.len() {
            assert(rest[n - 1] == entries[n]);
        }
    }
}

/// A log that was cut where it differs from the leader's, and went on like it, still
/// has what was acknowledged, or the leader's differs.
proof fn lemma_spliced_kept(
    h: History,
    before: Seq<EntryView>,
    term: Term,
    k: int,
    end: int,
    t: Term,
    n: nat,
)
    requires
        h.wf(),
        h.reigns.contains_key(t),
        h.reigns.contains_key(term),
        t <= term,
        n <= h.log_of(t).len(),
        h.kept(before, t, n as int, term + 1),
        0 <= k <= end <= h.log_of(term).len(),
        share(before, h.log_of(term), k),
        before.len() <= k || (k < end && before[k].term != h.log_of(term)[k].term),
    ensures
        h.kept(h.log_of(term).take(end), t, n as int, term + 1),
{
    let leader = h.log_of(term);
    let after = leader.take(end);
    if share(before, h.log_of(t), n as int) {
        if n <= k {
            lemma_share_less(before, leader, k, n as int);
            assert(after.take(n as int) =~= leader.take(n as int));
        } else {
            lemma_share_at(before, h.log_of(t), n as int, k);
            assert(leader[k] != h.log_of(t)[k]);
            assert(h.conflict(t, term, n as int));
        }
    }
}

/// A log that was replaced by a part of the leader's likewise, if the part is no shorter
/// or the two differ before the part is over.
proof fn lemma_replaced_kept(
    h: History,
    before: Seq<EntryView>,
    term: Term,
    end: int,
    t: Term,
    n: nat,
)
    requires
        h.wf(),
        h.reigns.contains_key(t),
        h.reigns.contains_key(term),
        t <= term,
        n <= h.log_of(t).len(),
        h.kept(before, t, n as int, term + 1),
        0 <= end <= h.log_of(term).len(),
        before.len() <= end || differ(before, h.log_of(term), end),
    ensures
        h.kept(h.log_of(term).take(end), t, n as int, term + 1),
{
    let leader = h.log_of(term);
    let after = leader.take(end);
    if share(before, h.log_of(t), n as int) {
        if n > end {
            let c = choose|c: int|
                0 <= c <= end && c < before.len() && c < leader.len() && #[trigger] before[c]
                    != leader[c];
            lemma_share_at(before, h.log_of(t), n as int, c);
            assert(h.conflict(t, term, n as int));
        } else if forall|k: int| 0 <= k < n ==> #[trigger] leader[k] == h.log_of(t)[k] {
            lemma_share_all(leader, h.log_of(t), n as int);
            assert(after.take(n as int) =~= leader.take(n as int));
        } else {
            let k = choose|k: int| 0 <= k < n && #[trigger] leader[k] != h.log_of(t)[k];
            assert(h.conflict(t, term, n as int));
        }
    }
}

/// Whether two logs differ in one of the first entries, or the one after them.
pub open spec fn differ(a: Seq<EntryView>, b: Seq<EntryView>, n: int) -> bool {
    exists|c: int| 0 <= c <= n && c < a.len() && c < b.len() && #[trigger] a[c] != b[c]
}

/// A node fits when its log became one that the history knows, with the first `n`
/// entries of its term's leader.
proof fn lemma_followed_fits(
    h: History,
    node: NodeID,
    before: LogView,
    after: LogView,
    whole: Seq<EntryView>,
    n: nat,
)
    requires
        h.wf(),
        log_fits(h, node, before),
        deeds_fit(h, node, before),
        after.term == before.term,
        after.vote == before.vote,
        h.reigns.contains_key(before.term),
        h.reigns[before.term].leader != node,
        n <= h.log_of(before.term).len(),
        is_rest_of(after, whole),
        h.is_rooted(whole),
        forall|k: int| 0 <= k < whole.len() ==> (#[trigger] whole[k]).term <= after.term,
        h.is_decided(whole.take(after.commit_index as int), after.term),
        after.commit_term == final_term(whole.take(after.commit_index as int)),
        share(whole, h.log_of(before.term), n as int),
        forall|t: Term, m: nat|
            h.acked(node, t, m) ==> #[trigger] h.kept(whole, t, m as int, after.term + 1),
    ensures
        ({
            let next = h.following(node, whole, before.term, n);
            &&& next.wf()
            &&& goes_on(h, next, node)
            &&& next.acked(node, before.term, n)
            &&& log_fits(next, node, after)
            &&& deeds_fit(next, node, after)
        }),
{
    let term = before.term;
    let next = h.following(node, whole, term, n);
    lemma_following(h, node, whole, term, n);
    lemma_still_rooted(h, next, node, whole);
    lemma_still_decided(h, next, node, whole.take(after.commit_index as int), term, term);
    assert forall|t: Term, m: nat| next.acked(node, t, m) implies #[trigger] next.kept(
        whole,
        t,
        m as int,
        term + 1,
    ) by {
        if h.acked(node, t, m) {
            lemma_ack(h, node, t);
            assert(h.kept(whole, t, m as int, term + 1));
            lemma_still_kept(h, next, node, whole, t, m as int, term + 1, term + 1);
        } else {
            assert(t == term && m <= n);
            lemma_share_less(whole, h.log_of(term), n as int, m as int);
        }
    }
}

/// Where entries of the leader's are spliced in that the log does not have, the
/// log becomes the leader's up to their end.
proof fn lemma_spliced_rest(
    log: LogView,
    whole: Seq<EntryView>,
    leader: Seq<EntryView>,
    base: int,
    entries: Seq<EntryView>,
)
    requires
        is_rest_of(log, whole),
        0 <= base,
        base + entries.len() <= leader.len(),
        base + entries.len() < u64::MAX,
        forall|k: int|
            0 <= k < entries.len() ==> #[trigger] entries[k] == leader[base + k]
                && entries[k].index == base + k + 1,
        log.spliceable(entries),
        log.agreeing(entries) < entries.len(),
        share(whole, leader, base + log.agreeing(entries)),
    ensures
        ({
            let end = base + entries.len();
            let cut = base + log.agreeing(entries);
            &&& is_rest_of(log.splicing(entries), leader.take(end))
            &&& leader.take(end).take(log.commit_index as int) == whole.take(
                log.commit_index as int,
            )
            &&& whole.len() > cut ==> whole[cut].term != leader[cut].term
        }),
{
    let n = log.agreeing(entries) as int;
    let end = base + entries.len();
    let result = leader.take(end);
    let spliced = log.splicing(entries);
    let first = log.first_index as int;
    assert(entries[n].index == base + n + 1);
    assert(entries[0].index == base + 1);
    assert(first - 1 <= base);
    let cut = base + n + 1 - first;
    assert forall|k: int| 0 <= k < spliced.entries.len() implies spliced.entries[k] == result.skip(
        first - 1,
    )[k] by {
        if k < cut {
            assert(spliced.entries[k] == log.entries[k]);
            assert(log.entries[k] == whole[k + first - 1]);
            lemma_share_at(whole, leader, base + n, k + first - 1);
        } else {
            assert(spliced.entries[k] == entries[n + k - cut]);
        }
    }
    assert(spliced.entries =~= result.skip(first - 1));
    lemma_share_less(whole, leader, base + n, first - 1);
    assert(result.take(first - 1) =~= leader.take(first - 1));
    splice_keeps_committed(log, entries);
    lemma_share_less(whole, leader, base + n, log.commit_index as int);
    assert(result.take(log.commit_index as int) =~= leader.take(log.commit_index as int));
    if whole.len() > base + n {
        lemma_rest_at(log, whole, base + n + 1);
        lemma_agreeing_stops(log, entries);
    }
}

/// A log into which entries of its term's leader were spliced.
proof fn lemma_splicing_fits(
    h: History,
    node: NodeID,
    log: LogView,
    base: int,
    entries: Seq<EntryView>,
)
    requires
        h.wf(),
        log_fits(h, node, log),
        deeds_fit(h, node, log),
        h.reigns.contains_key(log.term),
        h.reigns[log.term].leader != node,
        0 <= base,
        base + entries.len() <= h.log_of(log.term).len(),
        entries == h.log_of(log.term).subrange(base, base + entries.len()),
        share(h.logs[node], h.log_of(log.term), base),
        log.spliceable(entries),
    ensures
        ({
            let end = base + entries.len();
            let whole = spliced_whole(h, node, log, base, entries);
            let next = h.following(node, whole, log.term, end as nat);
            &&& next.wf()
            &&& goes_on(h, next, node)
            &&& next.acked(node, log.term, end as nat)
            &&& log_fits(next, node, log.splicing(entries))
            &&& deeds_fit(next, node, log.splicing(entries))
        }),
{
    let term = log.term;
    let whole = h.logs[node];
    let leader = h.log_of(term);
    let end = base + entries.len();
    lemma_reign(h, term);
    assert forall|k: int| 0 <= k < entries.len() implies #[trigger] entries[k] == leader[base + k]
        && entries[k].index == base + k + 1 by {
        assert(leader[base + k].index == base + k + 1);
    }
    lemma_agreeing(log, entries);
    let n = log.agreeing(entries) as int;
    assert(share(whole, leader, base + n)) by {
        if n > 0 {
            let last = base + n - 1;
            assert(log.holds(entries[n - 1].index as int));
            lemma_rest_at(log, whole, last + 1);
            assert(leader[last] == entries[n - 1]);
            rooted_logs_match(h, whole, leader, last);
        }
    }
    let result = if n == entries.len() {
        whole
    } else {
        leader.take(end)
    };
    if n < entries.len() {
        assert(entries[entries.len() - 1].index == end);
        lemma_rooted_part(h, leader, end);
        lemma_spliced_rest(log, whole, leader, base, entries);
        assert forall|t: Term, m: nat| h.acked(node, t, m) implies #[trigger] h.kept(
            result,
            t,
            m as int,
            term + 1,
        ) by {
            lemma_ack(h, node, t);
            assert(h.kept(whole, t, m as int, term + 1));
            lemma_spliced_kept(h, whole, term, base + n, end, t, m);
        }
        assert(result.take(end) =~= leader.take(end));
    }
    assert(share(result, leader, end));
    lemma_followed_fits(h, node, log, log.splicing(entries), result, end as nat);
}

/// What was committed, the leader of a term that is not earlier has.
proof fn lemma_leader_covers(
    h: History,
    log: Seq<EntryView>,
    p: int,
    t: Term,
    m: nat,
    term: Term,
)
    requires
        h.wf(),
        h.covers(log, p, t, m),
        p >= 0,
        t <= term,
        h.reigns.contains_key(term),
    ensures
        share(log, h.log_of(term), p + 1),
        share(h.log_of(t), h.log_of(term), m as int),
{
    lemma_commit(h, t, m);
    if t < term {
        leaders_are_complete(h, t, m, term);
        lemma_share_less(h.log_of(term), h.log_of(t), m as int, p + 1);
    }
}

/// A change that a log does not reach, its leader's log has.
proof fn lemma_outruns_leader(
    h: History,
    log: Seq<EntryView>,
    config: MembershipView,
    term: Term,
    end: int,
)
    requires
        h.wf(),
        h.is_behind(log, term + 1, config),
        h.reigns.contains_key(term),
        0 <= end <= h.log_of(term).len(),
        forall|k: int|
            log.len() <= k < end ==> (#[trigger] h.log_of(term)[k]).membership is None,
    ensures
        h.is_behind(h.log_of(term).take(end), term + 1, config),
{
    let (t, n, q, quorum, voters) = choose|
        t: Term,
        n: nat,
        q: int,
        quorum: Set<NodeID>,
        voters: Set<NodeID>,
    | #[trigger]
        h.outruns(log, config, t, n, q, quorum, voters) && t < term + 1;
    lemma_commit(h, t, n);
    let other = h.log_of(t);
    assert(share(other, other, q + 1));
    assert(h.covers(other, q, t, n));
    lemma_leader_covers(h, other, q, t, n, term);
    lemma_share_at(other, h.log_of(term), q + 1, q);
    assert(end <= q);
    assert(h.outruns(h.log_of(term).take(end), config, t, n, q, quorum, voters));
}

/// The configuration that a log came to have, when it lost what the leader does not
/// have and has no change left but compacted ones.
proof fn lemma_cut_fair(
    h: History,
    whole: Seq<EntryView>,
    term: Term,
    start: int,
    cut: int,
    end: int,
    config: MembershipView,
)
    requires
        h.wf(),
        h.is_rooted(whole),
        h.reigns.contains_key(term),
        h.is_fair(whole, term + 1, config),
        forall|k: int| 0 <= k < whole.len() ==> (#[trigger] whole[k]).term <= term,
        0 <= start <= cut < end <= h.log_of(term).len(),
        share(whole, h.log_of(term), cut),
        whole.len() > cut ==> whole[cut].term != h.log_of(term)[cut].term,
        forall|k: int|
            start <= k < end ==> (#[trigger] h.log_of(term)[k]).membership is None,
    ensures
        h.is_fair(h.log_of(term).take(end), term + 1, config),
{
    let leader = h.log_of(term);
    let result = leader.take(end);
    let i = last_change(whole);
    lemma_last_change(whole);
    // A change that was committed is among the compacted ones.
    assert forall|p: int, t: Term, m: nat|
        p >= 0 && p < whole.len() && whole[p].membership is Some && #[trigger] h.covers(
            whole,
            p,
            t,
            m,
        ) && t <= term implies p < start by {
        lemma_leader_covers(h, whole, p, t, m, term);
        if p >= start {
            if p >= cut {
                lemma_share_at(whole, leader, p + 1, cut);
            }
            lemma_share_at(whole, leader, p + 1, p);
            assert(leader[p].membership is None);
        }
    }
    let lost = config == h.config_at(whole) && i >= start;
    let p = if lost {
        lemma_change(h, whole, i);
        lemma_last_change(whole.take(i));
        let p = last_change(whole.take(i));
        if p >= 0 {
            assert(whole.take(i)[p] == whole[p]);
            let (t, m) = choose|t: Term, m: nat| #[trigger]
                h.commits.contains((t, m)) && t <= whole[i].term && p < m && share(
                    whole,
                    h.log_of(t),
                    p + 1,
                ) && (t < whole[i].term || h.spans[(t, m)] <= i);
            assert(h.covers(whole, p, t, m));
        }
        p
    } else {
        if i >= 0 && config != h.config_at(whole) {
            let (t, m) = choose|t: Term, m: nat| #[trigger]
                h.covers(whole, i, t, m) && t < term + 1;
            assert(i < start);
        }
        i
    };
    assert(p < start);
    assert forall|k: int| p < k < result.len() implies (#[trigger] result[k]).membership is None by {
        if k < start {
            lemma_share_at(whole, leader, cut, k);
            if lost {
                assert(whole.take(i)[k] == whole[k]);
            }
        } else {
            assert(result[k] == leader[k]);
        }
    }
    if p >= 0 {
        lemma_share_at(whole, leader, cut, p);
        assert(result[p] == whole[p]);
    }
    lemma_last_change_at(result, p);
    assert(result.take(p + 1) =~= leader.take(p + 1));
    if lost {
        if p >= 0 {
            assert(whole.take(i)[p] == whole[p]);
            let (t, m) = choose|t: Term, m: nat| #[trigger]
                h.commits.contains((t, m)) && t <= whole[i].term && p < m && share(
                    whole,
                    h.log_of(t),
                    p + 1,
                ) && (t < whole[i].term || h.spans[(t, m)] <= i);
            lemma_share_less(whole, leader, cut, p + 1);
            assert(h.covers(result, p, t, m));
        }
    } else if config != h.config_at(whole) && p >= 0 {
        let (t, m) = choose|t: Term, m: nat| #[trigger] h.covers(whole, p, t, m) && t < term + 1;
        lemma_share_less(whole, leader, cut, p + 1);
        assert(h.covers(result, p, t, m));
    }
}

/// The configuration that a node takes when entries of its term's leader were spliced
/// into its log is one that it can have.
proof fn lemma_spliced_suits(
    h: History,
    node: NodeID,
    log: LogView,
    base: int,
    entries: Seq<EntryView>,
    membership: MembershipStateView,
)
    requires
        h.wf(),
        log_fits(h, node, log),
        h.suits(h.logs[node], log.term + 1, membership.active),
        h.reigns.contains_key(log.term),
        0 <= base,
        base + entries.len() <= h.log_of(log.term).len(),
        entries == h.log_of(log.term).subrange(base, base + entries.len()),
        share(h.logs[node], h.log_of(log.term), base),
        log.spliceable(entries),
        is_rest_of(log.splicing(entries), spliced_whole(h, node, log, base, entries)),
    ensures
        h.suits(
            spliced_whole(h, node, log, base, entries),
            log.term + 1,
            appended_membership(membership, log, entries).active,
        ),
{
    reveal(History::suits);
    let whole = h.logs[node];
    let term = log.term;
    let leader = h.log_of(term);
    let end = base + entries.len();
    let n = log.agreeing(entries) as int;
    let config = membership.active;
    let result = spliced_whole(h, node, log, base, entries);
    let spliced = log.splicing(entries);
    let start = log.first_index - 1;
    lemma_agreed_part(h, node, log, base, entries);
    lemma_latest_change(entries);
    lemma_last_change(entries);
    let grows = latest_change(entries) is None && (entries.len() == 0 || entries[0].index
        > log.last_index());
    if grows {
        if n < entries.len() {
            assert(base == whole.len());
            assert forall|k: int| whole.len() <= k < end implies (
            #[trigger] leader[k]).membership is None by {
                assert(entries[k - base] == leader[k]);
            }
            if h.is_fair(whole, term + 1, config) {
                assert(result.take(base) =~= leader.take(base));
                lemma_fair_more(h, whole, result, term + 1, config);
            } else {
                lemma_outruns_leader(h, whole, config, term, end);
            }
        }
    } else {
        assert(result.take(start) + spliced.entries =~= result);
        lemma_config_of_more(h, result.take(start), spliced.entries);
        if spliced.latest_membership() is None && n < entries.len() {
            lemma_latest_change(spliced.entries);
            lemma_last_change(spliced.entries);
            let cut = base + n;
            assert forall|k: int| start <= k < end implies (
            #[trigger] leader[k]).membership is None by {
                assert(spliced.entries[k - start] == result[k]);
                assert(result[k] == leader[k]);
            }
            if h.is_fair(whole, term + 1, config) {
                if whole.len() > cut {
                    lemma_rest_at(log, whole, cut + 1);
                    lemma_agreeing_stops(log, entries);
                    assert(entries[n] == leader[cut]);
                }
                lemma_cut_fair(h, whole, term, start, cut, end, config);
            } else {
                lemma_outruns_leader(h, whole, config, term, end);
            }
        }
    }
}

/// The whole log of a node into whose log entries of its term's leader were spliced.
pub open spec fn spliced_whole(
    h: History,
    node: NodeID,
    log: LogView,
    base: int,
    entries: Seq<EntryView>,
) -> Seq<EntryView> {
    if log.agreeing(entries) == entries.len() {
        h.logs[node]
    } else {
        h.log_of(log.term).take(base + entries.len())
    }
}

/// What counts as agreeing is the leader's.
proof fn lemma_agreed_part(
    h: History,
    node: NodeID,
    log: LogView,
    base: int,
    entries: Seq<EntryView>,
)
    requires
        h.wf(),
        log_fits(h, node, log),
        h.reigns.contains_key(log.term),
        0 <= base,
        base + entries.len() <= h.log_of(log.term).len(),
        entries == h.log_of(log.term).subrange(base, base + entries.len()),
        share(h.logs[node], h.log_of(log.term), base),
        log.spliceable(entries),
    ensures
        log.agreeing(entries) <= entries.len(),
        share(h.logs[node], h.log_of(log.term), base + log.agreeing(entries)),
        forall|k: int| 0 <= k < entries.len() ==> (#[trigger] entries[k]).index == base + k + 1,
        entries.len() > 0 ==> log.first_index - 1 <= base,
{
    let whole = h.logs[node];
    let leader = h.log_of(log.term);
    lemma_reign(h, log.term);
    lemma_agreeing(log, entries);
    let n = log.agreeing(entries) as int;
    assert forall|k: int| 0 <= k < entries.len() implies (#[trigger] entries[k]).index == base + k
        + 1 by {
        assert(entries[k] == leader[base + k]);
    }
    if n > 0 {
        let last = base + n - 1;
        assert(log.holds(entries[n - 1].index as int));
        lemma_rest_at(log, whole, last + 1);
        assert(leader[last] == entries[n - 1]);
        rooted_logs_match(h, whole, leader, last);
    }
}

/// A node whose log changed, and that sent a message.
proof fn lemma_changed_fits<S: State>(
    h: History,
    core: Core<S>,
    log: LogView,
    to: NodeID,
    message: MessageView,
)
    requires
        log_fits(h, core.id, log),
        deeds_fit(h, core.id, log),
        h.suits(h.logs[core.id], log.term + 1, core.membership.active),
        core.membership.change_pending || is_last_change(log, log.commit_index),
        messages_fit(h, core.out),
        message_fits(h, EnvelopeView { from: core.id, term: log.term, to, message }),
    ensures
        core_fits(h, Core { log, ..core }.sending(to, message)),
        messages_fit(h, Core { log, ..core }.sending(to, message).out),
{
}

/// A follower that takes an append of its leader.
#[verifier::rlimit(40)]
#[verifier::spinoff_prover]
pub proof fn lemma_append_fits<S: State>(
    h: History,
    core: Core<S>,
    msg: EnvelopeView,
    base_index: Index,
    base_term: Term,
    entries: Seq<EntryView>,
) -> (next: History)
    requires
        h.wf(),
        core_fits(h, core),
        messages_fit(h, core.out),
        message_fits(h, msg),
        msg.message == (MessageView::Append { base_index, base_term, entries }),
        msg.term == core.term(),
        msg.to == core.id,
        base_index == 0 || core.log.has(base_index as int, base_term) ==> core.log.spliceable(
            entries,
        ),
    ensures
        next.wf(),
        goes_on(h, next, core.id),
        next.inquiries == h.inquiries,
        next.reigns == h.reigns,
        ({
            let after = follower_append(core, msg, base_index, base_term, entries);
            &&& core_fits(next, after)
            &&& messages_fit(next, after.out)
            &&& after.id == core.id
        }),
{
    let term = core.term();
    let node = core.id;
    let log = core.log;
    let whole = h.logs[node];
    let leader = h.log_of(term);
    lemma_reign(h, term);
    if base_index == 0 || log.has(base_index as int, base_term) {
        let base = base_index as int;
        let end = base + entries.len();
        assert(share(whole, leader, base)) by {
            if base > 0 {
                lemma_rest_at(log, whole, base);
                rooted_logs_match(h, whole, leader, base - 1);
            } else {
                assert(whole.take(0) =~= leader.take(0));
            }
        }
        lemma_splicing_fits(h, node, log, base, entries);
        if entries.len() > 0 {
            assert(entries.last() == leader[end - 1]);
            assert(leader[end - 1].index == end);
        }
        let result = spliced_whole(h, node, log, base, entries);
        let next = h.following(node, result, term, end as nat);
        lemma_messages_still_fit(h, next, node, core.out);
        lemma_goes_on(h, next, node);
        let membership = appended_membership(core.membership, log, entries);
        lemma_spliced_suits(h, node, log, base, entries, core.membership);
        lemma_spliced_changes(log, entries, core.membership);
        lemma_suits_stays(h, next, node, result, term + 1, term + 1, membership.active);
        let changed = Core { membership, ..core };
        lemma_changed_fits(
            next,
            changed,
            log.splicing(entries),
            msg.from,
            MessageView::AppendResponse { match_index: end as u64, reject_index: 0 },
        );
        assert(follower_append(core, msg, base_index, base_term, entries) == (Core {
            log: log.splicing(entries),
            ..changed
        }).sending(
            msg.from,
            MessageView::AppendResponse { match_index: end as u64, reject_index: 0 },
        ));
        next
    } else {
        lemma_goes_on_same(h, node);
        h
    }
}

/// A node that confirms a read to the leader of its term.
pub proof fn lemma_confirmed_fits<S: State>(h: History, core: Core<S>, seq: ReadSequence) -> (next:
    History)
    requires
        h.wf(),
        core_fits(h, core),
        messages_fit(h, core.out),
        seq > 0 ==> h.inquiries.contains_key((core.term(), seq)),
    ensures
        next.wf(),
        goes_on(h, next, core.id),
        next.inquiries == h.inquiries,
        next.reigns == h.reigns,
        next.confirmed(core.id, core.term(), seq),
        core_fits(next, core),
        messages_fit(next, core.out),
{
    let next = h.confirming(core.id, core.term(), seq);
    lemma_confirming(h, core.id, core.term(), seq);
    lemma_deeds_still(h, next, core.id, core.log);
    lemma_suits_stays(
        h,
        next,
        core.id,
        h.logs[core.id],
        core.term() + 1,
        core.term() + 1,
        core.membership.active,
    );
    lemma_messages_still_fit(h, next, core.id, core.out);
    next
}

/// A follower that takes a heartbeat of its leader.
pub proof fn lemma_heartbeat_fits<S: State>(
    h: History,
    core: Core<S>,
    msg: EnvelopeView,
    last_index: Index,
    commit_index: Index,
    read_seq: ReadSequence,
) -> (next: History)
    requires
        h.wf(),
        core_fits(h, core),
        messages_fit(h, core.out),
        message_fits(h, msg),
        msg.message == (MessageView::Heartbeat { last_index, commit_index, read_seq }),
        msg.term == core.term(),
        msg.to == core.id,
        commit_index <= last_index,
    ensures
        next.wf(),
        goes_on(h, next, core.id),
        next.inquiries == h.inquiries,
        next.reigns == h.reigns,
        ({
            let after = follower_heartbeat(core, msg, last_index, commit_index, read_seq);
            &&& core_fits(next, after)
            &&& messages_fit(next, after.out)
            &&& after.id == core.id
        }),
{
    let term = core.term();
    let node = core.id;
    let log = core.log;
    let confirmed = lemma_confirmed_fits(h, core, read_seq);
    lemma_message_still_fits(h, confirmed, node, msg);
    let whole = confirmed.logs[node];
    let leader = confirmed.log_of(term);
    if log.has(last_index as int, term) {
        let last = last_index as int;
        lemma_rest_at(log, whole, last);
        assert(confirmed.is_rooted(whole));
        assert(whole[last - 1].term == term);
        assert(share(whole, leader, last));
        let commits = commit_index > log.commit_index;
        let moved = if commits {
            log.committing(commit_index)
        } else {
            log
        };
        if commits {
            lemma_share_less(whole, leader, last, commit_index as int);
            lemma_rest_at(log, whole, commit_index as int);
            assert(whole.take(commit_index as int).last() == whole[commit_index - 1]);
        }
        lemma_followed_fits(confirmed, node, log, moved, whole, last as nat);
        let next = confirmed.following(node, whole, term, last as nat);
        lemma_suits_stays(
            confirmed,
            next,
            node,
            whole,
            term + 1,
            term + 1,
            core.membership.active,
        );
        lemma_messages_still_fit(confirmed, next, node, core.out);
        let answered = core.sending(
            msg.from,
            MessageView::HeartbeatResponse { match_index: last_index, read_seq },
        );
        if commits {
            lemma_applying_fits(next, Core { log: moved, ..answered });
        }
        lemma_goes_on_twice(h, confirmed, next, node);
        next
    } else {
        confirmed
    }
}

/// A follower that takes a snapshot of its leader, and loses no entry of the leader's by
/// it.
pub proof fn lemma_snapshot_fits<S: State>(
    h: History,
    core: Core<S>,
    msg: EnvelopeView,
    index: Index,
    index_term: Term,
    data: Seq<u8>,
    change: MembershipView,
) -> (next: History)
    requires
        h.wf(),
        core_fits(h, core),
        messages_fit(h, core.out),
        message_fits(h, msg),
        msg.message == (MessageView::InstallSnapshot {
            last_included_index: index,
            last_included_term: index_term,
            data,
            membership: change,
        }),
        msg.term == core.term(),
        msg.to == core.id,
        index < u64::MAX,
        installs(core, index) ==> core.log.last_index() <= index || differ(
            h.logs[core.id],
            h.log_of(msg.term),
            index as int,
        ),
        !installs(core, index) ==> index <= core.log.commit_index,
    ensures
        next.wf(),
        goes_on(h, next, core.id),
        next.inquiries == h.inquiries,
        next.reigns == h.reigns,
        match follower_snapshot(core, msg, index, index_term, data, change) {
            Ok(after) => {
                &&& core_fits(next, after)
                &&& messages_fit(next, after.out)
                &&& after.id == core.id
            },
            Err(_) => true,
        },
{
    let term = core.term();
    let node = core.id;
    let log = core.log;
    let whole = h.logs[node];
    let leader = h.log_of(term);
    let end = index as int;
    lemma_reign(h, term);
    if installs(core, index) {
        let result = leader.take(end);
        let reset = LogView { snapshot: Some(data), ..log }.resetting(index, index_term);
        lemma_rooted_part(h, leader, end);
        assert(reset.entries =~= result.skip(end));
        assert(result.take(end) =~= result);
        assert(result.last() == leader[end - 1]);
        assert forall|t: Term, m: nat| h.acked(node, t, m) implies #[trigger] h.kept(
            result,
            t,
            m as int,
            term + 1,
        ) by {
            lemma_ack(h, node, t);
            assert(h.kept(whole, t, m as int, term + 1));
            lemma_replaced_kept(h, whole, term, end, t, m);
        }
        assert(share(result, leader, end));
        lemma_followed_fits(h, node, log, reset, result, end as nat);
        let next = h.following(node, result, term, end as nat);
        lemma_suits_stays(h, next, node, result, term + 1, term + 1, change);
        lemma_messages_still_fit(h, next, node, core.out);
        next
    } else {
        // What the node has committed up to there is what its leader committed.
        let commit = log.commit_index as int;
        assert(end <= commit);
        let decided = whole.take(commit);
        lemma_decided_in_reign(h, decided, term);
        assert(decided.take(commit) =~= whole.take(commit));
        lemma_share_less(whole, leader, commit, end);
        lemma_followed_fits(h, node, log, log, whole, end as nat);
        let next = h.following(node, whole, term, end as nat);
        lemma_suits_stays(h, next, node, whole, term + 1, term + 1, core.membership.active);
        lemma_messages_still_fit(h, next, node, core.out);
        next
    }
}

/// A node's log and what it acknowledged still fit when the history goes on without
/// a change of them.
pub proof fn lemma_deeds_still(h: History, next: History, node: NodeID, log: LogView)
    requires
        h.wf(),
        goes_on(h, next, node),
        log_fits(h, node, log),
        deeds_fit(h, node, log),
        next.logs == h.logs,
        next.acks == h.acks,
    ensures
        log_fits(next, node, log),
        forall|t: Term, n: nat|
            next.acked(node, t, n) ==> #[trigger] next.kept(
                next.logs[node],
                t,
                n as int,
                log.term + 1,
            ),
{
    lemma_log_still_fits(h, next, node, node, log);
    assert forall|t: Term, n: nat| next.acked(node, t, n) implies #[trigger] next.kept(
        next.logs[node],
        t,
        n as int,
        log.term + 1,
    ) by {
        assert(h.acked(node, t, n));
        lemma_ack(h, node, t);
        assert(h.kept(h.logs[node], t, n as int, log.term + 1));
        lemma_still_kept(h, next, node, h.logs[node], t, n as int, log.term + 1, log.term + 1);
    }
}

/// What a node has is faithful to what it acknowledged, while its term has no leader.
pub proof fn lemma_is_faithful(h: History, node: NodeID, log: LogView)
    requires
        deeds_fit(h, node, log),
        !h.reigns.contains_key(log.term),
    ensures
        h.is_faithful(node, log.term, h.logs[node], log.term as int),
{
    let whole = h.logs[node];
    let term = log.term;
    assert forall|earlier: Term, n: nat|
        earlier < term && h.acked(node, earlier, n) implies #[trigger] h.kept(
        whole,
        earlier,
        n as int,
        term as int,
    ) by {
        assert(h.kept(whole, earlier, n as int, term + 1));
        if !share(whole, h.log_of(earlier), n as int) {
            let later = choose|later: Term|
                earlier < later < term + 1 && #[trigger] h.conflict(earlier, later, n as int);
            assert(later != term);
            assert(earlier < later < term && h.conflict(earlier, later, n as int));
        }
    }
}

/// A follower that is asked for its vote.
pub proof fn lemma_vote_fits<S: State>(
    h: History,
    core: Core<S>,
    msg: EnvelopeView,
    last_index: Index,
    last_term: Term,
) -> (next: History)
    requires
        h.wf(),
        core_fits(h, core),
        messages_fit(h, core.out),
        message_fits(h, msg),
        msg.message == (MessageView::Campaign { last_index, last_term }),
        msg.term == core.term(),
    ensures
        next.wf(),
        goes_on(h, next, core.id),
        next.inquiries == h.inquiries,
        next.reigns == h.reigns,
        ({
            let after = follower_campaign(core, msg, last_index, last_term);
            &&& core_fits(next, after)
            &&& messages_fit(next, after.out)
            &&& after.id == core.id
        }),
{
    let term = core.term();
    let node = core.id;
    let log = core.log;
    let whole = h.logs[node];
    if grants_vote(core, msg.from, last_index, last_term) {
        if log.vote is None {
            let next = h.voting(node, term, msg.from);
            lemma_rest_last(log, whole);
            assert(not_behind(h.campaigns[(msg.from, term)], whole));
            assert(h.is_faithful(node, term, whole, term + 1));
            assert(!h.ballots.contains_key((node, term)));
            if h.may_elect(node, term) {
                assert(!h.reigns.contains_key(term)) by {
                    if h.reigns.contains_key(term) {
                        lemma_reign(h, term);
                    }
                }
                lemma_is_faithful(h, node, log);
            }
            lemma_voting(h, node, term, msg.from);
            lemma_deeds_still(h, next, node, log);
            lemma_suits_stays(h, next, node, whole, term + 1, term + 1, core.membership.active);
            lemma_messages_still_fit(h, next, node, core.out);
            lemma_goes_on(h, next, node);
            next
        } else {
            assert(h.ballots.contains_key((node, term)));
            lemma_goes_on_same(h, node);
            h
        }
    } else {
        lemma_goes_on_same(h, node);
        h
    }
}

} // verus!
