//! What holds of every log.

use vstd::prelude::*;

use super::entry::{EntryView, Index, Term};
use super::log::{Log, LogView};
use crate::error::Result;
use crate::storage::engine::Engine;

verus! {

/// The positions of a log are consistent: what every well-formed log has.
pub open spec fn is_consistent(log: LogView) -> bool {
    &&& log.first_index >= 1
    &&& log.first_index - 1 <= log.commit_index <= log.last_index()
    &&& forall|k: int|
        0 <= k < log.entries.len() ==> (#[trigger] log.entries[k]).index == log.first_index + k
}

/// The entries that count as agreeing are entries of the log.
pub proof fn lemma_agreeing(log: LogView, entries: Seq<EntryView>)
    ensures
        log.agreeing(entries) <= entries.len(),
        forall|k: int|
            0 <= k < log.agreeing(entries) ==> log.holds((#[trigger] entries[k]).index as int)
                && log.at(entries[k].index as int).term == entries[k].term,
    decreases entries.len(),
{
    if log.agreeing(entries) > 0 {
        let rest = entries.skip(1);
        lemma_agreeing(log, rest);
        assert forall|k: int| 0 <= k < log.agreeing(entries) implies log.holds(
            (#[trigger] entries[k]).index as int,
        ) && log.at(entries[k].index as int).term == entries[k].term by {
            if k > 0 {
                assert(rest[k - 1] == entries[k]);
            }
        }
    }
}

/// Committed entries never change: splicing keeps every one of them, and makes
/// none up, not even before the first. The commit index, the term and the vote stay.
pub proof fn splice_keeps_committed(log: LogView, entries: Seq<EntryView>)
    requires
        is_consistent(log),
        log.spliceable(entries),
    ensures
        is_consistent(log.splicing(entries)),
        forall|index: int|
            log.first_index <= index <= log.commit_index ==> #[trigger] log.splicing(entries).holds(
                index,
            ) && log.splicing(entries).at(index) == log.at(index),
        forall|k: int|
            0 <= k < log.splicing(entries).entries.len() && (#[trigger] log.splicing(
                entries,
            ).entries[k]).index <= log.commit_index ==> k < log.entries.len() && log.splicing(
                entries,
            ).entries[k] == log.entries[k],
        forall|index: int|
            index < log.first_index ==> !#[trigger] log.splicing(entries).holds(index),
        log.splicing(entries).commit_index == log.commit_index,
        log.splicing(entries).commit_term == log.commit_term,
        log.splicing(entries).term == log.term,
        log.splicing(entries).vote == log.vote,
{
    lemma_agreeing(log, entries);
    let n = log.agreeing(entries) as int;
    if n < entries.len() {
        let at = entries[n].index;
        assert(entries[n].index == entries[0].index + n);
        if n > 0 {
            assert(log.holds(entries[n - 1].index as int));
            assert(entries[n - 1].index == entries[0].index + (n - 1));
        }
        let new = log.splicing(entries);
        let kept = at - log.first_index;
        assert(0 <= kept <= log.entries.len());
        assert forall|k: int| 0 <= k < new.entries.len() implies (#[trigger] new.entries[k]).index
            == new.first_index + k by {
            if k >= kept {
                assert(new.entries[k] == entries[n + k - kept]);
                assert(entries[n + k - kept].index == entries[0].index + (n + k - kept));
            } else {
                assert(new.entries[k] == log.entries[k]);
            }
        }
    }
}

/// Compacting a log to an index gives up the entries up to there and nothing else:
/// the later ones, the last index and term, the commit index, the term and the vote
/// stay, and the snapshot stands at the index. Compacting it to no later an index changes
/// nothing more.
pub proof fn compacting_keeps_the_rest(log: LogView, index: Index, term: Term)
    requires
        is_consistent(log),
        log.first_index <= index <= log.commit_index,
        index < u64::MAX,
    ensures
        ({
            let after = log.compacting(index, term);
            &&& is_consistent(after)
            &&& after.first_index == index + 1
            &&& after.snapshot_meta() == (index, term)
            &&& (after.last_index(), after.last_term()) == (log.last_index(), log.last_term())
            &&& (after.commit_index, after.commit_term) == (log.commit_index, log.commit_term)
            &&& (after.term, after.vote) == (log.term, log.vote)
            &&& forall|k: int| k <= index ==> !#[trigger] after.holds(k)
            &&& forall|k: int| #![trigger after.holds(k)]
                k > index ==> after.holds(k) == log.holds(k) && (log.holds(k) ==> after.at(k)
                    == log.at(k))
            &&& forall|j: Index, other: Term|
                1 <= j <= index ==> #[trigger] after.compacting(j, other) == after
        }),
{
    let after = log.compacting(index, term);
    assert forall|k: int| 0 <= k < after.entries.len() implies (#[trigger] after.entries[k]).index
        == after.first_index + k by {
        assert(after.entries[k] == log.entries[k + (index + 1 - log.first_index)]);
    }
}

/// A log that is opened over the storage of another is the same log, and it can be
/// opened if storage does not fail. Only two things are not stored: whether writes
/// are flushed as they are made, and the last term of a log that was compacted whole
/// under another term.
pub proof fn logs_come_back<E: Engine>(log: Log<E>, engine: E, r: Result<Log<E>>)
    requires
        log.wf(),
        engine.contents() == log.contents(),
        call_ensures(Log::<E>::new, (engine,), r),
    ensures
        engine.reliable() ==> r is Ok,
        r matches Ok(again) ==> again.wf() && again@ == log@.reopened(),
        log@.reopened() == (LogView {
            fsync: true,
            kept_term: log@.reopened().kept_term,
            ..log@
        }),
        log@.entries.len() > 0 || log@.last_term() == log@.snapshot_meta().1
            ==> log@.reopened().last_term() == log@.last_term(),
{
    log.storage_represents();
}

/// A slice of a log has the entries with indexes from `low` to `high` that the log holds,
/// each of them once, in their order.
pub proof fn slices_have_what_is_between(log: LogView, low: int, high: int)
    requires
        is_consistent(log),
    ensures
        forall|index: int|
            log.holds(index) && low <= index <= high ==> log.slice(low, high).contains(
                #[trigger] log.at(index),
            ),
        forall|k: int|
            0 <= k < log.slice(low, high).len() ==> {
                let entry = #[trigger] log.slice(low, high)[k];
                &&& low <= entry.index <= high
                &&& log.holds(entry.index as int)
                &&& entry == log.at(entry.index as int)
                &&& entry.index == log.slice(low, high)[0].index + k
            },
{
    let slice = log.slice(low, high);
    let from = if low < log.first_index {
        0
    } else {
        low - log.first_index
    };
    assert forall|k: int| 0 <= k < slice.len() implies {
        let entry = #[trigger] slice[k];
        &&& low <= entry.index <= high
        &&& log.holds(entry.index as int)
        &&& entry == log.at(entry.index as int)
        &&& entry.index == slice[0].index + k
    } by {
        assert(slice[k] == log.entries[from + k]);
        assert(slice[0] == log.entries[from]);
    }
    assert forall|index: int| log.holds(index) && low <= index <= high implies slice.contains(
        #[trigger] log.at(index),
    ) by {
        assert(slice[index - log.first_index - from] == log.at(index));
    }
}

/// Two logs match: where both have an entry of the same term at the same index,
/// they have the same entries up to there.
pub open spec fn logs_match(a: LogView, b: LogView) -> bool {
    forall|i: int, j: int|
        a.holds(i) && b.holds(i) && (#[trigger] a.at(i)).term == b.at(i).term && j <= i && a.holds(j)
            && b.holds(j) ==> a.at(j) == #[trigger] b.at(j)
}

/// Replication keeps logs matching: a follower whose log matches the leader's, and
/// that has the entry before those that the leader sends, has the leader's entries
/// up to the last of them afterwards, and its log still matches.
pub proof fn appends_keep_logs_matching(leader: LogView, follower: LogView, low: int, high: int)
    requires
        is_consistent(leader),
        is_consistent(follower),
        logs_match(leader, follower),
        leader.first_index <= low <= high <= leader.last_index(),
        low == 1 || follower.has(low - 1, leader.term_at(low - 1)),
        follower.spliceable(leader.slice(low, high)),
    ensures
        ({
            let after = follower.splicing(leader.slice(low, high));
            &&& logs_match(leader, after)
            &&& after.last_index() >= high
            &&& forall|i: int|
                leader.holds(i) && after.holds(i) && i <= high ==> leader.at(i)
                    == #[trigger] after.at(i)
        }),
{
    let entries = leader.slice(low, high);
    let after = follower.splicing(entries);
    assert(entries.len() == high - low + 1);
    assert forall|k: int| 0 <= k < entries.len() implies #[trigger] entries[k] == leader.at(
        low + k,
    ) && entries[k].index == low + k by {
        assert(entries[k] == leader.entries[low - leader.first_index + k]);
    }
    lemma_agreeing(follower, entries);
    splice_keeps_committed(follower, entries);
    let n = follower.agreeing(entries) as int;
    // What the follower had before the entries, and what it had of them, was the
    // leader's.
    assert forall|i: int| leader.holds(i) && follower.holds(i) && i < low + n implies leader.at(i)
        == #[trigger] follower.at(i) by {
        if n > 0 {
            let last = low + n - 1;
            assert(follower.holds(entries[n - 1].index as int));
            assert(leader.at(last).term == follower.at(last).term);
        } else if leader.holds(low - 1) && follower.holds(low - 1) {
            assert(leader.at(low - 1).term == follower.at(low - 1).term);
        }
    }
    if n < entries.len() {
        let kept = low + n - follower.first_index;
        assert(entries[n].index == low + n);
        if n > 0 {
            assert(follower.holds(entries[n - 1].index as int));
        }
        assert(after.entries.len() == kept + entries.len() - n);
        assert forall|i: int| leader.holds(i) && after.holds(i) && i <= high implies leader.at(i)
            == #[trigger] after.at(i) by {
            if i < low + n {
                assert(after.at(i) == follower.at(i));
            } else {
                assert(after.at(i) == entries.skip(n)[i - low - n]);
            }
        }
        assert(after.last_index() == high);
    } else {
        assert(follower.holds(entries[n - 1].index as int));
    }
    assert forall|i: int, j: int|
        leader.holds(i) && after.holds(i) && (#[trigger] leader.at(i)).term == after.at(i).term && j
            <= i && leader.holds(j) && after.holds(j) implies leader.at(j)
        == #[trigger] after.at(j) by {
        if n == entries.len() && i > high {
            assert(after == follower);
            assert(follower.at(i) == after.at(i));
            assert(follower.at(j) == after.at(j));
        }
    }
}

} // verus!
