//! Sets of node identifiers and their elements in ascending order.

use std::collections::{BTreeMap, BTreeSet, HashSet};

use vstd::prelude::*;

verus! {

broadcast use {vstd::std_specs::btree::group_btree_axioms, vstd::std_specs::hash::group_hash_axioms};

/// A node's identifier.
pub type NodeID = u8;

/// The elements of `ids` that are at least `low`, in ascending order.
pub open spec fn ascending_from(ids: Set<NodeID>, low: int) -> Seq<NodeID>
    decreases 256 - low,
{
    if low >= 256 {
        seq![]
    } else if low >= 0 && ids.contains(low as u8) {
        seq![low as u8] + ascending_from(ids, low + 1)
    } else {
        ascending_from(ids, low + 1)
    }
}

/// The elements of `ids` in ascending order.
pub open spec fn ascending(ids: Set<NodeID>) -> Seq<NodeID> {
    ascending_from(ids, 0)
}

pub open spec fn strictly_increasing(s: Seq<NodeID>) -> bool {
    forall|i: int, j: int| 0 <= i < j < s.len() ==> s[i] < s[j]
}

/// A strictly increasing sequence is determined by its elements.
pub proof fn lemma_ascending_unique(s: Seq<NodeID>, ids: Set<NodeID>, low: int)
    requires
        0 <= low <= 256,
        strictly_increasing(s),
        forall|i: int| 0 <= i < s.len() ==> #[trigger] s[i] >= low && ids.contains(s[i]),
        forall|x: u8| x >= low && #[trigger] ids.contains(x) ==> s.contains(x),
    ensures
        s == ascending_from(ids, low),
    decreases 256 - low,
{
    if low == 256 {
        assert(s.len() == 0) by {
            if s.len() > 0 {
                assert(s[0] >= low);
            }
        }
        assert(s =~= seq![]);
    } else if ids.contains(low as u8) {
        assert(s.contains(low as u8));
        let k = choose|k: int| 0 <= k < s.len() && s[k] == low as u8;
        assert(k == 0) by {
            if k > 0 {
                assert(s[0] < s[k]);
            }
        }
        let t = s.skip(1);
        assert forall|x: u8| x >= low + 1 && #[trigger] ids.contains(x) implies t.contains(x) by {
            assert(s.contains(x));
            let j = choose|j: int| 0 <= j < s.len() && s[j] == x;
            assert(t[j - 1] == x);
        }
        assert forall|i: int| 0 <= i < t.len() implies #[trigger] t[i] >= low + 1 && ids.contains(
            t[i],
        ) by {
            assert(s[0] < s[i + 1]);
        }
        lemma_ascending_unique(t, ids, low + 1);
        assert(s =~= seq![low as u8] + t);
    } else {
        assert forall|i: int| 0 <= i < s.len() implies #[trigger] s[i] >= low + 1 && ids.contains(
            s[i],
        ) by {
            assert(s[i] != low as u8);
        }
        lemma_ascending_unique(s, ids, low + 1);
    }
}

/// The ascending sequence holds exactly the set's elements, in order.
pub proof fn lemma_ascending(ids: Set<NodeID>)
    ensures
        strictly_increasing(ascending(ids)),
        ascending(ids).to_set() == ids,
        ascending(ids).len() <= 256,
        ascending(ids).no_duplicates(),
{
    lemma_ascending_from(ids, 0);
    assert forall|x: u8| #[trigger] ascending(ids).to_set().contains(x) == ids.contains(x) by {
        assert(ascending(ids).to_set().contains(x) == ascending(ids).contains(x));
    }
    assert(ascending(ids).to_set() =~= ids);
}

proof fn lemma_ascending_from(ids: Set<NodeID>, low: int)
    requires
        0 <= low <= 256,
    ensures
        strictly_increasing(ascending_from(ids, low)),
        ascending_from(ids, low).len() <= 256 - low,
        forall|x: u8| #[trigger]
            ascending_from(ids, low).contains(x) <==> ids.contains(x) && x >= low,
    decreases 256 - low,
{
    if low < 256 {
        lemma_ascending_from(ids, low + 1);
        let tail = ascending_from(ids, low + 1);
        if ids.contains(low as u8) {
            let all = ascending_from(ids, low);
            assert forall|i: int, j: int| 0 <= i < j < all.len() implies all[i] < all[j] by {
                assert(tail.contains(all[j])) by {
                    assert(tail[j - 1] == all[j]);
                }
            }
            assert forall|x: u8| #[trigger] all.contains(x) <==> ids.contains(x) && x >= low by {
                if ids.contains(x) && x >= low {
                    if x == low {
                        assert(all[0] == x);
                    } else {
                        assert(tail.contains(x));
                        let k = choose|k: int| 0 <= k < tail.len() && tail[k] == x;
                        assert(all[k + 1] == x);
                    }
                }
                if all.contains(x) {
                    let k = choose|k: int| 0 <= k < all.len() && all[k] == x;
                    if k > 0 {
                        assert(tail[k - 1] == x);
                        assert(tail.contains(x));
                    }
                }
            }
        }
    }
}

/// The elements of a set in ascending order.
pub fn ids_of(ids: &BTreeSet<NodeID>) -> (r: Vec<NodeID>)
    ensures
        r@ == ascending(ids@),
{
    let mut out: Vec<NodeID> = Vec::new();
    let mut low: u16 = 0;
    while low < 256
        invariant
            low <= 256,
            ascending(ids@) == out@ + ascending_from(ids@, low as int),
        decreases 256 - low,
    {
        if ids.contains(&(low as u8)) {
            let ghost before = out@;
            out.push(low as u8);
            assert(before + ascending_from(ids@, low as int) =~= out@ + ascending_from(
                ids@,
                low + 1,
            ));
        }
        low = low + 1;
    }
    assert(ascending(ids@) =~= out@);
    out
}

/// The keys of a map in ascending order.
pub fn keys_of<V>(map: &BTreeMap<NodeID, V>) -> (r: Vec<NodeID>)
    ensures
        r@ == ascending(map@.dom()),
{
    let mut out: Vec<NodeID> = Vec::new();
    let mut low: u16 = 0;
    while low < 256
        invariant
            low <= 256,
            ascending(map@.dom()) == out@ + ascending_from(map@.dom(), low as int),
        decreases 256 - low,
    {
        if map.contains_key(&(low as u8)) {
            let ghost before = out@;
            out.push(low as u8);
            assert(before + ascending_from(map@.dom(), low as int) =~= out@ + ascending_from(
                map@.dom(),
                low + 1,
            ));
        }
        low = low + 1;
    }
    assert(ascending(map@.dom()) =~= out@);
    out
}

/// The set of the listed identifiers.
pub fn set_of(list: &[NodeID]) -> (r: BTreeSet<NodeID>)
    ensures
        r@ == list@.to_set(),
{
    let mut out: BTreeSet<NodeID> = BTreeSet::new();
    let mut i: usize = 0;
    assert(list@.take(0).to_set() =~= Set::empty());
    while i < list.len()
        invariant
            i <= list@.len(),
            out@ == list@.take(i as int).to_set(),
        decreases list@.len() - i,
    {
        proof {
            lemma_take_to_set(list@, i as int);
        }
        out.insert(list[i]);
        i = i + 1;
    }
    assert(list@.take(i as int) =~= list@);
    out
}

/// One more element of a sequence is one more element of its set.
pub proof fn lemma_take_to_set<T>(s: Seq<T>, i: int)
    requires
        0 <= i < s.len(),
    ensures
        s.take(i + 1).to_set() == s.take(i).to_set().insert(s[i]),
{
    let more = s.take(i + 1);
    assert forall|x: T| #[trigger] more.to_set().contains(x) == s.take(i).to_set().insert(
        s[i],
    ).contains(x) by {
        if more.contains(x) {
            let k = choose|k: int| 0 <= k < more.len() && more[k] == x;
            if k < i {
                assert(s.take(i)[k] == x);
            }
        }
        if s.take(i).contains(x) {
            let k = choose|k: int| 0 <= k < i && s.take(i)[k] == x;
            assert(more[k] == x);
        }
        assert(more[i] == s[i]);
    }
    assert(more.to_set() =~= s.take(i).to_set().insert(s[i]));
}

/// The elements of an unordered set, as an ordered one.
pub fn ordered(ids: &HashSet<NodeID>) -> (r: BTreeSet<NodeID>)
    ensures
        r@ == ids@,
{
    let mut out: BTreeSet<NodeID> = BTreeSet::new();
    let mut low: u16 = 0;
    while low < 256
        invariant
            low <= 256,
            forall|x: u8| #[trigger] out@.contains(x) <==> ids@.contains(x) && x < low,
        decreases 256 - low,
    {
        if ids.contains(&(low as u8)) {
            out.insert(low as u8);
        }
        low = low + 1;
    }
    assert(out@ =~= ids@);
    out
}

/// The elements of an ordered set, as an unordered one.
pub fn unordered(ids: &BTreeSet<NodeID>) -> (r: HashSet<NodeID>)
    ensures
        r@ == ids@,
{
    let mut out: HashSet<NodeID> = HashSet::new();
    let mut low: u16 = 0;
    while low < 256
        invariant
            low <= 256,
            forall|x: u8| #[trigger] out@.contains(x) <==> ids@.contains(x) && x < low,
        decreases 256 - low,
    {
        if ids.contains(&(low as u8)) {
            out.insert(low as u8);
        }
        low = low + 1;
    }
    assert(out@ =~= ids@);
    out
}

/// Whether two sets hold the same elements.
pub fn same_ids(a: &BTreeSet<NodeID>, b: &BTreeSet<NodeID>) -> (r: bool)
    ensures
        r == (a@ == b@),
{
    let mut low: u16 = 0;
    while low < 256
        invariant
            low <= 256,
            forall|x: u8| x < low ==> #[trigger] a@.contains(x) == b@.contains(x),
        decreases 256 - low,
    {
        if a.contains(&(low as u8)) != b.contains(&(low as u8)) {
            return false;
        }
        low = low + 1;
    }
    assert(a@ =~= b@);
    true
}

} // verus!
