//! The order in which requests are aborted.

use std::collections::{BTreeMap, HashSet};

use vstd::prelude::*;
use vstd::std_specs::cmp::OrdSpec;
use vstd::std_specs::iter::IteratorSpec;

use itertools::Itertools;

use super::entry::Index;
use super::ids::NodeID;
use super::message::RequestID;
use super::model::{
    by_id, increasing_indexes, increasing_requests, indexes_in_order, requests_in_order,
    waiting_writes, Write,
};

verus! {

broadcast use {vstd::std_specs::btree::group_btree_axioms, vstd::std_specs::hash::group_hash_axioms};

/// `itertools::Itertools::sorted` on request identifiers: the same identifiers
/// in ascending order.
#[verifier::external_body]
fn sorted(requests: Vec<RequestID>) -> (r: Vec<RequestID>)
    ensures
        r@.to_multiset() == requests@.to_multiset(),
        forall|i: int, j: int| 0 <= i < j < r@.len() ==> r@[i] <= r@[j],
{
    requests.into_iter().sorted().collect()
}

/// `itertools::Itertools::sorted_by_key` by the request identifier: the same
/// requests in ascending order of their identifiers, where equal ones keep their
/// order.
#[verifier::external_body]
pub(crate) fn sorted_by_id(requests: Vec<(RequestID, NodeID)>) -> (r: Vec<(RequestID, NodeID)>)
    ensures
        r@ == by_id(requests@),
{
    requests.into_iter().sorted_by_key(|request| request.0).collect()
}

/// Every set of identifiers can be put in ascending order.
pub proof fn lemma_requests_in_order(requests: Set<RequestID>)
    ensures
        increasing_requests(requests_in_order(requests)),
        requests_in_order(requests).to_set() == requests,
{
    let some = lemma_ordered_below(requests, u128::MAX + 1);
    assert(increasing_requests(some) && some.to_set() == requests);
}

proof fn lemma_ordered_below(requests: Set<RequestID>, bound: int) -> (r: Seq<RequestID>)
    requires
        0 <= bound <= u128::MAX + 1,
        forall|id: RequestID| #[trigger] requests.contains(id) ==> id < bound,
    ensures
        increasing_requests(r),
        r.to_set() == requests,
        forall|k: int| 0 <= k < r.len() ==> #[trigger] r[k] < bound,
    decreases bound,
{
    if bound == 0 {
        assert(Seq::<RequestID>::empty().to_set() =~= requests);
        seq![]
    } else {
        let last = (bound - 1) as u128;
        if requests.contains(last) {
            let rest = lemma_ordered_below(requests.remove(last), bound - 1);
            let r = rest.push(last);
            assert forall|id: RequestID| #[trigger] r.to_set().contains(id) == requests.contains(
                id,
            ) by {
                if r.contains(id) {
                    let k = choose|k: int| 0 <= k < r.len() && r[k] == id;
                    if k < rest.len() {
                        assert(rest.to_set().contains(rest[k]));
                    }
                }
                if requests.contains(id) {
                    if id == last {
                        assert(r[rest.len() as int] == last);
                    } else {
                        assert(rest.to_set().contains(id));
                        let k = choose|k: int| 0 <= k < rest.len() && rest[k] == id;
                        assert(r[k] == id);
                    }
                }
            }
            assert(r.to_set() =~= requests);
            r
        } else {
            lemma_ordered_below(requests, bound - 1)
        }
    }
}

/// A strictly increasing sequence is determined by its elements.
pub proof fn lemma_requests_unique(a: Seq<RequestID>, b: Seq<RequestID>)
    requires
        increasing_requests(a),
        increasing_requests(b),
        a.to_set() == b.to_set(),
    ensures
        a == b,
    decreases a.len(),
{
    if a.len() == 0 || b.len() == 0 {
        if a.len() > 0 {
            assert(a.to_set().contains(a[0]));
            assert(b.contains(a[0]));
        }
        if b.len() > 0 {
            assert(b.to_set().contains(b[0]));
            assert(a.contains(b[0]));
        }
        assert(a =~= b);
    } else {
        let x = a.last();
        let y = b.last();
        assert(a.to_set().contains(x) && b.to_set().contains(y));
        assert(b.contains(x) && a.contains(y));
        assert(x == y);
        let c = a.drop_last();
        let d = b.drop_last();
        assert forall|z: RequestID| #[trigger] c.to_set().contains(z) == d.to_set().contains(z) by {
            if c.contains(z) {
                let i = choose|i: int| 0 <= i < c.len() && c[i] == z;
                assert(a[i] == z && z < x);
                assert(a.to_set().contains(z));
                assert(b.contains(z));
                let j = choose|j: int| 0 <= j < b.len() && b[j] == z;
                assert(d[j] == z);
            }
            if d.contains(z) {
                let i = choose|i: int| 0 <= i < d.len() && d[i] == z;
                assert(b[i] == z && z < y);
                assert(b.to_set().contains(z));
                assert(a.contains(z));
                let j = choose|j: int| 0 <= j < a.len() && a[j] == z;
                assert(c[j] == z);
            }
        }
        assert(c.to_set() =~= d.to_set());
        lemma_requests_unique(c, d);
        assert(a =~= c.push(x));
        assert(b =~= d.push(y));
    }
}

/// A strictly increasing sequence is determined by its elements.
proof fn lemma_indexes_unique(a: Seq<Index>, b: Seq<Index>)
    requires
        increasing_indexes(a),
        increasing_indexes(b),
        a.to_set() == b.to_set(),
    ensures
        a == b,
    decreases a.len(),
{
    if a.len() == 0 || b.len() == 0 {
        if a.len() > 0 {
            assert(a.to_set().contains(a[0]));
            assert(b.contains(a[0]));
        }
        if b.len() > 0 {
            assert(b.to_set().contains(b[0]));
            assert(a.contains(b[0]));
        }
        assert(a =~= b);
    } else {
        let x = a.last();
        let y = b.last();
        assert(a.to_set().contains(x) && b.to_set().contains(y));
        assert(b.contains(x) && a.contains(y));
        assert(x == y);
        let c = a.drop_last();
        let d = b.drop_last();
        assert forall|z: Index| #[trigger] c.to_set().contains(z) == d.to_set().contains(z) by {
            if c.contains(z) {
                let i = choose|i: int| 0 <= i < c.len() && c[i] == z;
                assert(a[i] == z && z < x);
                assert(a.to_set().contains(z));
                assert(b.contains(z));
                let j = choose|j: int| 0 <= j < b.len() && b[j] == z;
                assert(d[j] == z);
            }
            if d.contains(z) {
                let i = choose|i: int| 0 <= i < d.len() && d[i] == z;
                assert(b[i] == z && z < y);
                assert(b.to_set().contains(z));
                assert(a.contains(z));
                let j = choose|j: int| 0 <= j < a.len() && a[j] == z;
                assert(c[j] == z);
            }
        }
        assert(c.to_set() =~= d.to_set());
        lemma_indexes_unique(c, d);
        assert(a =~= c.push(x));
        assert(b =~= d.push(y));
    }
}

/// The elements of a set of requests in ascending order.
pub fn requests_of(requests: &HashSet<RequestID>) -> (r: Vec<RequestID>)
    ensures
        r@ == requests_in_order(requests@),
{
    let mut all: Vec<RequestID> = Vec::new();
    let ghost elements = requests.iter().remaining();
    for id in it: requests.iter()
        invariant
            it.seq() == elements,
            all@ == elements.unref().take(it.index()),
    {
        all.push(*id);
        assert(all@ =~= elements.unref().take(it.index() + 1));
    }
    assert(all@ =~= elements.unref());
    let r = sorted(all);
    proof {
        assert(all@.to_set() == requests@);
        assert forall|i: int, j: int| 0 <= i < j < all@.len() implies all@[i] != all@[j] by {
            assert(elements[i] != elements[j]);
        }
        lemma_sorted(all@, r@);
        let chosen = requests_in_order(requests@);
        assert(increasing_requests(r@) && r@.to_set() == requests@);
        lemma_requests_unique(r@, chosen);
    }
    r
}

/// Sorting distinct requests makes them strictly increasing.
proof fn lemma_sorted(all: Seq<RequestID>, sorted: Seq<RequestID>)
    requires
        all.no_duplicates(),
        sorted.to_multiset() == all.to_multiset(),
        forall|i: int, j: int| 0 <= i < j < sorted.len() ==> sorted[i] <= sorted[j],
    ensures
        increasing_requests(sorted),
        sorted.to_set() == all.to_set(),
{
    broadcast use vstd::seq_lib::group_to_multiset_ensures;

    all.lemma_multiset_has_no_duplicates();
    sorted.lemma_multiset_has_no_duplicates_conv();
    assert forall|x: RequestID| #[trigger] sorted.to_set().contains(x) == all.to_set().contains(
        x,
    ) by {
        assert(sorted.contains(x) == (sorted.to_multiset().count(x) > 0));
        assert(all.contains(x) == (all.to_multiset().count(x) > 0));
    }
    assert(sorted.to_set() =~= all.to_set());
    assert forall|i: int, j: int| 0 <= i < j < sorted.len() implies sorted[i] < sorted[j] by {
        assert(sorted[i] != sorted[j]);
    }
}

/// The requests that wait for an entry, in the order of the entries.
pub fn writes_of(writes: &BTreeMap<Index, Write>) -> (r: Vec<(RequestID, NodeID)>)
    ensures
        r@ == waiting_writes(writes@),
{
    let mut out: Vec<(RequestID, NodeID)> = Vec::new();
    let ghost pairs = writes.iter().remaining();
    let ghost keys = pairs.map_values(|kv: (&Index, &Write)| *kv.0);
    for pair in it: writes.iter()
        invariant
            it.seq() == pairs,
            out@.len() == it.index(),
            forall|k: int|
                0 <= k < out@.len() ==> #[trigger] out@[k] == (pairs[k].1.id, pairs[k].1.from),
    {
        let (_, write) = pair;
        out.push((write.id, write.from));
    }
    proof {
        assert forall|i: int, j: int| 0 <= i < j < keys.len() implies keys[i] < keys[j] by {
            assert(vstd::std_specs::btree::increasing_seq(keys));
            assert(keys[i].cmp_spec(&keys[j]) is Less);
        }
        assert forall|x: Index| #[trigger] keys.to_set().contains(x) == writes@.dom().contains(
            x,
        ) by {
            if keys.contains(x) {
                let k = choose|k: int| 0 <= k < keys.len() && keys[k] == x;
                assert(writes@.contains_key(*pairs[k].0));
            }
            if writes@.contains_key(x) {
                assert(pairs.contains((&x, &writes@[x])));
                let k = choose|k: int| 0 <= k < pairs.len() && pairs[k] == (&x, &writes@[x]);
                assert(keys[k] == x);
            }
        }
        assert(keys.to_set() =~= writes@.dom());
        let chosen = indexes_in_order(writes@.dom());
        assert(increasing_indexes(keys));
        lemma_indexes_unique(keys, chosen);
        assert forall|k: int| 0 <= k < out@.len() implies out@[k] == waiting_writes(
            writes@,
        )[k] by {
            assert(writes@.contains_key(*pairs[k].0));
            assert(writes@[keys[k]] == *pairs[k].1);
        }
        assert(out@ =~= waiting_writes(writes@));
    }
    out
}

} // verus!
