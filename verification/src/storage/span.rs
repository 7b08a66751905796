//! The part of a sorted map that lies in a range of keys.

use vstd::prelude::*;

use super::engine::{lists_keys, Bound, KeyRange};
use super::sorted::{is_before, Lexical, SortedMap};
use crate::encoding::bytes::{lex_irreflexive, lex_le, lex_lt, lex_total, lex_transitive};

verus! {

/// The number of keys that come before the start of a range.
fn first_in<K: Lexical, V>(map: &SortedMap<K, V>, start: &Bound) -> (r: usize)
    requires
        map.wf(),
    ensures
        r <= map.items@.len(),
        forall|i: int|
            0 <= i < map.items@.len() ==> (i >= r) == (match *start {
                Bound::Included(key) => lex_le(key@, #[trigger] map.key(i)),
                Bound::Excluded(key) => lex_lt(key@, map.key(i)),
                Bound::Unbounded => true,
            }),
{
    match start {
        Bound::Unbounded => 0,
        Bound::Included(key) => {
            let r = map.position(key.as_slice());
            assert forall|i: int| 0 <= i < map.items@.len() implies (i >= r) == lex_le(
                key@,
                #[trigger] map.key(i),
            ) by {
                lemma_not_before(key@, map.key(i));
            }
            r
        },
        Bound::Excluded(key) => {
            let p = map.position(key.as_slice());
            if p < map.len() && !is_before(
                key.as_slice(),
                map.items[p].0.lex_bytes(),
            ) {
                assert forall|i: int| 0 <= i < map.items@.len() implies (i >= p + 1)
                    == lex_lt(key@, #[trigger] map.key(i)) by {
                    lemma_not_before(key@, map.key(i));
                    lemma_not_before(key@, map.key(p as int));
                    if i > p {
                        assert(lex_lt(map.key(p as int), map.key(i)));
                    }
                }
                p + 1
            } else {
                assert forall|i: int| 0 <= i < map.items@.len() implies (i >= p)
                    == lex_lt(key@, #[trigger] map.key(i)) by {
                    lemma_not_before(key@, map.key(i));
                    if i > p {
                        assert(lex_lt(map.key(p as int), map.key(i)));
                        lex_transitive(key@, map.key(p as int), map.key(i));
                    }
                }
                p
            }
        },
    }
}

/// The number of keys that come before the end of a range.
fn end_of<K: Lexical, V>(map: &SortedMap<K, V>, end: &Bound) -> (r: usize)
    requires
        map.wf(),
    ensures
        r <= map.items@.len(),
        forall|i: int|
            0 <= i < map.items@.len() ==> (i < r) == (match *end {
                Bound::Included(key) => lex_le(#[trigger] map.key(i), key@),
                Bound::Excluded(key) => lex_lt(map.key(i), key@),
                Bound::Unbounded => true,
            }),
{
    match end {
        Bound::Unbounded => map.len(),
        Bound::Excluded(key) => map.position(key.as_slice()),
        Bound::Included(key) => {
            let p = map.position(key.as_slice());
            if p < map.len() && !is_before(
                key.as_slice(),
                map.items[p].0.lex_bytes(),
            ) {
                assert forall|i: int| 0 <= i < map.items@.len() implies (i < p + 1)
                    == lex_le(#[trigger] map.key(i), key@) by {
                    lemma_not_before(key@, map.key(i));
                    lemma_not_before(key@, map.key(p as int));
                    if i > p {
                        assert(lex_lt(map.key(p as int), map.key(i)));
                    }
                }
                p + 1
            } else {
                assert forall|i: int| 0 <= i < map.items@.len() implies (i < p)
                    == lex_le(#[trigger] map.key(i), key@) by {
                    lemma_not_before(key@, map.key(i));
                    if p < map.items@.len() {
                        lemma_not_before(key@, map.key(p as int));
                    }
                    if i > p {
                        assert(lex_lt(map.key(p as int), map.key(i)));
                        lex_transitive(key@, map.key(p as int), map.key(i));
                    }
                }
                p
            }
        },
    }
}

/// What is not before `key` equals it or comes after it.
proof fn lemma_not_before(key: Seq<u8>, other: Seq<u8>)
    ensures
        !lex_lt(other, key) == lex_le(key, other),
        lex_lt(key, other) ==> key != other && !lex_lt(other, key),
        lex_lt(other, key) ==> key != other,
{
    lex_total(key, other);
    lex_irreflexive(key);
    if lex_lt(key, other) && lex_lt(other, key) {
        lex_transitive(key, other, key);
    }
}

/// The positions, from the first to before the last, whose keys lie in a range.
pub fn span<K: Lexical, V>(map: &SortedMap<K, V>, range: &KeyRange) -> (r: (usize, usize))
    requires
        map.wf(),
    ensures
        r.0 <= r.1 <= map.items@.len(),
        forall|i: int|
            0 <= i < map.items@.len() ==> (r.0 <= i < r.1) == range.admits(#[trigger] map.key(i)),
{
    let first = first_in(map, &range.start);
    let end = end_of(map, &range.end);
    if first <= end {
        (first, end)
    } else {
        (first, first)
    }
}

/// The keys at the positions `first` to before `end`.
pub open spec fn keys_between<K: Lexical, V>(map: SortedMap<K, V>, first: int, end: int) -> Seq<
    Seq<u8>,
> {
    Seq::new((end - first) as nat, |k: int| map.key(first + k))
}

/// The positions of a range list the keys in it.
pub proof fn lemma_listed<K: Lexical, V>(
    map: SortedMap<K, V>,
    range: KeyRange,
    first: int,
    end: int,
    contents: Map<Seq<u8>, Seq<u8>>,
)
    requires
        map.wf(),
        contents.dom() == map.map().dom(),
        0 <= first <= end <= map.items@.len(),
        forall|i: int|
            0 <= i < map.items@.len() ==> (first <= i < end) == range.admits(#[trigger] map.key(i)),
    ensures
        lists_keys(keys_between(map, first, end), contents, range),
{
    let keys = keys_between(map, first, end);
    assert forall|k: int, j: int| 0 <= k < j < keys.len() implies lex_lt(
        #[trigger] keys[k],
        #[trigger] keys[j],
    ) by {
        assert(lex_lt(map.key(first + k), map.key(first + j)));
    }
    assert forall|k: int| 0 <= k < keys.len() implies contents.contains_key(#[trigger] keys[k])
        && range.admits(keys[k]) by {
        map.lemma_at(first + k);
        assert(map.map().dom().contains(keys[k]));
    }
    assert forall|key: Seq<u8>| #[trigger]
        contents.contains_key(key) && range.admits(key) implies keys.contains(key) by {
        assert(map.map().dom().contains(key));
        let at = map.at(key);
        assert(map.key(at) == key);
        assert(keys[at - first] == key);
    }
}

} // verus!
