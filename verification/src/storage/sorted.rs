//! A map that keeps its keys in the lexicographic order of their bytes.

use vstd::prelude::*;
use vstd::utf8::encode_utf8;

use crate::encoding::bytes::{lex_irreflexive, lex_lt, lex_total, lex_transitive};

verus! {

/// A key that sorts by its bytes.
pub trait Lexical {
    /// The bytes that the key sorts by.
    spec fn lex(&self) -> Seq<u8>;

    fn lex_bytes(&self) -> (r: &[u8])
        ensures
            r@ == self.lex(),
    ;
}

impl Lexical for Vec<u8> {
    open spec fn lex(&self) -> Seq<u8> {
        self@
    }

    fn lex_bytes(&self) -> (r: &[u8]) {
        self.as_slice()
    }
}

impl Lexical for String {
    open spec fn lex(&self) -> Seq<u8> {
        encode_utf8(self@)
    }

    fn lex_bytes(&self) -> (r: &[u8]) {
        self.as_str().as_bytes()
    }
}

/// Whether `a` comes before `b`.
pub fn is_before(a: &[u8], b: &[u8]) -> (r: bool)
    ensures
        r == lex_lt(a@, b@),
{
    let mut i: usize = 0;
    assert(a@.skip(0) =~= a@);
    assert(b@.skip(0) =~= b@);
    while i < a.len() && i < b.len() && a[i] == b[i]
        invariant
            i <= a@.len(),
            i <= b@.len(),
            lex_lt(a@, b@) == lex_lt(a@.skip(i as int), b@.skip(i as int)),
        decreases a@.len() - i,
    {
        assert(a@.skip(i as int).skip(1) =~= a@.skip(i + 1));
        assert(b@.skip(i as int).skip(1) =~= b@.skip(i + 1));
        i = i + 1;
    }
    if i >= b.len() {
        false
    } else if i >= a.len() {
        true
    } else {
        a[i] < b[i]
    }
}

/// A map with its entries in ascending order of their keys.
#[derive(Clone, Debug, PartialEq)]
pub struct SortedMap<K, V> {
    pub items: Vec<(K, V)>,
}

impl<K: Lexical, V> SortedMap<K, V> {
    /// The bytes of the key at position `i`.
    pub open spec fn key(&self, i: int) -> Seq<u8> {
        self.items@[i].0.lex()
    }

    pub open spec fn holds(&self, key: Seq<u8>) -> bool {
        exists|i: int| 0 <= i < self.items@.len() && #[trigger] self.key(i) == key
    }

    /// The position of `key`.
    pub open spec fn at(&self, key: Seq<u8>) -> int {
        choose|i: int| 0 <= i < self.items@.len() && #[trigger] self.key(i) == key
    }

    /// The keys ascend strictly.
    pub open spec fn wf(&self) -> bool {
        forall|i: int, j: int|
            0 <= i < j < self.items@.len() ==> lex_lt(#[trigger] self.key(i), #[trigger] self.key(j))
    }

    /// The value of each key.
    pub open spec fn map(&self) -> Map<Seq<u8>, V> {
        Map::new(|key: Seq<u8>| self.holds(key), |key: Seq<u8>| self.items@[self.at(key)].1)
    }

    /// A key is at one position only.
    pub proof fn lemma_at(&self, i: int)
        requires
            self.wf(),
            0 <= i < self.items@.len(),
        ensures
            self.at(self.key(i)) == i,
            self.map().contains_key(self.key(i)),
            self.map()[self.key(i)] == self.items@[i].1,
    {
        let j = self.at(self.key(i));
        lex_irreflexive(self.key(i));
        assert(self.holds(self.key(i)));
    }

    pub fn new() -> (r: Self)
        ensures
            r.wf(),
            r.map() == Map::<Seq<u8>, V>::empty(),
            r.items@.len() == 0,
    {
        let r = SortedMap { items: Vec::new() };
        assert(r.map() =~= Map::<Seq<u8>, V>::empty());
        r
    }

    pub fn len(&self) -> (r: usize)
        ensures
            r == self.items@.len(),
    {
        self.items.len()
    }

    /// The number of keys before `key`, which is its own position where it is
    /// held.
    pub fn position(&self, key: &[u8]) -> (r: usize)
        requires
            self.wf(),
        ensures
            r <= self.items@.len(),
            forall|i: int| 0 <= i < r ==> lex_lt(#[trigger] self.key(i), key@),
            forall|i: int| r <= i < self.items@.len() ==> !lex_lt(#[trigger] self.key(i), key@),
    {
        let mut low: usize = 0;
        let mut high: usize = self.items.len();
        while low < high
            invariant
                low <= high <= self.items@.len(),
                self.wf(),
                forall|i: int| 0 <= i < low ==> lex_lt(#[trigger] self.key(i), key@),
                forall|i: int|
                    high <= i < self.items@.len() ==> !lex_lt(#[trigger] self.key(i), key@),
            decreases high - low,
        {
            let mid: usize = low + (high - low) / 2;
            if is_before(self.items[mid].0.lex_bytes(), key) {
                assert forall|i: int| 0 <= i < mid + 1 implies lex_lt(#[trigger] self.key(i), key@) by {
                    if i < mid {
                        lex_transitive(self.key(i), self.key(mid as int), key@);
                    }
                }
                low = mid + 1;
            } else {
                assert forall|i: int| mid <= i < self.items@.len() implies !lex_lt(
                    #[trigger] self.key(i),
                    key@,
                ) by {
                    if i > mid && lex_lt(self.key(i), key@) {
                        lex_transitive(self.key(mid as int), self.key(i), key@);
                    }
                }
                high = mid;
            }
        }
        low
    }

    /// Whether the key at position `at`, as found by [`Self::position`], is
    /// `key`.
    fn is_at(&self, at: usize, key: &[u8]) -> (r: bool)
        requires
            self.wf(),
            at <= self.items@.len(),
            forall|i: int| 0 <= i < at ==> lex_lt(#[trigger] self.key(i), key@),
            forall|i: int| at <= i < self.items@.len() ==> !lex_lt(#[trigger] self.key(i), key@),
        ensures
            r == self.map().contains_key(key@),
            r ==> at < self.items@.len() && self.key(at as int) == key@,
            !r && at < self.items@.len() ==> lex_lt(key@, self.key(at as int)),
    {
        let r = at < self.items.len() && !is_before(key, self.items[at].0.lex_bytes());
        proof {
            if at < self.items@.len() {
                lex_total(self.key(at as int), key@);
                if self.key(at as int) == key@ {
                    lex_irreflexive(key@);
                    assert(self.holds(key@));
                }
            }
            if self.holds(key@) {
                let i = self.at(key@);
                lex_irreflexive(key@);
                if i > at {
                    if lex_lt(key@, self.key(at as int)) {
                        lex_transitive(key@, self.key(at as int), self.key(i));
                    }
                }
            }
        }
        r
    }

    pub fn contains_key(&self, key: &[u8]) -> (r: bool)
        requires
            self.wf(),
        ensures
            r == self.map().contains_key(key@),
    {
        let at = self.position(key);
        self.is_at(at, key)
    }

    pub fn get(&self, key: &[u8]) -> (r: Option<&V>)
        requires
            self.wf(),
        ensures
            match r {
                Some(value) => self.map().contains_key(key@) && *value == self.map()[key@],
                None => !self.map().contains_key(key@),
            },
    {
        let at = self.position(key);
        if self.is_at(at, key) {
            proof {
                self.lemma_at(at as int);
            }
            Some(&self.items[at].1)
        } else {
            None
        }
    }

    /// Sets the value of a key.
    pub fn insert(&mut self, key: K, value: V)
        requires
            old(self).wf(),
        ensures
            final(self).wf(),
            final(self).map() == old(self).map().insert(key.lex(), value),
    {
        let at = self.position(key.lex_bytes());
        let ghost before = *self;
        let ghost lex = key.lex();
        if self.is_at(at, key.lex_bytes()) {
            self.items.set(at, (key, value));
            proof {
                assert forall|i: int| 0 <= i < self.items@.len() implies #[trigger] self.key(i)
                    == before.key(i) by {}
                Self::lemma_replaced(before, *self, at as int, lex, value);
            }
        } else {
            self.items.insert(at, (key, value));
            proof {
                Self::lemma_inserted(before, *self, at as int, lex, value);
            }
        }
    }

    proof fn lemma_replaced(before: Self, after: Self, at: int, key: Seq<u8>, value: V)
        requires
            before.wf(),
            0 <= at < before.items@.len(),
            before.key(at) == key,
            after.items@.len() == before.items@.len(),
            forall|i: int| 0 <= i < after.items@.len() ==> #[trigger] after.key(i) == before.key(i),
            forall|i: int|
                0 <= i < after.items@.len() && i != at ==> #[trigger] after.items@[i]
                    == before.items@[i],
            after.items@[at].1 == value,
        ensures
            after.wf(),
            after.map() == before.map().insert(key, value),
    {
        assert forall|k: Seq<u8>| #[trigger] after.map().contains_key(k) == before.map().insert(
            key,
            value,
        ).contains_key(k) by {
            if after.holds(k) {
                assert(before.key(after.at(k)) == k);
            }
            if before.holds(k) {
                assert(after.key(before.at(k)) == k);
            }
            assert(after.key(at) == key);
        }
        assert forall|k: Seq<u8>| after.map().contains_key(k) implies #[trigger] after.map()[k]
            == before.map().insert(key, value)[k] by {
            let i = after.at(k);
            after.lemma_at(i);
            before.lemma_at(i);
            after.lemma_at(at);
        }
        assert(after.map() =~= before.map().insert(key, value));
    }

    proof fn lemma_inserted(before: Self, after: Self, at: int, key: Seq<u8>, value: V)
        requires
            before.wf(),
            0 <= at <= before.items@.len(),
            forall|i: int| 0 <= i < at ==> lex_lt(#[trigger] before.key(i), key),
            at < before.items@.len() ==> lex_lt(key, before.key(at)),
            !before.map().contains_key(key),
            after.items@.len() == before.items@.len() + 1,
            forall|i: int| 0 <= i < at ==> #[trigger] after.items@[i] == before.items@[i],
            forall|i: int|
                at < i < after.items@.len() ==> #[trigger] after.items@[i] == before.items@[i - 1],
            after.key(at) == key,
            after.items@[at].1 == value,
        ensures
            after.wf(),
            after.map() == before.map().insert(key, value),
    {
        assert forall|i: int| at < i < after.items@.len() implies lex_lt(
            key,
            #[trigger] after.key(i),
        ) by {
            if i - 1 > at {
                lex_transitive(key, before.key(at), before.key(i - 1));
            }
            assert(after.items@[i] == before.items@[i - 1]);
        }
        assert forall|i: int, j: int| 0 <= i < j < after.items@.len() implies lex_lt(
            #[trigger] after.key(i),
            #[trigger] after.key(j),
        ) by {
            if i < at {
                assert(after.items@[i] == before.items@[i]);
                if j < at {
                    assert(after.items@[j] == before.items@[j]);
                    assert(lex_lt(before.key(i), before.key(j)));
                } else if j == at {
                    assert(lex_lt(before.key(i), key));
                } else {
                    assert(after.items@[j] == before.items@[j - 1]);
                    assert(lex_lt(before.key(i), before.key(j - 1)));
                }
            } else if i > at {
                assert(after.items@[i] == before.items@[i - 1]);
                assert(after.items@[j] == before.items@[j - 1]);
                assert(lex_lt(before.key(i - 1), before.key(j - 1)));
            }
        }
        assert forall|k: Seq<u8>| #[trigger] after.map().contains_key(k) == before.map().insert(
            key,
            value,
        ).contains_key(k) by {
            if after.holds(k) {
                let i = after.at(k);
                if i < at {
                    assert(before.key(i) == k);
                } else if i > at {
                    assert(before.key(i - 1) == k);
                }
            }
            if before.holds(k) {
                let i = before.at(k);
                if i < at {
                    assert(after.key(i) == k);
                } else {
                    assert(after.items@[i + 1] == before.items@[i]);
                    assert(after.key(i + 1) == k);
                }
            }
            assert(after.key(at) == key);
        }
        assert forall|k: Seq<u8>| after.map().contains_key(k) implies #[trigger] after.map()[k]
            == before.map().insert(key, value)[k] by {
            let i = after.at(k);
            after.lemma_at(i);
            if i < at {
                before.lemma_at(i);
            } else if i > at {
                before.lemma_at(i - 1);
            }
        }
        assert(after.map() =~= before.map().insert(key, value));
    }

    /// Removes a key, where it is held.
    pub fn remove(&mut self, key: &[u8])
        requires
            old(self).wf(),
        ensures
            final(self).wf(),
            final(self).map() == old(self).map().remove(key@),
    {
        let at = self.position(key);
        let ghost before = *self;
        if self.is_at(at, key) {
            self.items.remove(at);
            proof {
                Self::lemma_removed(before, *self, at as int, key@);
            }
        } else {
            assert(self.map() =~= before.map().remove(key@));
        }
    }

    proof fn lemma_removed(before: Self, after: Self, at: int, key: Seq<u8>)
        requires
            before.wf(),
            0 <= at < before.items@.len(),
            before.key(at) == key,
            after.items@.len() == before.items@.len() - 1,
            forall|i: int| 0 <= i < at ==> #[trigger] after.items@[i] == before.items@[i],
            forall|i: int|
                at <= i < after.items@.len() ==> #[trigger] after.items@[i] == before.items@[i + 1],
        ensures
            after.wf(),
            after.map() == before.map().remove(key),
    {
        assert forall|i: int, j: int| 0 <= i < j < after.items@.len() implies lex_lt(
            #[trigger] after.key(i),
            #[trigger] after.key(j),
        ) by {
            let a = if i < at { i } else { i + 1 };
            let b = if j < at { j } else { j + 1 };
            assert(after.items@[i] == before.items@[a]);
            assert(after.items@[j] == before.items@[b]);
            assert(lex_lt(before.key(a), before.key(b)));
        }
        assert forall|k: Seq<u8>| #[trigger] after.map().contains_key(k) == before.map().remove(
            key,
        ).contains_key(k) by {
            lex_irreflexive(key);
            if after.holds(k) {
                let i = after.at(k);
                let a = if i < at { i } else { i + 1 };
                assert(after.items@[i] == before.items@[a]);
                assert(before.key(a) == k);
                if a < at {
                    assert(lex_lt(before.key(a), before.key(at)));
                } else {
                    assert(lex_lt(before.key(at), before.key(a)));
                }
            }
            if before.holds(k) && k != key {
                let i = before.at(k);
                if i < at {
                    assert(after.items@[i] == before.items@[i]);
                    assert(after.key(i) == k);
                } else {
                    assert(after.items@[i - 1] == before.items@[i]);
                    assert(after.key(i - 1) == k);
                }
            }
        }
        assert forall|k: Seq<u8>| after.map().contains_key(k) implies #[trigger] after.map()[k]
            == before.map().remove(key)[k] by {
            let i = after.at(k);
            after.lemma_at(i);
            let a = if i < at { i } else { i + 1 };
            assert(after.items@[i] == before.items@[a]);
            before.lemma_at(a);
        }
        assert(after.map() =~= before.map().remove(key));
    }
}

} // verus!
