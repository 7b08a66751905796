//! A storage engine in memory.

use vstd::prelude::*;
use vstd::slice::slice_to_vec;

use super::engine::{
    capped, lists_keys, reads_pairs, Engine, KeyRange, ScanItem, Status, StatusView,
};
use super::sorted::SortedMap;
use super::span::{keys_between, lemma_listed, span};
use crate::error::Result;

verus! {

/// A storage engine that keeps its pairs in memory.
pub struct Memory {
    pub pairs: SortedMap<Vec<u8>, Vec<u8>>,
}

/// The total length of the keys and values of the first `n` pairs.
pub open spec fn total_size(pairs: Seq<(Vec<u8>, Vec<u8>)>, n: int) -> int
    decreases n,
{
    if n <= 0 {
        0
    } else {
        total_size(pairs, n - 1) + pairs[n - 1].0@.len() + pairs[n - 1].1@.len()
    }
}

impl Memory {
    /// An empty engine.
    pub fn new() -> (r: Memory)
        ensures
            r.wf(),
            r.contents() == Map::<Seq<u8>, Seq<u8>>::empty(),
    {
        let r = Memory { pairs: SortedMap::new() };
        assert(r.contents() =~= Map::<Seq<u8>, Seq<u8>>::empty());
        r
    }
}

impl Default for Memory {
    fn default() -> (r: Memory)
        ensures
            r.wf(),
            r.contents() == Map::<Seq<u8>, Seq<u8>>::empty(),
    {
        Memory::new()
    }
}

impl Engine for Memory {
    open spec fn contents(&self) -> Map<Seq<u8>, Seq<u8>> {
        self.pairs.map().map_values(|value: Vec<u8>| value@)
    }

    open spec fn wf(&self) -> bool {
        self.pairs.wf()
    }

    open spec fn reliable(&self) -> bool {
        true
    }

    /// Memory is the storage medium.
    open spec fn is_flushed(&self) -> bool {
        true
    }

    /// The size is capped at the largest 64-bit number.
    open spec fn reported(&self) -> StatusView {
        let pairs = self.pairs.items@;
        StatusView {
            name: "memory"@,
            keys: pairs.len() as u64,
            size: capped(total_size(pairs, pairs.len() as int)) as u64,
            disk_size: 0,
            live_disk_size: 0,
        }
    }

    fn delete(&mut self, key: &[u8]) -> (r: Result<()>) {
        self.pairs.remove(key);
        assert(self.contents() =~= old(self).contents().remove(key@));
        Ok(())
    }

    fn flush(&mut self) -> (r: Result<()>) {
        Ok(())
    }

    fn get(&mut self, key: &[u8]) -> (r: Result<Option<Vec<u8>>>) {
        match self.pairs.get(key) {
            Some(value) => Ok(Some(slice_to_vec(value.as_slice()))),
            None => Ok(None),
        }
    }

    fn scan(&mut self, range: &KeyRange) -> (r: Vec<ScanItem>) {
        let (first, end) = span(&self.pairs, range);
        let mut out: Vec<ScanItem> = Vec::new();
        let mut i: usize = first;
        let ghost keys = keys_between(self.pairs, first as int, end as int);
        while i < end
            invariant
                self.pairs == old(self).pairs,
                self.pairs.wf(),
                first <= i <= end <= self.pairs.items@.len(),
                keys == keys_between(self.pairs, first as int, end as int),
                out@.len() == i - first,
                forall|k: int|
                    0 <= k < out@.len() ==> match #[trigger] out@[k] {
                        Ok((key, value)) => key@ == keys[k] && value@ == self.contents()[keys[k]],
                        Err(_) => false,
                    },
            decreases end - i,
        {
            proof {
                self.pairs.lemma_at(i as int);
                assert(keys[i - first] == self.pairs.key(i as int));
            }
            let key = slice_to_vec(self.pairs.items[i].0.as_slice());
            let value = slice_to_vec(self.pairs.items[i].1.as_slice());
            out.push(Ok((key, value)));
            i = i + 1;
        }
        proof {
            assert(self.contents().dom() =~= self.pairs.map().dom());
            lemma_listed(self.pairs, *range, first as int, end as int, self.contents());
            assert(lists_keys(keys, old(self).contents(), *range));
            assert(reads_pairs(out@, keys, old(self).contents()));
        }
        out
    }

    fn set(&mut self, key: &[u8], value: Vec<u8>) -> (r: Result<()>) {
        let ghost stored = value@;
        self.pairs.insert(slice_to_vec(key), value);
        assert(self.contents() =~= old(self).contents().insert(key@, stored));
        Ok(())
    }

    /// The number of keys and the total length of the pairs, which is capped at
    /// the largest 64-bit number.
    fn status(&mut self) -> (r: Result<Status>)
        ensures
            r is Ok,
            *final(self) == *old(self),
    {
        let mut size: u64 = 0;
        let mut i: usize = 0;
        while i < self.pairs.items.len()
            invariant
                self.pairs.wf(),
                *self == *old(self),
                i <= self.pairs.items@.len(),
                size == capped(total_size(self.pairs.items@, i as int)),
            decreases self.pairs.items@.len() - i,
        {
            let (key, value) = &self.pairs.items[i];
            size = size.saturating_add(key.len() as u64).saturating_add(value.len() as u64);
            i = i + 1;
        }
        Ok(
            Status {
                name: "memory".to_string(),
                keys: self.pairs.len() as u64,
                size,
                disk_size: 0,
                live_disk_size: 0,
            },
        )
    }
}

} // verus!
