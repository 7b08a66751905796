//! The storage engine interface.

use vstd::prelude::*;
use vstd::slice::slice_to_vec;

use crate::encoding::bytes::{lex_le, lex_lt};
use crate::error::{ErrorView, Result};

verus! {

/// One end of a range of keys.
#[derive(Clone, Debug, PartialEq)]
pub enum Bound {
    Included(Vec<u8>),
    Excluded(Vec<u8>),
    Unbounded,
}

/// A range of keys.
#[derive(Clone, Debug, PartialEq)]
pub struct KeyRange {
    pub start: Bound,
    pub end: Bound,
}

impl KeyRange {
    /// Whether `key` lies in the range.
    pub open spec fn admits(&self, key: Seq<u8>) -> bool {
        &&& match self.start {
            Bound::Included(start) => lex_le(start@, key),
            Bound::Excluded(start) => lex_lt(start@, key),
            Bound::Unbounded => true,
        }
        &&& match self.end {
            Bound::Included(end) => lex_le(key, end@),
            Bound::Excluded(end) => lex_lt(key, end@),
            Bound::Unbounded => true,
        }
    }
}

/// The keys of `map` in `range`, each once, in ascending order.
pub open spec fn lists_keys(
    keys: Seq<Seq<u8>>,
    map: Map<Seq<u8>, Seq<u8>>,
    range: KeyRange,
) -> bool {
    &&& forall|i: int, j: int|
        0 <= i < j < keys.len() ==> lex_lt(#[trigger] keys[i], #[trigger] keys[j])
    &&& forall|i: int|
        0 <= i < keys.len() ==> map.contains_key(#[trigger] keys[i]) && range.admits(keys[i])
    &&& forall|key: Seq<u8>| #[trigger]
        map.contains_key(key) && range.admits(key) ==> keys.contains(key)
}

/// One item of a scan: a pair, or the failure to read it.
pub type ScanItem = Result<(Vec<u8>, Vec<u8>)>;

/// `items` are the pairs of `map` whose keys are `keys`, except where reading
/// one failed.
pub open spec fn reads_pairs(
    items: Seq<ScanItem>,
    keys: Seq<Seq<u8>>,
    map: Map<Seq<u8>, Seq<u8>>,
) -> bool {
    &&& items.len() == keys.len()
    &&& forall|i: int|
        0 <= i < items.len() ==> match #[trigger] items[i] {
            Ok((key, value)) => key@ == keys[i] && value@ == map[keys[i]],
            Err(_) => true,
        }
}

/// The state of an engine.
#[derive(Clone, Debug, PartialEq)]
pub struct Status {
    /// The name of the engine.
    pub name: String,
    /// The number of live keys.
    pub keys: u64,
    /// The logical size of the live pairs.
    pub size: u64,
    /// The size on disk, garbage included.
    pub disk_size: u64,
    /// The size on disk of the live data.
    pub live_disk_size: u64,
}

pub ghost struct StatusView {
    pub name: Seq<char>,
    pub keys: u64,
    pub size: u64,
    pub disk_size: u64,
    pub live_disk_size: u64,
}

impl View for Status {
    type V = StatusView;

    open spec fn view(&self) -> StatusView {
        StatusView {
            name: self.name@,
            keys: self.keys,
            size: self.size,
            disk_size: self.disk_size,
            live_disk_size: self.live_disk_size,
        }
    }
}

impl Status {
    /// The size on disk of garbage.
    pub fn garbage_disk_size(&self) -> (r: u64)
        requires
            self.live_disk_size <= self.disk_size,
        ensures
            r == self.disk_size - self.live_disk_size,
    {
        self.disk_size - self.live_disk_size
    }
}

/// A size, or the largest 64-bit number if it is more.
pub open spec fn capped(size: int) -> int {
    if size <= u64::MAX {
        size
    } else {
        u64::MAX as int
    }
}

/// Whether a report is one that an engine gives: a reliable one gives no other.
pub open spec fn is_report(
    report: std::result::Result<StatusView, ErrorView>,
    reported: StatusView,
    reliable: bool,
) -> bool {
    match report {
        Ok(status) => status == reported,
        Err(_) => !reliable,
    }
}

/// An ordered key/value store of byte strings, for a single thread.
///
/// Every operation may fail, except on an engine that is [`Self::reliable`]. A
/// write that failed may or may not have taken place, and left every other key as
/// it was.
pub trait Engine: Sized {
    /// The stored pairs.
    spec fn contents(&self) -> Map<Seq<u8>, Seq<u8>>;

    /// The engine's own invariant.
    spec fn wf(&self) -> bool;

    /// Whether no operation of this engine fails.
    spec fn reliable(&self) -> bool;

    /// What the engine reports of itself.
    spec fn reported(&self) -> StatusView;

    /// Whether the storage medium has everything that was written.
    spec fn is_flushed(&self) -> bool;

    /// Deletes a key, or does nothing if it does not exist.
    fn delete(&mut self, key: &[u8]) -> (r: Result<()>)
        requires
            old(self).wf(),
        ensures
            final(self).wf(),
            final(self).reliable() == old(self).reliable(),
            r is Ok ==> final(self).contents() == old(self).contents().remove(key@),
            r is Err ==> final(self).contents().remove(key@) == old(self).contents().remove(key@),
            old(self).reliable() ==> r is Ok,
    ;

    /// Writes buffered contents through to the storage medium.
    fn flush(&mut self) -> (r: Result<()>)
        requires
            old(self).wf(),
        ensures
            final(self).wf(),
            final(self).reliable() == old(self).reliable(),
            final(self).reported() == old(self).reported(),
            final(self).contents() == old(self).contents(),
            r is Ok ==> final(self).is_flushed(),
            old(self).reliable() ==> r is Ok,
    ;

    /// The value of a key, if it exists.
    fn get(&mut self, key: &[u8]) -> (r: Result<Option<Vec<u8>>>)
        requires
            old(self).wf(),
        ensures
            final(self).wf(),
            final(self).reliable() == old(self).reliable(),
            final(self).reported() == old(self).reported(),
            final(self).contents() == old(self).contents(),
            final(self).is_flushed() == old(self).is_flushed(),
            match r {
                Ok(Some(value)) => old(self).contents().contains_key(key@) && value@ == old(self).contents()[key@],
                Ok(None) => !old(self).contents().contains_key(key@),
                Err(_) => !old(self).reliable(),
            },
    ;

    /// The pairs of a range in ascending order of their keys.
    fn scan(&mut self, range: &KeyRange) -> (r: Vec<ScanItem>)
        requires
            old(self).wf(),
        ensures
            final(self).wf(),
            final(self).reliable() == old(self).reliable(),
            final(self).reported() == old(self).reported(),
            final(self).contents() == old(self).contents(),
            final(self).is_flushed() == old(self).is_flushed(),
            exists|keys: Seq<Seq<u8>>| #[trigger]
                lists_keys(keys, old(self).contents(), *range) && reads_pairs(
                    r@,
                    keys,
                    old(self).contents(),
                ),
            old(self).reliable() ==> forall|i: int| 0 <= i < r@.len() ==> #[trigger] r@[i] is Ok,
    ;

    /// Sets the value of a key, replacing one that exists.
    fn set(&mut self, key: &[u8], value: Vec<u8>) -> (r: Result<()>)
        requires
            old(self).wf(),
        ensures
            final(self).wf(),
            final(self).reliable() == old(self).reliable(),
            r is Ok ==> final(self).contents() == old(self).contents().insert(key@, value@),
            r is Err ==> final(self).contents().remove(key@) == old(self).contents().remove(key@),
            old(self).reliable() ==> r is Ok,
    ;

    /// The state of the engine.
    fn status(&mut self) -> (r: Result<Status>)
        requires
            old(self).wf(),
        ensures
            final(self).wf(),
            final(self).reliable() == old(self).reliable(),
            final(self).reported() == old(self).reported(),
            final(self).contents() == old(self).contents(),
            final(self).is_flushed() == old(self).is_flushed(),
            match r {
                Ok(status) => status@ == old(self).reported(),
                Err(_) => !old(self).reliable(),
            },
    ;

    /// The pairs whose keys start with `prefix`, in ascending order.
    fn scan_prefix(&mut self, prefix: &[u8]) -> (r: Vec<ScanItem>)
        requires
            old(self).wf(),
        ensures
            final(self).wf(),
            final(self).reliable() == old(self).reliable(),
            final(self).reported() == old(self).reported(),
            final(self).contents() == old(self).contents(),
            final(self).is_flushed() == old(self).is_flushed(),
            exists|keys: Seq<Seq<u8>>, range: KeyRange| #[trigger]
                lists_keys(keys, old(self).contents(), range) && reads_pairs(
                    r@,
                    keys,
                    old(self).contents(),
                ) && forall|key: Seq<u8>| #[trigger]
                    range.admits(key) == prefix@.is_prefix_of(key),
            old(self).reliable() ==> forall|i: int| 0 <= i < r@.len() ==> #[trigger] r@[i] is Ok,
    {
        let range = prefix_range(prefix);
        self.scan(&range)
    }
}

/// The first key after those that start with `prefix`: the prefix with its last
/// byte that is not `0xff` incremented and the rest cut off. There is none if every
/// byte is `0xff`.
pub open spec fn successor(prefix: Seq<u8>) -> Option<Seq<u8>>
    decreases prefix.len(),
{
    if prefix.len() == 0 {
        None
    } else if prefix.last() == 0xff {
        successor(prefix.drop_last())
    } else {
        Some(prefix.drop_last().push((prefix.last() + 1) as u8))
    }
}

/// The range of the keys that start with `prefix`: it starts at the prefix, and ends
/// before its successor, or nowhere if it has none.
pub fn prefix_range(prefix: &[u8]) -> (r: KeyRange)
    ensures
        r.start matches Bound::Included(start) && start@ == prefix@,
        match r.end {
            Bound::Unbounded => successor(prefix@) is None,
            Bound::Excluded(end) => successor(prefix@) == Some(end@),
            Bound::Included(_) => false,
        },
        r.end is Unbounded <==> forall|i: int| 0 <= i < prefix@.len() ==> prefix@[i] == 0xff,
        forall|key: Seq<u8>| #[trigger] r.admits(key) == prefix@.is_prefix_of(key),
{
    let start = Bound::Included(slice_to_vec(prefix));
    let mut i: usize = prefix.len();
    assert(prefix@.take(i as int) =~= prefix@);
    while i > 0 && prefix[i - 1] == 0xff
        invariant
            i <= prefix@.len(),
            forall|j: int| i <= j < prefix@.len() ==> prefix@[j] == 0xff,
            successor(prefix@.take(i as int)) == successor(prefix@),
        decreases i,
    {
        assert(prefix@.take(i as int).drop_last() =~= prefix@.take(i - 1));
        i = i - 1;
    }
    assert(i > 0 ==> prefix@.take(i as int).drop_last() =~= prefix@.take(i - 1));
    if i == 0 {
        let r = KeyRange { start, end: Bound::Unbounded };
        assert forall|key: Seq<u8>| #[trigger] r.admits(key) == prefix@.is_prefix_of(key) by {
            lemma_full_prefix(prefix@, key);
        }
        r
    } else {
        let mut end: Vec<u8> = Vec::new();
        let mut j: usize = 0;
        while j < i - 1
            invariant
                j <= i - 1 < prefix@.len(),
                end@ =~= prefix@.take(j as int),
            decreases i - 1 - j,
        {
            end.push(prefix[j]);
            j = j + 1;
        }
        end.push(prefix[i - 1] + 1);
        let ghost last = i - 1;
        assert(end@ =~= prefix@.take(last).push((prefix@[last] + 1) as u8));
        let r = KeyRange { start, end: Bound::Excluded(end) };
        assert forall|key: Seq<u8>| #[trigger] r.admits(key) == prefix@.is_prefix_of(key) by {
            lemma_bounded_prefix(prefix@, last, key);
        }
        r
    }
}

/// Among keys, those from `prefix` on are those that start with it, where every
/// byte of it is `0xff`.
proof fn lemma_full_prefix(prefix: Seq<u8>, key: Seq<u8>)
    requires
        forall|j: int| 0 <= j < prefix.len() ==> prefix[j] == 0xff,
    ensures
        lex_le(prefix, key) == prefix.is_prefix_of(key),
    decreases prefix.len(),
{
    if prefix.len() == 0 {
        if key.len() == 0 {
            assert(prefix =~= key);
        }
        assert(key.subrange(0, 0) =~= prefix);
    } else if key.len() > 0 && key[0] == 0xff {
        lemma_full_prefix(prefix.skip(1), key.skip(1));
        lemma_prefix_step(prefix, key);
        lemma_le_step(prefix, key);
    } else {
        if key.len() > 0 && prefix.is_prefix_of(key) {
            assert(key[0] == prefix[0]);
        }
    }
}

proof fn lemma_prefix_step(prefix: Seq<u8>, key: Seq<u8>)
    requires
        prefix.len() > 0,
        key.len() > 0,
        prefix[0] == key[0],
    ensures
        prefix.is_prefix_of(key) == prefix.skip(1).is_prefix_of(key.skip(1)),
{
    if prefix.is_prefix_of(key) {
        assert(prefix.skip(1) =~= key.skip(1).subrange(0, prefix.len() - 1));
    }
    if prefix.skip(1).is_prefix_of(key.skip(1)) {
        assert forall|i: int| 0 <= i < prefix.len() implies prefix[i] == key[i] by {
            if i > 0 {
                assert(prefix.skip(1)[i - 1] == key.skip(1)[i - 1]);
            }
        }
        assert(prefix =~= key.subrange(0, prefix.len() as int));
    }
}

proof fn lemma_le_step(a: Seq<u8>, b: Seq<u8>)
    requires
        a.len() > 0,
        b.len() > 0,
        a[0] == b[0],
    ensures
        lex_le(a, b) == lex_le(a.skip(1), b.skip(1)),
{
    if a.skip(1) == b.skip(1) {
        assert(a =~= seq![a[0]] + a.skip(1));
        assert(b =~= seq![b[0]] + b.skip(1));
    }
}

/// Among keys, those from `prefix` on and before its successor are those that
/// start with it.
proof fn lemma_bounded_prefix(prefix: Seq<u8>, last: int, key: Seq<u8>)
    requires
        0 <= last < prefix.len(),
        prefix[last] < 0xff,
        forall|j: int| last < j < prefix.len() ==> prefix[j] == 0xff,
    ensures
        (lex_le(prefix, key) && lex_lt(key, prefix.take(last).push((prefix[last] + 1) as u8)))
            == prefix.is_prefix_of(key),
    decreases last,
{
    let end = prefix.take(last).push((prefix[last] + 1) as u8);
    if key.len() == 0 {
    } else if last == 0 {
        reveal_with_fuel(lex_lt, 2);
        assert(end.skip(1) =~= seq![]);
        if key[0] == prefix[0] {
            lemma_full_prefix(prefix.skip(1), key.skip(1));
            lemma_prefix_step(prefix, key);
            lemma_le_step(prefix, key);
        } else {
            if prefix.is_prefix_of(key) {
                assert(prefix[0] == key[0]);
            }
            assert(prefix != key);
        }
    } else {
        assert(end.skip(1) =~= prefix.skip(1).take(last - 1).push((prefix[last] + 1) as u8));
        if key[0] == prefix[0] {
            lemma_bounded_prefix(prefix.skip(1), last - 1, key.skip(1));
            lemma_prefix_step(prefix, key);
            lemma_le_step(prefix, key);
        } else {
            if prefix.is_prefix_of(key) {
                assert(prefix[0] == key[0]);
            }
            assert(prefix != key);
        }
    }
}

} // verus!
