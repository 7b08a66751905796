//! A log-structured storage engine.
//!
//! Pairs are appended to a log, and a directory in memory maps each live key to
//! the place of its value. Deleting a key appends a tombstone. Compaction rewrites
//! the log with the live pairs only.
//!
//! A record of the log is made of
//!
//! 1. the length of the key, a big-endian `u32`;
//! 2. the length of the value, a big-endian `i32`, or -1 for a tombstone;
//! 3. the key;
//! 4. the value.

use vstd::prelude::*;
use vstd::slice::{slice_subrange, slice_to_vec};

use super::engine::{
    capped, lists_keys, reads_pairs, Engine, KeyRange, ScanItem, Status, StatusView,
};
use super::sorted::{Lexical, SortedMap};
use super::span::{keys_between, lemma_listed, span};
use crate::encoding::bytes::{
    be_bytes, be_inverse, be_round_trip, be_value, from_be, lemma_byte_pow, lex_lt, to_be,
};
use crate::error::Result;

verus! {

/// The place of a value in the log.
#[derive(Clone, Copy, Debug, PartialEq)]
pub struct ValueLocation {
    pub offset: u64,
    pub length: usize,
}

impl ValueLocation {
    /// The offset of what follows the value.
    pub fn end(&self) -> (r: u64)
        requires
            self.offset + self.length <= u64::MAX,
        ensures
            r == self.offset + self.length,
    {
        self.offset + self.length as u64
    }
}

/// The place of the value of each live key.
pub type KeyDir = SortedMap<Vec<u8>, ValueLocation>;

// The log.

/// A record of the log: its key, where its value is unless it is a tombstone,
/// and where it ends.
pub ghost struct Record {
    pub key: Seq<u8>,
    pub value: Option<ValueLocation>,
    pub end: int,
}

/// The record at offset `at`, if it is complete.
pub open spec fn record_at(log: Seq<u8>, at: int) -> Option<Record> {
    if at + 8 > log.len() {
        None
    } else {
        let key_end = at + 8 + be_value(log.subrange(at, at + 4));
        let length = be_value(log.subrange(at + 4, at + 8));
        if key_end > log.len() {
            None
        } else {
            let key = log.subrange(at + 8, key_end);
            if length > i32::MAX {
                Some(Record { key, value: None, end: key_end })
            } else if key_end + length > log.len() {
                None
            } else {
                Some(
                    Record {
                        key,
                        value: Some(
                            ValueLocation { offset: key_end as u64, length: length as usize },
                        ),
                        end: key_end + length,
                    },
                )
            }
        }
    }
}

/// A directory after a record: a value replaces the one before it, and a
/// tombstone removes the key.
pub open spec fn noting(
    dir: Map<Seq<u8>, ValueLocation>,
    record: Record,
) -> Map<Seq<u8>, ValueLocation> {
    match record.value {
        Some(location) => dir.insert(record.key, location),
        None => dir.remove(record.key),
    }
}

/// The directory that the records from offset `at` on make of `dir`, and where
/// the complete records end.
pub open spec fn replay(log: Seq<u8>, at: int, dir: Map<Seq<u8>, ValueLocation>) -> (
    Map<Seq<u8>, ValueLocation>,
    int,
)
    decreases log.len() - at,
{
    match record_at(log, at) {
        Some(record) => if at < record.end <= log.len() {
            replay(log, record.end, noting(dir, record))
        } else {
            (dir, at)
        },
        None => (dir, at),
    }
}

/// The directory of a log, and where its complete records end.
pub open spec fn directory(log: Seq<u8>) -> (Map<Seq<u8>, ValueLocation>, int) {
    replay(log, 0, Map::empty())
}

/// The value at a place in the log.
pub open spec fn value_at(log: Seq<u8>, location: ValueLocation) -> Seq<u8> {
    log.subrange(location.offset as int, location.offset + location.length)
}

/// A number as a length field, which keeps its low 32 bits.
pub open spec fn length_field(length: nat) -> Seq<u8> {
    be_bytes(length % 0x1_0000_0000, 4)
}

/// The bytes of a record.
pub open spec fn record_bytes(key: Seq<u8>, value: Option<Seq<u8>>) -> Seq<u8> {
    match value {
        Some(value) => length_field(key.len()) + length_field(value.len()) + key + value,
        None => length_field(key.len()) + seq![0xffu8, 0xff, 0xff, 0xff] + key,
    }
}

/// Whether the lengths of a record fit its length fields.
pub open spec fn record_fits(key: Seq<u8>, value: Option<Seq<u8>>) -> bool {
    &&& key.len() <= u32::MAX
    &&& value matches Some(value) ==> value.len() <= i32::MAX
}

proof fn lemma_replay_end(log: Seq<u8>, at: int, dir: Map<Seq<u8>, ValueLocation>)
    requires
        at <= log.len(),
    ensures
        at <= replay(log, at, dir).1 <= log.len(),
    decreases log.len() - at,
{
    if let Some(record) = record_at(log, at) {
        if at < record.end <= log.len() {
            lemma_replay_end(log, record.end, noting(dir, record));
        }
    }
}

/// A complete record stays the same when the log is longer or is cut after it.
proof fn lemma_same_record(a: Seq<u8>, b: Seq<u8>, at: int)
    requires
        0 <= at,
        record_at(a, at) is Some,
        record_at(a, at)->0.end <= b.len(),
        forall|i: int| 0 <= i < record_at(a, at)->0.end ==> a[i] == b[i],
    ensures
        record_at(b, at) == record_at(a, at),
{
    assert(a.subrange(at, at + 4) =~= b.subrange(at, at + 4));
    assert(a.subrange(at + 4, at + 8) =~= b.subrange(at + 4, at + 8));
    let key_end = at + 8 + be_value(a.subrange(at, at + 4));
    assert(a.subrange(at + 8, key_end) =~= b.subrange(at + 8, key_end));
}

/// Cutting off what is not a complete record leaves the directory as it is.
proof fn lemma_cut(log: Seq<u8>, at: int, dir: Map<Seq<u8>, ValueLocation>)
    requires
        0 <= at <= log.len(),
    ensures
        ({
            let (all, end) = replay(log, at, dir);
            replay(log.take(end), at, dir) == (all, end)
        }),
    decreases log.len() - at,
{
    let end = replay(log, at, dir).1;
    let cut = log.take(end);
    lemma_replay_end(log, at, dir);
    match record_at(log, at) {
        Some(record) if at < record.end <= log.len() => {
            lemma_replay_end(log, record.end, noting(dir, record));
            lemma_same_record(log, cut, at);
            lemma_cut(log, record.end, noting(dir, record));
        },
        _ => {
            if let Some(record) = record_at(cut, at) {
                assert(record.end <= cut.len());
            }
        },
    }
}

/// The record that was written is the one that is found.
proof fn lemma_record(log: Seq<u8>, key: Seq<u8>, value: Option<Seq<u8>>)
    requires
        record_fits(key, value),
        log.len() + record_bytes(key, value).len() <= u64::MAX,
    ensures
        ({
            let all = log + record_bytes(key, value);
            let key_end = log.len() + 8 + key.len();
            record_at(all, log.len() as int) == Some(
                Record {
                    key,
                    value: match value {
                        Some(value) => Some(
                            ValueLocation { offset: key_end as u64, length: value.len() as usize },
                        ),
                        None => None,
                    },
                    end: all.len() as int,
                },
            )
        }),
{
    let at = log.len() as int;
    let all = log + record_bytes(key, value);
    lemma_byte_pow();
    be_round_trip(key.len(), 4);
    assert(all.subrange(at, at + 4) =~= be_bytes(key.len(), 4));
    match value {
        Some(value) => {
            be_round_trip(value.len(), 4);
            assert(all.subrange(at + 4, at + 8) =~= be_bytes(value.len(), 4));
        },
        None => {
            let mark = seq![0xffu8, 0xff, 0xff, 0xff];
            assert(all.subrange(at + 4, at + 8) =~= mark);
            assert(be_value(mark) > i32::MAX) by {
                reveal_with_fuel(be_value, 5);
                assert(mark.drop_last() =~= seq![0xffu8, 0xff, 0xff]);
                assert(mark.drop_last().drop_last() =~= seq![0xffu8, 0xff]);
                assert(mark.drop_last().drop_last().drop_last() =~= seq![0xffu8]);
                assert(mark.drop_last().drop_last().drop_last().drop_last() =~= seq![]);
            }
        },
    }
    assert(all.subrange(at + 8, at + 8 + key.len()) =~= key);
}

proof fn lemma_append(
    log: Seq<u8>,
    at: int,
    dir: Map<Seq<u8>, ValueLocation>,
    key: Seq<u8>,
    value: Option<Seq<u8>>,
)
    requires
        0 <= at <= log.len(),
        replay(log, at, dir).1 == log.len(),
        record_fits(key, value),
        log.len() + record_bytes(key, value).len() <= u64::MAX,
    ensures
        ({
            let all = log + record_bytes(key, value);
            let record = record_at(all, log.len() as int)->0;
            replay(all, at, dir) == (noting(replay(log, at, dir).0, record), all.len() as int)
        }),
    decreases log.len() - at,
{
    let all = log + record_bytes(key, value);
    lemma_record(log, key, value);
    if at == log.len() {
        let record = record_at(all, at)->0;
        assert(replay(all, record.end, noting(dir, record)) == (noting(dir, record), record.end));
    } else {
        let record = record_at(log, at)->0;
        lemma_same_record(log, all, at);
        lemma_append(log, record.end, noting(dir, record), key, value);
    }
}

/// Appending a record to a log of complete records does to its directory what
/// the record says: a value is found where it was written, and a tombstone
/// removes its key.
pub proof fn appended_records_are_found(log: Seq<u8>, key: Seq<u8>, value: Option<Seq<u8>>)
    requires
        directory(log).1 == log.len(),
        record_fits(key, value),
        log.len() + record_bytes(key, value).len() <= u64::MAX,
    ensures
        ({
            let all = log + record_bytes(key, value);
            let key_end = log.len() + 8 + key.len();
            directory(all) == (
                match value {
                    Some(value) => directory(log).0.insert(
                        key,
                        ValueLocation { offset: key_end as u64, length: value.len() as usize },
                    ),
                    None => directory(log).0.remove(key),
                },
                all.len() as int,
            )
        }),
{
    lemma_append(log, 0, Map::empty(), key, value);
    lemma_record(log, key, value);
}

/// An incomplete record at the end of a log, as an interrupted write leaves it,
/// changes nothing: the directory is that of the complete records before it.
pub proof fn incomplete_records_are_dropped(log: Seq<u8>)
    ensures
        0 <= directory(log).1 <= log.len(),
        directory(log.take(directory(log).1)) == directory(log),
{
    lemma_replay_end(log, 0, Map::empty());
    lemma_cut(log, 0, Map::empty());
}

/// A record of which only the front was written, however much of it, changes nothing: a log
/// that ends with it has the directory of the complete records before it.
pub proof fn torn_records_change_nothing(
    log: Seq<u8>,
    key: Seq<u8>,
    value: Option<Seq<u8>>,
    n: int,
)
    requires
        directory(log).1 == log.len(),
        record_fits(key, value),
        log.len() + record_bytes(key, value).len() <= u64::MAX,
        0 <= n < record_bytes(key, value).len(),
    ensures
        directory(log + record_bytes(key, value).take(n)) == directory(log),
{
    lemma_torn(log, 0, Map::empty(), key, value, n);
}

proof fn lemma_torn(
    log: Seq<u8>,
    at: int,
    dir: Map<Seq<u8>, ValueLocation>,
    key: Seq<u8>,
    value: Option<Seq<u8>>,
    n: int,
)
    requires
        0 <= at <= log.len(),
        replay(log, at, dir).1 == log.len(),
        record_fits(key, value),
        log.len() + record_bytes(key, value).len() <= u64::MAX,
        0 <= n < record_bytes(key, value).len(),
    ensures
        replay(log + record_bytes(key, value).take(n), at, dir) == replay(log, at, dir),
    decreases log.len() - at,
{
    let whole = log + record_bytes(key, value);
    let torn = log + record_bytes(key, value).take(n);
    lemma_record(log, key, value);
    if at == log.len() {
        if let Some(record) = record_at(torn, at) {
            assert(record.end <= torn.len());
            assert forall|i: int| 0 <= i < record.end implies torn[i] == whole[i] by {}
            lemma_same_record(torn, whole, at);
            assert(false);
        }
        assert(record_at(log, at) is None);
    } else {
        let record = record_at(log, at)->0;
        lemma_same_record(log, torn, at);
        lemma_torn(log, record.end, noting(dir, record), key, value, n);
    }
}

/// Builds the directory of a log. Also says where the complete records end: what
/// follows is an incomplete write, to be cut off.
pub fn build_keydir(log: &[u8]) -> (r: (KeyDir, usize))
    ensures
        r.0.wf(),
        r.1 <= log@.len(),
        (r.0.map(), r.1 as int) == directory(log@),
{
    let mut keydir: KeyDir = SortedMap::new();
    let mut offset: usize = 0;
    while offset < log.len()
        invariant
            keydir.wf(),
            offset <= log@.len(),
            directory(log@) == replay(log@, offset as int, keydir.map()),
        decreases log@.len() - offset,
    {
        let ghost dir = keydir.map();
        let ghost record = record_at(log@, offset as int);
        let left = log.len() - offset;
        if left < 8 {
            return (keydir, offset);
        }
        proof {
            lemma_field(log@.subrange(offset as int, offset + 4));
            lemma_field(log@.subrange(offset + 4, offset + 8));
        }
        let key_length = from_be(slice_subrange(log, offset, offset + 4));
        let value_length = from_be(slice_subrange(log, offset + 4, offset + 8));
        if key_length > (left - 8) as u128 {
            return (keydir, offset);
        }
        let key_end = offset + 8 + key_length as usize;
        let key = slice_to_vec(slice_subrange(log, offset + 8, key_end));
        if value_length > 0x7fff_ffff {
            keydir.remove(key.as_slice());
            offset = key_end;
        } else {
            if value_length > (log.len() - key_end) as u128 {
                return (keydir, offset);
            }
            let location = ValueLocation { offset: key_end as u64, length: value_length as usize };
            keydir.insert(key, location);
            offset = key_end + value_length as usize;
        }
        assert(keydir.map() == noting(dir, record->0));
    }
    (keydir, offset)
}

proof fn lemma_field(bytes: Seq<u8>)
    requires
        bytes.len() == 4,
    ensures
        be_value(bytes) <= u32::MAX,
{
    be_inverse(bytes);
    lemma_byte_pow();
}

/// A record to append to the log; no value is a tombstone.
pub fn encode_record(key: &[u8], value: Option<&[u8]>) -> (r: Vec<u8>)
    ensures
        r@ == record_bytes(
            key@,
            match value {
                Some(value) => Some(value@),
                None => None,
            },
        ),
{
    let mut out = length_bytes(key.len());
    match value {
        Some(value) => {
            let mut length = length_bytes(value.len());
            out.append(&mut length);
            out.extend_from_slice(key);
            out.extend_from_slice(value);
        },
        None => {
            let mut mark: Vec<u8> = vec![0xff, 0xff, 0xff, 0xff];
            assert(mark@ =~= seq![0xffu8, 0xff, 0xff, 0xff]);
            out.append(&mut mark);
            out.extend_from_slice(key);
        },
    }
    out
}

fn length_bytes(length: usize) -> (r: Vec<u8>)
    ensures
        r@ == length_field(length as nat),
{
    to_be((length as u64 % 0x1_0000_0000) as u128, 4)
}

/// The logical size of the live pairs at the first `n` places of a directory.
pub open spec fn live_size(items: Seq<(Vec<u8>, ValueLocation)>, n: int) -> int
    decreases n,
{
    if n <= 0 {
        0
    } else {
        live_size(items, n - 1) + items[n - 1].0@.len() + items[n - 1].1.length
    }
}

/// The state of an engine with the given directory and size on disk. Sizes are
/// capped at the largest 64-bit number.
pub fn directory_status(keydir: &KeyDir, disk_size: u64) -> (r: Status)
    ensures
        r.name@ == "bitcask"@,
        r.keys == keydir.items@.len(),
        r.size == capped(live_size(keydir.items@, keydir.items@.len() as int)),
        r.disk_size == disk_size,
        r.live_disk_size == capped(
            live_size(keydir.items@, keydir.items@.len() as int) + 8 * keydir.items@.len(),
        ),
{
    let mut size: u64 = 0;
    let mut i: usize = 0;
    while i < keydir.items.len()
        invariant
            i <= keydir.items@.len(),
            size == capped(live_size(keydir.items@, i as int)),
            live_size(keydir.items@, i as int) >= 0,
        decreases keydir.items@.len() - i,
    {
        let (key, location) = &keydir.items[i];
        size = size.saturating_add(key.len() as u64).saturating_add(location.length as u64);
        i = i + 1;
    }
    let keys = keydir.items.len() as u64;
    let prefixes = if keys <= u64::MAX / 8 {
        keys * 8
    } else {
        u64::MAX
    };
    Status {
        name: "bitcask".to_string(),
        keys,
        size,
        disk_size,
        live_disk_size: size.saturating_add(prefixes),
    }
}

/// The engine. Its log is a byte string: what a file of the same content holds.
pub struct BitCask {
    log: Vec<u8>,
    keydir: KeyDir,
    flushed: usize,
}

impl BitCask {
    /// The bytes of the log.
    pub closed spec fn log(&self) -> Seq<u8> {
        self.log@
    }

    /// The place of each live key's value.
    pub closed spec fn dir(&self) -> Map<Seq<u8>, ValueLocation> {
        self.keydir.map()
    }

    /// How many bytes of the log, from its start, were asked to be flushed.
    pub closed spec fn flushed_length(&self) -> int {
        self.flushed as int
    }

    /// Whether the log is complete: opening it again gives the same directory.
    pub open spec fn is_complete(&self) -> bool {
        directory(self.log()) == (self.dir(), self.log().len() as int)
    }

    /// Opens a log, cutting off an incomplete record at its end.
    pub fn new(log: Vec<u8>) -> (r: BitCask)
        ensures
            r.wf(),
            r.is_complete(),
            r.log() == log@.take(directory(log@).1),
            r.dir() == directory(log@).0,
            r.flushed_length() == 0,
    {
        let mut log = log;
        let ghost all = log@;
        let (keydir, end) = build_keydir(log.as_slice());
        log.truncate(end);
        proof {
            incomplete_records_are_dropped(all);
            assert(log.len() == log@.len());
            lemma_inside(all.take(end as int), 0, Map::empty());
            assert(log@ == all.take(end as int));
            assert forall|i: int| 0 <= i < keydir.items@.len() implies (
            #[trigger] keydir.items@[i]).1.offset + keydir.items@[i].1.length <= log@.len() by {
                keydir.lemma_at(i);
            }
        }
        BitCask { log, keydir, flushed: 0 }
    }

    /// The bytes of the log, to be stored.
    pub fn bytes(&self) -> (r: &Vec<u8>)
        ensures
            r@ == self.log(),
    {
        &self.log
    }

    /// How many bytes of the log have to be on the storage medium.
    pub fn flushed(&self) -> (r: usize)
        ensures
            r == self.flushed_length(),
    {
        self.flushed
    }

    /// The bytes of the log, to be stored or opened again.
    pub fn into_log(self) -> (r: Vec<u8>)
        ensures
            r@ == self.log(),
    {
        self.log
    }

    /// Appends a record and returns the place of its value.
    fn write_entry(&mut self, key: &[u8], value: Option<&[u8]>) -> (r: ValueLocation)
        ensures
            final(self).keydir == old(self).keydir,
            final(self).flushed == old(self).flushed,
            final(self).log@ == old(self).log@ + record_bytes(
                key@,
                match value {
                    Some(value) => Some(value@),
                    None => None,
                },
            ),
            r.offset == old(self).log@.len() + 8 + key@.len(),
            r.length == match value {
                Some(value) => value@.len(),
                None => 0,
            },
    {
        let length = match value {
            Some(value) => value.len(),
            None => 0,
        };
        let mut record = encode_record(key, value);
        self.log.append(&mut record);
        proof {
            lemma_byte_pow();
            be_round_trip(key@.len() % 0x1_0000_0000, 4);
            be_round_trip(length as nat % 0x1_0000_0000, 4);
        }
        ValueLocation { offset: (self.log.len() - length) as u64, length }
    }

    /// Reads the value at a place in the log.
    fn read_value(&self, location: ValueLocation) -> (r: Vec<u8>)
        requires
            location.offset + location.length <= self.log@.len(),
        ensures
            r@ == value_at(self.log@, location),
    {
        assert(self.log.len() == self.log@.len());
        let start = location.offset as usize;
        slice_to_vec(slice_subrange(self.log.as_slice(), start, start + location.length))
    }

    /// Rewrites the log with the live pairs only, in the order of their keys.
    pub fn compact(&mut self)
        requires
            old(self).wf(),
        ensures
            final(self).wf(),
            final(self).contents() == old(self).contents(),
            final(self).log() == live_records(old(self).contents(), old(self).keys()),
            final(self).flushed_length() == 0,
            (forall|key: Seq<u8>| #[trigger]
                old(self).contents().contains_key(key) ==> record_fits(
                    key,
                    Some(old(self).contents()[key]),
                )) ==> final(self).is_complete(),
    {
        let mut new = BitCask { log: Vec::new(), keydir: SortedMap::new(), flushed: 0 };
        let ghost contents = self.contents();
        let ghost keys = self.keys();
        let ghost fits = forall|key: Seq<u8>| #[trigger]
            contents.contains_key(key) ==> record_fits(key, Some(contents[key]));
        let mut i: usize = 0;
        proof {
            assert(new.contents() =~= restricted(contents, keys.take(0)));
            assert(keys.take(0) =~= seq![]);
        }
        while i < self.keydir.items.len()
            invariant
                self.wf(),
                new.wf(),
                new.flushed == 0,
                *self == *old(self),
                contents == self.contents(),
                keys == self.keys(),
                i <= self.keydir.items@.len(),
                fits == (forall|key: Seq<u8>| #[trigger]
                    contents.contains_key(key) ==> record_fits(key, Some(contents[key]))),
                new.contents() == restricted(contents, keys.take(i as int)),
                new.log@ == live_records(contents, keys.take(i as int)),
                fits ==> new.is_complete(),
            decreases self.keydir.items@.len() - i,
        {
            let (key, location) = &self.keydir.items[i];
            proof {
                self.keydir.lemma_at(i as int);
                assert(self.contents().contains_key(key@));
            }
            let value = self.read_value(*location);
            let ghost before = new;
            let place = new.write_entry(key.as_slice(), Some(value.as_slice()));
            proof {
                assert(contents[key@] == value@);
                assert(new.log.len() == new.log@.len());
                if fits {
                    appended_records_are_found(before.log@, key@, Some(value@));
                }
            }
            new.note_set(key.as_slice(), place, Ghost(before), Ghost(value@));
            proof {
                let done = keys.take(i + 1);
                assert(done.drop_last() =~= keys.take(i as int));
                assert(done.last() == key@);
                assert(restricted(contents, done) =~= restricted(
                    contents,
                    keys.take(i as int),
                ).insert(key@, value@)) by {
                    assert forall|k: Seq<u8>| #[trigger] done.contains(k) == (keys.take(
                        i as int,
                    ).contains(k) || k == key@) by {
                        if done.contains(k) {
                            let j = choose|j: int| 0 <= j < done.len() && done[j] == k;
                            if j < i {
                                assert(keys.take(i as int)[j] == k);
                            }
                        }
                        if keys.take(i as int).contains(k) {
                            let j = choose|j: int| 0 <= j < i && keys.take(i as int)[j] == k;
                            assert(done[j] == k);
                        }
                        if k == key@ {
                            assert(done[i as int] == k);
                        }
                    }
                }
            }
            i = i + 1;
        }
        proof {
            assert(keys.take(i as int) =~= keys);
            assert(restricted(contents, keys) =~= contents) by {
                assert forall|key: Seq<u8>| contents.contains_key(key) implies keys.contains(
                    key,
                ) by {
                    let at = self.keydir.at(key);
                    assert(self.keydir.key(at) == key);
                    assert(keys[at] == key);
                }
            }
        }
        *self = new;
    }

    /// The keys in order.
    pub closed spec fn keys(&self) -> Seq<Seq<u8>> {
        self.keydir.items@.map_values(|item: (Vec<u8>, ValueLocation)| item.0@)
    }

    /// Notes the place of a value that was just written.
    fn note_set(
        &mut self,
        key: &[u8],
        place: ValueLocation,
        Ghost(before): Ghost<BitCask>,
        Ghost(value): Ghost<Seq<u8>>,
    )
        requires
            before.wf(),
            old(self).keydir == before.keydir,
            old(self).log@ == before.log@ + record_bytes(key@, Some(value)),
            place.offset == before.log@.len() + 8 + key@.len(),
            place.length == value.len(),
        ensures
            final(self).wf(),
            final(self).log@ == old(self).log@,
            final(self).flushed == old(self).flushed,
            final(self).dir() == before.dir().insert(key@, place),
            final(self).contents() == before.contents().insert(key@, value),
    {
        self.keydir.insert(slice_to_vec(key), place);
        proof {
            let log = self.log@;
            lemma_byte_pow();
            be_round_trip(key@.len() % 0x1_0000_0000, 4);
            be_round_trip(value.len() % 0x1_0000_0000, 4);
            assert(value_at(log, place) =~= value);
            lemma_after(before, *self, key@, place);
            let expected = before.contents().insert(key@, value);
            assert forall|k: Seq<u8>| #[trigger] self.contents().contains_key(k)
                == expected.contains_key(k) && (expected.contains_key(k) ==> self.contents()[k]
                == expected[k]) by {
                if k != key@ && before.contents().contains_key(k) {
                    let at = before.keydir.at(k);
                    assert(before.keydir.key(at) == k);
                    assert(value_at(log, before.dir()[k]) =~= value_at(
                        before.log@,
                        before.dir()[k],
                    ));
                }
            }
            assert(self.contents() =~= expected);
        }
    }
}

/// A map restricted to some keys.
pub open spec fn restricted(map: Map<Seq<u8>, Seq<u8>>, keys: Seq<Seq<u8>>) -> Map<
    Seq<u8>,
    Seq<u8>,
> {
    Map::new(|key: Seq<u8>| map.contains_key(key) && keys.contains(key), |key: Seq<u8>| map[key])
}

/// The records of the given keys, one after the other.
pub open spec fn live_records(map: Map<Seq<u8>, Seq<u8>>, keys: Seq<Seq<u8>>) -> Seq<u8>
    decreases keys.len(),
{
    if keys.len() == 0 {
        seq![]
    } else {
        live_records(map, keys.drop_last()) + record_bytes(keys.last(), Some(map[keys.last()]))
    }
}

/// Whether every place of a directory lies in a log of the given length.
spec fn is_inside(dir: Map<Seq<u8>, ValueLocation>, length: int) -> bool {
    forall|key: Seq<u8>| #[trigger]
        dir.contains_key(key) ==> dir[key].offset + dir[key].length <= length
}

/// Every place in the directory of a log lies in the log.
proof fn lemma_inside(log: Seq<u8>, at: int, dir: Map<Seq<u8>, ValueLocation>)
    requires
        0 <= at <= log.len() <= u64::MAX,
        is_inside(dir, log.len() as int),
    ensures
        is_inside(replay(log, at, dir).0, log.len() as int),
    decreases log.len() - at,
{
    match record_at(log, at) {
        Some(record) if at < record.end <= log.len() => {
            let next = noting(dir, record);
            assert forall|key: Seq<u8>| #[trigger] next.contains_key(key) implies next[key].offset
                + next[key].length <= log.len() by {
                if key != record.key {
                    assert(dir.contains_key(key));
                }
            }
            lemma_inside(log, record.end, next);
        },
        _ => {},
    }
}

/// Setting a key keeps the places inside the log.
proof fn lemma_after(before: BitCask, after: BitCask, key: Seq<u8>, place: ValueLocation)
    requires
        before.wf(),
        after.keydir.wf(),
        after.keydir.map() == before.keydir.map().insert(key, place),
        before.log@.len() <= after.log@.len(),
        place.offset + place.length <= after.log@.len(),
    ensures
        after.wf(),
{
    assert forall|i: int| 0 <= i < after.keydir.items@.len() implies (
    #[trigger] after.keydir.items@[i]).1.offset + after.keydir.items@[i].1.length
        <= after.log@.len() by {
        after.keydir.lemma_at(i);
        let k = after.keydir.key(i);
        if k != key {
            let at = before.keydir.at(k);
            assert(before.keydir.key(at) == k);
        }
    }
}

impl Engine for BitCask {
    open spec fn contents(&self) -> Map<Seq<u8>, Seq<u8>> {
        let log = self.log();
        self.dir().map_values(|location: ValueLocation| value_at(log, location))
    }

    closed spec fn wf(&self) -> bool {
        &&& self.keydir.wf()
        &&& forall|i: int|
            0 <= i < self.keydir.items@.len() ==> (#[trigger] self.keydir.items@[i]).1.offset
                + self.keydir.items@[i].1.length <= self.log@.len()
    }

    open spec fn reliable(&self) -> bool {
        true
    }

    /// The log was flushed after the last record was appended.
    open spec fn is_flushed(&self) -> bool {
        self.flushed_length() == self.log().len()
    }

    /// Sizes are capped at the largest 64-bit number.
    open spec fn reported(&self) -> StatusView {
        let live = pairs_size(self.contents(), self.keys());
        StatusView {
            name: "bitcask"@,
            keys: self.keys().len() as u64,
            size: capped(live) as u64,
            disk_size: self.log().len() as u64,
            live_disk_size: capped(live + 8 * self.keys().len()) as u64,
        }
    }

    fn delete(&mut self, key: &[u8]) -> (r: Result<()>)
        ensures
            final(self).log() == old(self).log() + record_bytes(key@, None),
            final(self).flushed_length() == old(self).flushed_length(),
            old(self).is_complete() && record_fits(key@, None) ==> final(self).is_complete(),
    {
        let ghost before = *self;
        let _ = self.write_entry(key, None);
        self.keydir.remove(key);
        proof {
            assert forall|i: int| 0 <= i < self.keydir.items@.len() implies (
            #[trigger] self.keydir.items@[i]).1.offset + self.keydir.items@[i].1.length
                <= self.log@.len() by {
                self.keydir.lemma_at(i);
                let k = self.keydir.key(i);
                let at = before.keydir.at(k);
                assert(before.keydir.key(at) == k);
            }
            let log = self.log@;
            assert(self.contents() =~= before.contents().remove(key@)) by {
                assert forall|k: Seq<u8>| #[trigger] before.contents().contains_key(
                    k,
                ) implies value_at(log, before.dir()[k]) == before.contents()[k] by {
                    let at = before.keydir.at(k);
                    assert(before.keydir.key(at) == k);
                    assert(value_at(log, before.dir()[k]) =~= value_at(
                        before.log@,
                        before.dir()[k],
                    ));
                }
            }
            assert(self.log.len() == self.log@.len());
            if before.is_complete() && record_fits(key@, None) {
                appended_records_are_found(before.log@, key@, None);
            }
        }
        Ok(())
    }

    /// Asks for every byte of the log to be flushed, which is for whoever stores
    /// the bytes to do.
    fn flush(&mut self) -> (r: Result<()>)
        ensures
            final(self).log() == old(self).log(),
            final(self).dir() == old(self).dir(),
    {
        self.flushed = self.log.len();
        Ok(())
    }

    fn get(&mut self, key: &[u8]) -> (r: Result<Option<Vec<u8>>>)
        ensures
            *final(self) == *old(self),
    {
        match self.keydir.get(key) {
            Some(location) => {
                proof {
                    let at = self.keydir.at(key@);
                    assert(self.keydir.key(at) == key@);
                }
                Ok(Some(self.read_value(*location)))
            },
            None => Ok(None),
        }
    }

    fn scan(&mut self, range: &KeyRange) -> (r: Vec<ScanItem>)
        ensures
            *final(self) == *old(self),
    {
        let (first, end) = span(&self.keydir, range);
        let mut out: Vec<ScanItem> = Vec::new();
        let mut i: usize = first;
        let ghost keys = keys_between(self.keydir, first as int, end as int);
        while i < end
            invariant
                *self == *old(self),
                self.wf(),
                first <= i <= end <= self.keydir.items@.len(),
                keys == keys_between(self.keydir, first as int, end as int),
                out@.len() == i - first,
                forall|k: int|
                    0 <= k < out@.len() ==> match #[trigger] out@[k] {
                        Ok((key, value)) => key@ == keys[k] && value@ == self.contents()[keys[k]],
                        Err(_) => false,
                    },
            decreases end - i,
        {
            proof {
                self.keydir.lemma_at(i as int);
                assert(keys[i - first] == self.keydir.key(i as int));
            }
            let key = slice_to_vec(self.keydir.items[i].0.as_slice());
            let value = self.read_value(self.keydir.items[i].1);
            out.push(Ok((key, value)));
            i = i + 1;
        }
        proof {
            assert(self.contents().dom() =~= self.keydir.map().dom());
            lemma_listed(self.keydir, *range, first as int, end as int, self.contents());
            assert(lists_keys(keys, old(self).contents(), *range));
            assert(reads_pairs(out@, keys, old(self).contents()));
        }
        out
    }

    fn set(&mut self, key: &[u8], value: Vec<u8>) -> (r: Result<()>)
        ensures
            final(self).log() == old(self).log() + record_bytes(key@, Some(value@)),
            final(self).flushed_length() == old(self).flushed_length(),
            old(self).is_complete() && record_fits(key@, Some(value@))
                ==> final(self).is_complete(),
    {
        let ghost before = *self;
        let place = self.write_entry(key, Some(value.as_slice()));
        proof {
            assert(self.log.len() == self.log@.len());
            if before.is_complete() && record_fits(key@, Some(value@)) {
                appended_records_are_found(before.log@, key@, Some(value@));
            }
        }
        self.note_set(key, place, Ghost(before), Ghost(value@));
        Ok(())
    }

    fn status(&mut self) -> (r: Result<Status>)
        ensures
            *final(self) == *old(self),
            r is Ok,
    {
        proof {
            lemma_live_size(*self, self.keydir.items@.len() as int);
            assert(self.keys().take(self.keys().len() as int) =~= self.keys());
        }
        Ok(directory_status(&self.keydir, self.log.len() as u64))
    }
}

proof fn lemma_live_size(engine: BitCask, n: int)
    requires
        engine.wf(),
        0 <= n <= engine.keydir.items@.len(),
    ensures
        live_size(engine.keydir.items@, n) == pairs_size(engine.contents(), engine.keys().take(n)),
    decreases n,
{
    let keys = engine.keys().take(n);
    if n > 0 {
        lemma_live_size(engine, n - 1);
        engine.keydir.lemma_at(n - 1);
        assert(keys.drop_last() =~= engine.keys().take(n - 1));
        assert(keys.last() == engine.keydir.key(n - 1));
    }
}

/// The length of the given keys and their values.
pub open spec fn pairs_size(map: Map<Seq<u8>, Seq<u8>>, keys: Seq<Seq<u8>>) -> int
    decreases keys.len(),
{
    if keys.len() == 0 {
        0
    } else {
        pairs_size(map, keys.drop_last()) + keys.last().len() + map[keys.last()].len()
    }
}

/// A compacted log has no garbage: it is as long as its live records, each of
/// which takes eight bytes besides its key and its value.
pub proof fn compacted_logs_have_no_garbage(map: Map<Seq<u8>, Seq<u8>>, keys: Seq<Seq<u8>>)
    ensures
        live_records(map, keys).len() == pairs_size(map, keys) + 8 * keys.len(),
    decreases keys.len(),
{
    if keys.len() > 0 {
        compacted_logs_have_no_garbage(map, keys.drop_last());
        let key = keys.last();
        lemma_byte_pow();
        be_round_trip(key.len() % 0x1_0000_0000, 4);
        be_round_trip(map[key].len() % 0x1_0000_0000, 4);
    }
}

/// The keys of an engine ascend, and are those of its contents.
pub proof fn keys_are_listed(engine: BitCask)
    requires
        engine.wf(),
    ensures
        forall|i: int, j: int|
            0 <= i < j < engine.keys().len() ==> lex_lt(
                #[trigger] engine.keys()[i],
                #[trigger] engine.keys()[j],
            ),
        forall|key: Seq<u8>| #[trigger]
            engine.contents().contains_key(key) <==> engine.keys().contains(key),
{
    let keys = engine.keys();
    assert forall|i: int, j: int| 0 <= i < j < keys.len() implies lex_lt(
        #[trigger] keys[i],
        #[trigger] keys[j],
    ) by {
        assert(lex_lt(engine.keydir.key(i), engine.keydir.key(j)));
    }
    assert forall|key: Seq<u8>| #[trigger] engine.contents().contains_key(key) <==> keys.contains(
        key,
    ) by {
        if engine.contents().contains_key(key) {
            let at = engine.keydir.at(key);
            assert(engine.keydir.key(at) == key);
            assert(keys[at] == key);
        }
        if keys.contains(key) {
            let i = choose|i: int| 0 <= i < keys.len() && keys[i] == key;
            engine.keydir.lemma_at(i);
            assert(engine.keydir.key(i) == key);
        }
    }
}

/// A log that is complete is opened again with the same contents.
pub proof fn reopening_keeps_contents(before: BitCask, after: BitCask)
    requires
        before.is_complete(),
        after.log() == before.log().take(directory(before.log()).1),
        after.dir() == directory(before.log()).0,
    ensures
        after.contents() == before.contents(),
        after.log() == before.log(),
{
    assert(before.log().take(before.log().len() as int) =~= before.log());
}

} // verus!
