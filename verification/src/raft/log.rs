//! The replicated log, on a storage engine.
//!
//! Entries below `first_index` were compacted into a snapshot, of which the log
//! keeps the index and the term. Entries up to the commit index never change.

use std::collections::VecDeque;

use vstd::prelude::*;
use super::log_laws::lemma_agreeing;

use super::entry::{
    command_fits, entry_bytes, entry_round_trip, entry_views, read_entry, same_bytes, take_vote,
    Entry, EntryView, Index, Term,
};
use super::ids::NodeID;
use super::membership::{MembershipEntry, MembershipView};
use crate::encoding::bincode::{put_u64, read_varint, varint, varint_round_trip, Reader};
use crate::encoding::bytes::{
    be_bytes, be_inverse, be_order, be_round_trip, be_value, lemma_byte_pow, lex_ascending_unique,
    lex_common_prefix, lex_irreflexive, lex_le, lex_lt, u64_to_be,
};
use crate::error::{ErrorView, Result};
use crate::storage::engine::{
    lists_keys, reads_pairs, Bound, Engine, KeyRange, ScanItem, Status, StatusView,
};

verus! {

/// A key of the log's storage.
///
/// Entries come first, in the order of their indexes; the metadata follows:
/// * `Entry(index)`: `0x00`, then the index as eight big-endian bytes;
/// * `TermVote`: `0x01`;
/// * `CommitIndex`: `0x02`;
/// * `SnapshotMeta`: `0x03`;
/// * `SnapshotData`: `0x04`.
#[derive(Clone, Debug, PartialEq)]
pub enum Key {
    /// A log entry.
    Entry(Index),
    /// The current term and vote.
    TermVote,
    /// The commit index and the term of its entry.
    CommitIndex,
    /// The index and term of the last entry that the snapshot covers.
    SnapshotMeta,
    /// The state machine's snapshot.
    SnapshotData,
}

/// The storage key of the entry at `index`.
pub open spec fn entry_key(index: Index) -> Seq<u8> {
    seq![0u8] + be_bytes(index as nat, 8)
}

impl Key {
    pub open spec fn bytes(self) -> Seq<u8> {
        match self {
            Key::Entry(index) => entry_key(index),
            Key::TermVote => seq![1u8],
            Key::CommitIndex => seq![2u8],
            Key::SnapshotMeta => seq![3u8],
            Key::SnapshotData => seq![4u8],
        }
    }

    /// The key as bytes, which sort as the keys do.
    pub fn encode(&self) -> (r: Vec<u8>)
        ensures
            r@ == self.bytes(),
    {
        match self {
            Key::Entry(index) => {
                let mut out: Vec<u8> = Vec::new();
                out.push(0);
                let mut tail = u64_to_be(*index);
                out.append(&mut tail);
                assert(out@ =~= entry_key(*index));
                out
            },
            Key::TermVote => vec![1],
            Key::CommitIndex => vec![2],
            Key::SnapshotMeta => vec![3],
            Key::SnapshotData => vec![4],
        }
    }
}

/// The index of the entry that `key` belongs to, if it is an entry's key.
pub open spec fn index_of_key(key: Seq<u8>) -> Option<int> {
    if key.len() == 9 && key[0] == 0 {
        Some(be_value(key.skip(1)) as int)
    } else {
        None
    }
}

/// Entry keys sort by index, and before every metadata key.
pub proof fn key_order(a: Index, b: Index, meta: Key)
    requires
        !(meta is Entry),
    ensures
        lex_lt(Key::Entry(a).bytes(), Key::Entry(b).bytes()) == (a < b),
        Key::Entry(a).bytes() == Key::Entry(b).bytes() <==> a == b,
        lex_lt(Key::Entry(a).bytes(), meta.bytes()),
{
    lemma_byte_pow();
    be_order(a as nat, b as nat, 8);
    be_round_trip(a as nat, 8);
    be_round_trip(b as nat, 8);
    lex_common_prefix(seq![0u8], be_bytes(a as nat, 8), be_bytes(b as nat, 8));
    if entry_key(a) == entry_key(b) {
        assert(entry_key(a).skip(1) =~= be_bytes(a as nat, 8));
        assert(entry_key(b).skip(1) =~= be_bytes(b as nat, 8));
    }
}

pub proof fn lemma_index_of_key(index: Index)
    ensures
        entry_key(index).len() == 9,
        entry_key(index)[0] == 0,
        index_of_key(entry_key(index)) == Some(index as int),
{
    lemma_byte_pow();
    be_round_trip(index as nat, 8);
    assert(entry_key(index).skip(1) =~= be_bytes(index as nat, 8));
}

pub proof fn lemma_key_of_index(key: Seq<u8>)
    requires
        index_of_key(key) is Some,
    ensures
        0 <= index_of_key(key)->0 <= u64::MAX,
        key == entry_key(index_of_key(key)->0 as u64),
{
    lemma_byte_pow();
    be_inverse(key.skip(1));
    assert(key =~= seq![0u8] + key.skip(1));
}

/// A term and an optional vote: the term, then the byte 0, or 1 and the vote.
pub open spec fn term_vote_bytes(term: Term, vote: Option<NodeID>) -> Seq<u8> {
    varint(term as nat) + match vote {
        None => seq![0u8],
        Some(vote) => seq![1u8, vote],
    }
}

#[verifier::opaque]
pub open spec fn read_term_vote(bytes: Seq<u8>) -> Option<(Term, Option<NodeID>)> {
    match read_varint(bytes, 8) {
        Some((term, rest)) => if rest.len() >= 1 && rest[0] == 0 {
            Some((term as u64, None))
        } else if rest.len() >= 2 && rest[0] == 1 {
            Some((term as u64, Some(rest[1])))
        } else {
            None
        },
        None => None,
    }
}

/// An index and a term.
pub open spec fn pair_bytes(index: Index, term: Term) -> Seq<u8> {
    varint(index as nat) + varint(term as nat)
}

#[verifier::opaque]
pub open spec fn read_pair(bytes: Seq<u8>) -> Option<(Index, Term)> {
    match read_varint(bytes, 8) {
        Some((index, rest)) => match read_varint(rest, 8) {
            Some((term, _)) => Some((index as u64, term as u64)),
            None => None,
        },
        None => None,
    }
}

/// Reading back a term and vote gives those written.
pub proof fn term_vote_round_trip(term: Term, vote: Option<NodeID>)
    ensures
        read_term_vote(term_vote_bytes(term, vote)) == Some((term, vote)),
{
    reveal(read_term_vote);
    match vote {
        None => {
            varint_round_trip(term as nat, seq![0u8], 8);
        },
        Some(vote) => {
            varint_round_trip(term as nat, seq![1u8, vote], 8);
        },
    }
}

/// Reading back an index and a term gives those written.
pub proof fn pair_round_trip(index: Index, term: Term)
    ensures
        read_pair(pair_bytes(index, term)) == Some((index, term)),
{
    reveal(read_pair);
    varint_round_trip(index as nat, varint(term as nat), 8);
    assert(varint(term as nat) =~= varint(term as nat) + Seq::<u8>::empty());
    varint_round_trip(term as nat, seq![], 8);
}

fn encode_term_vote(term: Term, vote: Option<NodeID>) -> (r: Vec<u8>)
    ensures
        r@ == term_vote_bytes(term, vote),
{
    let mut out: Vec<u8> = Vec::new();
    put_u64(&mut out, term);
    match vote {
        None => {
            out.push(0);
        },
        Some(vote) => {
            out.push(1);
            out.push(vote);
        },
    }
    assert(out@ =~= term_vote_bytes(term, vote));
    out
}

fn decode_term_vote(bytes: &[u8]) -> (r: Result<(Term, Option<NodeID>)>)
    ensures
        match r {
            Ok(pair) => read_term_vote(bytes@) == Some(pair),
            Err(e) => read_term_vote(bytes@) is None && e@ == ErrorView::InvalidData,
        },
{
    proof {
        reveal(read_term_vote);
    }
    let mut reader = Reader::new(bytes);
    let term = match reader.u64() {
        Ok(term) => term,
        Err(e) => return Err(e),
    };
    match take_vote(&mut reader) {
        Ok(vote) => Ok((term, vote)),
        Err(e) => Err(e),
    }
}

fn encode_pair(index: Index, term: Term) -> (r: Vec<u8>)
    ensures
        r@ == pair_bytes(index, term),
{
    let mut out: Vec<u8> = Vec::new();
    put_u64(&mut out, index);
    put_u64(&mut out, term);
    assert(out@ =~= pair_bytes(index, term));
    out
}

fn decode_pair(bytes: &[u8]) -> (r: Result<(Index, Term)>)
    ensures
        match r {
            Ok(pair) => read_pair(bytes@) == Some(pair),
            Err(e) => read_pair(bytes@) is None && e@ == ErrorView::InvalidData,
        },
{
    proof {
        reveal(read_pair);
    }
    let mut reader = Reader::new(bytes);
    let index = match reader.u64() {
        Ok(index) => index,
        Err(e) => return Err(e),
    };
    match reader.u64() {
        Ok(term) => Ok((index, term)),
        Err(e) => Err(e),
    }
}

/// What contracts say of a log.
#[verifier::ext_equal]
pub ghost struct LogView {
    /// The current term.
    pub term: Term,
    /// The vote cast in the current term.
    pub vote: Option<NodeID>,
    /// The index of the first entry that was not compacted away.
    pub first_index: Index,
    /// The term of the entry before the first one.
    pub snapshot_term: Term,
    /// The entries, from `first_index` on.
    pub entries: Seq<EntryView>,
    /// The term of the last entry, if all of the log was compacted away and the
    /// snapshot has another term.
    pub kept_term: Option<Term>,
    /// The index of the last committed entry.
    pub commit_index: Index,
    /// The term of the last committed entry.
    pub commit_term: Term,
    /// The state machine's snapshot.
    pub snapshot: Option<Seq<u8>>,
    /// Whether writes are flushed as they are made.
    pub fsync: bool,
}

impl LogView {
    /// The index of the last entry, compacted ones included.
    pub open spec fn last_index(self) -> int {
        self.first_index - 1 + self.entries.len()
    }

    /// The term of the last entry, compacted ones included.
    pub open spec fn last_term(self) -> Term {
        if self.entries.len() == 0 {
            match self.kept_term {
                Some(term) => term,
                None => self.snapshot_term,
            }
        } else {
            self.entries.last().term
        }
    }

    /// Whether the entry at `index` is in the log.
    pub open spec fn holds(self, index: int) -> bool {
        self.first_index <= index <= self.last_index()
    }

    /// The entry at `index`.
    pub open spec fn at(self, index: int) -> EntryView
        recommends
            self.holds(index),
    {
        self.entries[index - self.first_index]
    }

    /// The term of the entry at `index`, which may be the last compacted one.
    pub open spec fn term_at(self, index: int) -> Term
        recommends
            self.first_index - 1 <= index <= self.last_index(),
    {
        if index < self.first_index {
            self.snapshot_term
        } else {
            self.at(index).term
        }
    }

    /// Whether the log has an entry with this index and term, or had it until
    /// it was compacted.
    pub open spec fn has(self, index: int, term: Term) -> bool {
        &&& index != 0
        &&& self.first_index - 1 <= index <= self.last_index()
        &&& self.term_at(index) == term
    }

    /// The entries with indexes from `low` to `high`.
    pub open spec fn slice(self, low: int, high: int) -> Seq<EntryView> {
        let from = if low < self.first_index { 0 } else { low - self.first_index };
        let to = if high > self.last_index() {
            self.entries.len() as int
        } else {
            high - self.first_index + 1
        };
        if from <= to {
            self.entries.subrange(from, to)
        } else {
            seq![]
        }
    }

    /// The index and term of the snapshot, if there is one.
    pub open spec fn snapshot_meta(self) -> (Index, Term) {
        if self.first_index <= 1 {
            (0, 0)
        } else {
            ((self.first_index - 1) as u64, self.snapshot_term)
        }
    }

    /// The log as it is opened again: writes are flushed unless that is turned off,
    /// and the last term of a log without entries is that of its snapshot, or 0 if
    /// there is none.
    pub open spec fn reopened(self) -> LogView {
        LogView {
            fsync: true,
            kept_term: kept(self.entries.len(), self.snapshot_meta().1, self.snapshot_term),
            ..self
        }
    }

    /// After a new entry of the current term was added.
    pub open spec fn appending(
        self,
        command: Option<Seq<u8>>,
        membership: Option<MembershipView>,
    ) -> LogView {
        LogView {
            entries: self.entries.push(
                EntryView {
                    index: (self.last_index() + 1) as u64,
                    term: self.term,
                    command,
                    membership,
                },
            ),
            kept_term: None,
            ..self
        }
    }

    /// How many of `entries`, from the first on, the log already has.
    pub open spec fn agreeing(self, entries: Seq<EntryView>) -> nat
        decreases entries.len(),
    {
        if entries.len() > 0 && self.holds(entries[0].index as int) && self.at(
            entries[0].index as int,
        ).term == entries[0].term {
            1 + self.agreeing(entries.skip(1))
        } else {
            0
        }
    }

    /// After `entries` replaced everything from the first of them that the log
    /// did not have.
    pub open spec fn splicing(self, entries: Seq<EntryView>) -> LogView {
        let n = self.agreeing(entries) as int;
        if n == entries.len() {
            self
        } else {
            LogView {
                entries: self.entries.take(entries[n].index - self.first_index) + entries.skip(n),
                kept_term: None,
                ..self
            }
        }
    }

    /// Whether `entries` follow one another and an entry of the log.
    pub open spec fn continues(self, entries: Seq<EntryView>) -> bool {
        &&& entries.len() > 0
        &&& self.first_index <= entries[0].index <= self.last_index() + 1
        &&& forall|k: int|
            0 <= k < entries.len() ==> #[trigger] entries[k].index == entries[0].index + k
    }

    /// Whether `entries` can be spliced into the log: they follow one another
    /// and an entry of the log, with terms that never go down and do not exceed
    /// the current one; what the log has of them is the same; and what it does
    /// not have is not committed.
    pub open spec fn spliceable(self, entries: Seq<EntryView>) -> bool {
        entries.len() > 0 ==> {
            let first = entries[0];
            let n = self.agreeing(entries) as int;
            &&& first.index > 0
            &&& first.term > 0
            &&& forall|k: int|
                0 <= k < entries.len() ==> #[trigger] entries[k].index == first.index + k
            &&& forall|j: int, k: int|
                0 <= j < k < entries.len() ==> #[trigger] entries[j].term
                    <= #[trigger] entries[k].term
            &&& entries.last().term <= self.term
            &&& self.first_index - 1 <= first.index - 1 <= self.last_index()
            &&& first.index == 1 || self.term_at(first.index - 1) <= first.term
            &&& forall|k: int|
                0 <= k < n ==> {
                    &&& (#[trigger] entries[k]).command == self.at(entries[k].index as int).command
                    &&& entries[k].membership == self.at(entries[k].index as int).membership
                }
            &&& n < entries.len() ==> entries[n].index > self.commit_index
                && entries.last().index < u64::MAX
        }
    }

    /// After the commit index moved.
    pub open spec fn committing(self, index: Index) -> LogView {
        if index == self.commit_index {
            self
        } else {
            LogView { commit_index: index, commit_term: self.at(index as int).term, ..self }
        }
    }

    /// Whether the entries up to `index` are compacted away already.
    pub open spec fn is_compacted(self, index: Index) -> bool {
        index > 0 && index < self.first_index
    }

    /// After the entries up to `index` were compacted away. The last term stays.
    pub open spec fn compacting(self, index: Index, term: Term) -> LogView {
        if self.is_compacted(index) {
            self
        } else {
            let rest = self.entries.skip(index + 1 - self.first_index);
            LogView {
                first_index: (index + 1) as u64,
                snapshot_term: term,
                entries: rest,
                kept_term: kept(rest.len(), self.last_term(), term),
                ..self
            }
        }
    }

    /// After a snapshot replaced the whole log.
    pub open spec fn resetting(self, index: Index, term: Term) -> LogView {
        LogView {
            first_index: (index + 1) as u64,
            snapshot_term: term,
            entries: seq![],
            kept_term: None,
            commit_index: index,
            commit_term: term,
            ..self
        }
    }

    /// The last membership change in the log.
    pub open spec fn latest_membership(self) -> Option<(Index, MembershipView)> {
        latest_change(self.entries)
    }
}

/// The last term that a log with `len` entries keeps apart from them and from its
/// snapshot's.
pub open spec fn kept(len: nat, last_term: Term, snapshot_term: Term) -> Option<Term> {
    if len == 0 && last_term != snapshot_term {
        Some(last_term)
    } else {
        None
    }
}

/// The last membership change among `entries`.
pub open spec fn latest_change(entries: Seq<EntryView>) -> Option<(Index, MembershipView)>
    decreases entries.len(),
{
    if entries.len() == 0 {
        None
    } else {
        match entries.last().membership {
            Some(change) => Some((entries.last().index, change)),
            None => latest_change(entries.drop_last()),
        }
    }
}

/// A stored byte string.
pub open spec fn stored(contents: Map<Seq<u8>, Seq<u8>>, key: Seq<u8>) -> Option<Seq<u8>> {
    if contents.contains_key(key) {
        Some(contents[key])
    } else {
        None
    }
}

/// The stored term and vote; none is term 0 without a vote.
pub open spec fn stored_term_vote(contents: Map<Seq<u8>, Seq<u8>>) -> Option<
    (Term, Option<NodeID>),
> {
    match stored(contents, Key::TermVote.bytes()) {
        Some(bytes) => read_term_vote(bytes),
        None => Some((0, None)),
    }
}

/// A stored index and term; none is index 0 and term 0.
pub open spec fn stored_pair(contents: Map<Seq<u8>, Seq<u8>>, key: Key) -> Option<(Index, Term)> {
    match stored(contents, key.bytes()) {
        Some(bytes) => read_pair(bytes),
        None => Some((0, 0)),
    }
}

/// The stored entry at `index`.
pub open spec fn stored_entry(contents: Map<Seq<u8>, Seq<u8>>, index: Index) -> Option<EntryView> {
    match stored(contents, entry_key(index)) {
        Some(bytes) => match read_entry(bytes) {
            Some((entry, _)) => Some(entry),
            None => None,
        },
        None => None,
    }
}

/// The commit position that a log opens with: never before its snapshot.
pub open spec fn effective_commit(commit: (Index, Term), snapshot: (Index, Term)) -> (Index, Term) {
    if snapshot.0 > 0 && commit.0 < snapshot.0 {
        snapshot
    } else {
        commit
    }
}

/// `contents` is the storage of a log `view`.
#[verifier::opaque]
pub open spec fn represents(contents: Map<Seq<u8>, Seq<u8>>, view: LogView) -> bool {
    &&& view.first_index >= 1
    &&& view.last_index() <= u64::MAX
    &&& view.first_index - 1 <= view.commit_index <= view.last_index()
    &&& view.kept_term == kept(view.entries.len(), view.last_term(), view.snapshot_term)
    &&& forall|k: int|
        0 <= k < view.entries.len() ==> {
            &&& (#[trigger] view.entries[k]).index == view.first_index + k
            &&& stored_entry(contents, (view.first_index + k) as u64) == Some(view.entries[k])
        }
    &&& forall|key: Seq<u8>| #[trigger]
        contents.contains_key(key) && key.len() > 0 && key[0] == 0 ==> {
            &&& index_of_key(key) is Some
            &&& view.holds(index_of_key(key)->0)
        }
    &&& stored_term_vote(contents) == Some((view.term, view.vote))
    &&& stored_pair(contents, Key::SnapshotMeta) == Some(
        ((view.first_index - 1) as u64, view.snapshot_term),
    )
    &&& stored_pair(contents, Key::CommitIndex) matches Some(commit) && effective_commit(
        commit,
        ((view.first_index - 1) as u64, view.snapshot_term),
    ) == (view.commit_index, view.commit_term)
    &&& stored(contents, Key::SnapshotData.bytes()) == view.snapshot
}

/// `contents` holds what may not change of a log `view`: up to the commit index its
/// entries and no others, the commit index, the term and the vote.
pub open spec fn holds_committed(contents: Map<Seq<u8>, Seq<u8>>, view: LogView) -> bool {
    &&& forall|index: u64|
        view.first_index <= index <= view.commit_index ==> #[trigger] stored_entry(contents, index)
            == Some(view.at(index as int))
    &&& forall|index: u64|
        index < view.first_index ==> stored(contents, #[trigger] entry_key(index)) is None
    &&& stored_term_vote(contents) == Some((view.term, view.vote))
    &&& stored_pair(contents, Key::CommitIndex) matches Some(commit) && effective_commit(
        commit,
        ((view.first_index - 1) as u64, view.snapshot_term),
    ) == (view.commit_index, view.commit_term)
}

/// Two contents differ at most under one key.
pub open spec fn differs_at(
    before: Map<Seq<u8>, Seq<u8>>,
    after: Map<Seq<u8>, Seq<u8>>,
    key: Seq<u8>,
) -> bool {
    after.remove(key) == before.remove(key)
}

/// Two contents differ at most at the entries up to `index` and where the index of
/// the snapshot is kept.
pub open spec fn differs_up_to(
    before: Map<Seq<u8>, Seq<u8>>,
    after: Map<Seq<u8>, Seq<u8>>,
    index: Index,
) -> bool {
    forall|key: Seq<u8>|
        key != Key::SnapshotMeta.bytes() && !(index_of_key(key) matches Some(at) && at <= index)
            ==> #[trigger] stored(after, key) == stored(before, key)
}

/// The view of a log with these positions over these contents.
pub open spec fn log_view(
    contents: Map<Seq<u8>, Seq<u8>>,
    term_vote: (Term, Option<NodeID>),
    first: (Index, Term),
    last: (Index, Term),
    commit: (Index, Term),
    fsync: bool,
) -> LogView {
    let len = (last.0 + 1 - first.0) as nat;
    LogView {
        term: term_vote.0,
        vote: term_vote.1,
        first_index: first.0,
        snapshot_term: first.1,
        entries: Seq::new(len, |k: int| stored_entry(contents, (first.0 + k) as u64)->0),
        kept_term: kept(len, last.1, first.1),
        commit_index: commit.0,
        commit_term: commit.1,
        snapshot: stored(contents, Key::SnapshotData.bytes()),
        fsync,
    }
}

/// The positions that a log keeps in memory.
pub ghost struct Positions {
    pub term: Term,
    pub vote: Option<NodeID>,
    pub first_index: Index,
    pub snapshot_term: Term,
    pub last_index: Index,
    pub last_term: Term,
    pub commit_index: Index,
    pub commit_term: Term,
}

/// The range of all entry keys.
pub open spec fn is_entry_range(range: KeyRange, low: Index, high: Index) -> bool {
    &&& range.start matches Bound::Included(start) && start@ == entry_key(low)
    &&& range.end matches Bound::Included(end) && end@ == entry_key(high)
}

/// The index and term of the last of the entries stored under `keys`.
pub open spec fn stored_last(contents: Map<Seq<u8>, Seq<u8>>, keys: Seq<Seq<u8>>) -> Option<
    (Index, Term),
> {
    if keys.len() == 0 {
        Some((0u64, 0u64))
    } else {
        match read_entry(contents[keys.last()]) {
            Some((entry, _)) => Some((entry.index, entry.term)),
            None => None,
        }
    }
}

/// The index of the first of the entries stored under `keys`.
pub open spec fn stored_first(contents: Map<Seq<u8>, Seq<u8>>, keys: Seq<Seq<u8>>) -> Option<
    Index,
> {
    if keys.len() == 0 {
        Some(1)
    } else {
        match read_entry(contents[keys[0]]) {
            Some((entry, _)) => Some(entry.index),
            None => None,
        }
    }
}

/// The positions that a log opens with, from what is stored: it starts after its
/// snapshot, if there is one, and then neither ends nor commits before it.
pub open spec fn placing(
    term_vote: (Term, Option<NodeID>),
    commit: (Index, Term),
    snapshot: (Index, Term),
    last: (Index, Term),
    first: Option<Index>,
) -> Option<Positions> {
    let behind = snapshot.0 > 0 && last.0 < snapshot.0;
    let start = if snapshot.0 > 0 {
        Some((snapshot.0 + 1) as u64)
    } else if last.0 == 0 {
        Some(1u64)
    } else {
        first
    };
    match start {
        Some(first_index) => Some(
            Positions {
                term: term_vote.0,
                vote: term_vote.1,
                first_index,
                snapshot_term: snapshot.1,
                last_index: if behind {
                    snapshot.0
                } else {
                    last.0
                },
                last_term: if behind {
                    snapshot.1
                } else {
                    last.1
                },
                commit_index: effective_commit(commit, snapshot).0,
                commit_term: effective_commit(commit, snapshot).1,
            },
        ),
        None => None,
    }
}

/// The positions that a log opens with over `contents`, whose keys in the range
/// of the entries are `keys`; none where something stored cannot be decoded.
pub open spec fn opening(contents: Map<Seq<u8>, Seq<u8>>, keys: Seq<Seq<u8>>) -> Option<Positions> {
    match (
        stored_term_vote(contents),
        stored_pair(contents, Key::CommitIndex),
        stored_pair(contents, Key::SnapshotMeta),
        stored_last(contents, keys),
    ) {
        (Some(term_vote), Some(commit), Some(snapshot), Some(last)) => placing(
            term_vote,
            commit,
            snapshot,
            last,
            stored_first(contents, keys),
        ),
        _ => None,
    }
}

/// The Raft log: commands in the order in which they were proposed, of which
/// those up to the commit index are replicated to a quorum.
pub struct Log<E: Engine> {
    /// The storage engine.
    pub engine: E,
    term: Term,
    vote: Option<NodeID>,
    first_index: Index,
    snapshot_term: Term,
    last_index: Index,
    last_term: Term,
    commit_index: Index,
    commit_term: Term,
    fsync: bool,
}

impl<E: Engine> Log<E> {
    pub closed spec fn view(&self) -> LogView {
        log_view(
            self.engine.contents(),
            (self.term, self.vote),
            (self.first_index, self.snapshot_term),
            (self.last_index, self.last_term),
            (self.commit_index, self.commit_term),
            self.fsync,
        )
    }

    pub closed spec fn positions(&self) -> Positions {
        Positions {
            term: self.term,
            vote: self.vote,
            first_index: self.first_index,
            snapshot_term: self.snapshot_term,
            last_index: self.last_index,
            last_term: self.last_term,
            commit_index: self.commit_index,
            commit_term: self.commit_term,
        }
    }

    /// The storage holds the log, and the log's end is where memory has it.
    pub closed spec fn wf(&self) -> bool {
        &&& self.engine.wf()
        &&& self.first_index <= self.last_index + 1
        &&& represents(self.engine.contents(), self@)
        &&& self.last_term == self@.last_term()
    }

    /// Whether no storage operation fails.
    pub closed spec fn reliable(&self) -> bool {
        self.engine.reliable()
    }

    /// What the storage engine reports of itself.
    pub closed spec fn reported(&self) -> StatusView {
        self.engine.reported()
    }

    /// What the storage holds.
    pub closed spec fn contents(&self) -> Map<Seq<u8>, Seq<u8>> {
        self.engine.contents()
    }

    /// Whether the storage medium has everything that was written.
    pub closed spec fn is_flushed(&self) -> bool {
        self.engine.is_flushed()
    }

    /// Whether writes are flushed to the storage medium as they are made.
    pub open spec fn is_synced(&self) -> bool {
        self@.fsync
    }

    /// Whether two logs have the same storage, positions and settings.
    pub open spec fn same(&self, other: &Self) -> bool {
        &&& self.contents() == other.contents()
        &&& self.reliable() == other.reliable()
        &&& self.reported() == other.reported()
        &&& self.is_flushed() == other.is_flushed()
        &&& self.positions() == other.positions()
        &&& self.is_synced() == other.is_synced()
    }
}

proof fn lemma_range_keys(
    contents: Map<Seq<u8>, Seq<u8>>,
    view: LogView,
    range: KeyRange,
    low: Index,
    high: Index,
    keys: Seq<Seq<u8>>,
)
    requires
        represents(contents, view),
        is_entry_range(range, low, high),
        lists_keys(keys, contents, range),
    ensures
        keys.len() == view.slice(low as int, high as int).len(),
        forall|k: int|
            0 <= k < keys.len() ==> {
                let index = if low < view.first_index { view.first_index + k } else { low + k };
                &&& #[trigger] keys[k] == entry_key(index as u64)
                &&& view.holds(index)
                &&& view.slice(low as int, high as int)[k] == view.at(index)
                &&& read_entry(contents[keys[k]]) matches Some((entry, _)) && entry == view.at(
                    index,
                )
            },
{
    reveal(represents);
    let from: int = if low < view.first_index { view.first_index as int } else { low as int };
    let slice = view.slice(low as int, high as int);
    let expected = Seq::new(slice.len(), |k: int| entry_key((from + k) as u64));
    assert forall|k: int| 0 <= k < slice.len() implies view.holds(from + k) && low <= from + k
        <= high && slice[k] == view.at(from + k) by {}
    assert forall|i: int, j: int| 0 <= i < j < expected.len() implies lex_lt(
        #[trigger] expected[i],
        #[trigger] expected[j],
    ) by {
        key_order((from + i) as u64, (from + j) as u64, Key::TermVote);
    }
    assert forall|k: int| 0 <= k < keys.len() implies expected.contains(#[trigger] keys[k]) by {
        let key = keys[k];
        lemma_between_entry_keys(key, low, high);
        lemma_key_of_index(key);
        let index = index_of_key(key)->0 as u64;
        key_order(low, index, Key::TermVote);
        key_order(index, high, Key::TermVote);
        lex_irreflexive(entry_key(low));
        assert(expected[index - from] == key);
    }
    assert forall|k: int| 0 <= k < expected.len() implies keys.contains(#[trigger] expected[k]) by {
        let index = (from + k) as u64;
        assert(view.entries[index - view.first_index].index == index);
        key_order(low, index, Key::TermVote);
        key_order(index, high, Key::TermVote);
        assert(contents.contains_key(entry_key(index)));
        assert(range.admits(entry_key(index)));
    }
    lex_ascending_unique(keys, expected);
    assert forall|k: int| 0 <= k < keys.len() implies ({
        &&& #[trigger] keys[k] == entry_key((from + k) as u64)
        &&& read_entry(contents[keys[k]]) matches Some((entry, _)) && entry == view.at(from + k)
    }) by {
        assert(keys[k] == expected[k]);
        assert(view.entries[from + k - view.first_index].index == from + k);
    }
}

/// The keys that start with the byte 0 are those of the entries.
proof fn lemma_entry_keys(
    contents: Map<Seq<u8>, Seq<u8>>,
    view: LogView,
    range: KeyRange,
    keys: Seq<Seq<u8>>,
)
    requires
        represents(contents, view),
        lists_keys(keys, contents, range),
        forall|key: Seq<u8>| #[trigger] range.admits(key) == seq![0u8].is_prefix_of(key),
    ensures
        keys.len() == view.entries.len(),
        forall|k: int|
            0 <= k < keys.len() ==> #[trigger] keys[k] == entry_key((view.first_index + k) as u64),
{
    reveal(represents);
    let first = view.first_index;
    let expected = Seq::new(view.entries.len(), |k: int| entry_key((first + k) as u64));
    assert forall|i: int, j: int| 0 <= i < j < expected.len() implies lex_lt(
        #[trigger] expected[i],
        #[trigger] expected[j],
    ) by {
        key_order((first + i) as u64, (first + j) as u64, Key::TermVote);
    }
    assert forall|k: int| 0 <= k < keys.len() implies expected.contains(#[trigger] keys[k]) by {
        let key = keys[k];
        assert(seq![0u8].is_prefix_of(key));
        assert(key[0] == seq![0u8][0]);
        lemma_key_of_index(key);
        let index = index_of_key(key)->0;
        assert(expected[index - first] == key);
    }
    assert forall|k: int| 0 <= k < expected.len() implies keys.contains(#[trigger] expected[k]) by {
        let index = (first + k) as u64;
        assert(view.entries[k].index == index);
        lemma_index_of_key(index);
        assert(contents.contains_key(entry_key(index)));
        assert(entry_key(index).take(1) =~= seq![0u8]);
        assert(seq![0u8].is_prefix_of(entry_key(index)));
        assert(range.admits(entry_key(index)));
    }
    lex_ascending_unique(keys, expected);
}

/// A key between two entry keys starts with the byte 0.
proof fn lemma_between_entry_keys(key: Seq<u8>, low: Index, high: Index)
    requires
        lex_le(entry_key(low), key),
        lex_le(key, entry_key(high)),
    ensures
        key.len() > 0,
        key[0] == 0,
{
    lemma_index_of_key(low);
    lemma_index_of_key(high);
}

/// A log opened over its own storage has the positions that it had, but for a last
/// term that only memory had.
pub proof fn reopening(
    contents: Map<Seq<u8>, Seq<u8>>,
    view: LogView,
    range: KeyRange,
    keys: Seq<Seq<u8>>,
)
    requires
        represents(contents, view),
        is_entry_range(range, 0, u64::MAX),
        lists_keys(keys, contents, range),
    ensures
        represents(contents, view.reopened()),
        opening(contents, keys) == Some(
            Positions {
                term: view.term,
                vote: view.vote,
                first_index: view.first_index,
                snapshot_term: view.snapshot_term,
                last_index: view.last_index() as u64,
                last_term: view.reopened().last_term(),
                commit_index: view.commit_index,
                commit_term: view.commit_term,
            },
        ),
        0 <= view.first_index - 1 <= view.last_index() <= u64::MAX,
{
    reveal(represents);
    lemma_range_keys(contents, view, range, 0, u64::MAX, keys);
    assert(view.slice(0, u64::MAX as int) =~= view.entries);
    if keys.len() > 0 {
        assert(keys.last() == keys[keys.len() - 1]);
        assert(keys[0] == entry_key(view.first_index));
    }
    let again = view.reopened();
    assert forall|k: int| 0 <= k < again.entries.len() implies ({
        &&& (#[trigger] again.entries[k]).index == again.first_index + k
        &&& stored_entry(contents, (again.first_index + k) as u64) == Some(again.entries[k])
    }) by {
        assert(view.entries[k].index == view.first_index + k);
    }
}

/// `after` differs from `before` at most at entries from `low` on.
pub open spec fn same_but_entries_from(
    before: Map<Seq<u8>, Seq<u8>>,
    after: Map<Seq<u8>, Seq<u8>>,
    low: int,
) -> bool {
    forall|key: Seq<u8>|
        !(index_of_key(key) is Some && index_of_key(key)->0 >= low) ==> {
            &&& #[trigger] after.contains_key(key) == before.contains_key(key)
            &&& before.contains_key(key) ==> after[key] == before[key]
        }
}

/// Replacing the entries from `low` on.
proof fn lemma_replace_tail(
    before: Map<Seq<u8>, Seq<u8>>,
    view: LogView,
    after: Map<Seq<u8>, Seq<u8>>,
    low: int,
    tail: Seq<EntryView>,
)
    requires
        represents(before, view),
        view.first_index <= low <= view.last_index() + 1,
        view.commit_index < low,
        tail.len() > 0,
        low + tail.len() - 1 <= u64::MAX,
        same_but_entries_from(before, after, low),
        forall|k: int|
            0 <= k < tail.len() ==> {
                &&& (#[trigger] tail[k]).index == low + k
                &&& stored_entry(after, (low + k) as u64) == Some(tail[k])
            },
        forall|index: u64|
            index >= low + tail.len() ==> !after.contains_key(#[trigger] entry_key(index)),
    ensures
        represents(
            after,
            LogView {
                entries: view.entries.take(low - view.first_index) + tail,
                kept_term: None,
                ..view
            },
        ),
{
    reveal(represents);
    let new = LogView {
        entries: view.entries.take(low - view.first_index) + tail,
        kept_term: None,
        ..view
    };
    assert forall|k: int| 0 <= k < new.entries.len() implies ({
        &&& (#[trigger] new.entries[k]).index == new.first_index + k
        &&& stored_entry(after, (new.first_index + k) as u64) == Some(new.entries[k])
    }) by {
        let index = new.first_index + k;
        if index < low {
            assert(new.entries[k] == view.entries[k]);
            lemma_index_of_key(index as u64);
        } else {
            assert(new.entries[k] == tail[index - low]);
        }
    }
    assert forall|key: Seq<u8>| #[trigger]
        after.contains_key(key) && key.len() > 0 && key[0] == 0 implies index_of_key(key) is Some
        && new.holds(index_of_key(key)->0) by {
        if index_of_key(key) is Some && index_of_key(key)->0 >= low {
            lemma_key_of_index(key);
            let index = index_of_key(key)->0 as u64;
            assert(key == entry_key(index));
        } else {
            assert(before.contains_key(key));
        }
    }
    assert(index_of_key(Key::TermVote.bytes()) is None);
    assert(index_of_key(Key::CommitIndex.bytes()) is None);
    assert(index_of_key(Key::SnapshotMeta.bytes()) is None);
    assert(index_of_key(Key::SnapshotData.bytes()) is None);
}

/// The log that storage represents is the one seen through it.
proof fn lemma_log_view(contents: Map<Seq<u8>, Seq<u8>>, view: LogView)
    requires
        represents(contents, view),
    ensures
        log_view(
            contents,
            (view.term, view.vote),
            (view.first_index, view.snapshot_term),
            (view.last_index() as u64, view.last_term()),
            (view.commit_index, view.commit_term),
            view.fsync,
        ) == view,
{
    reveal(represents);
    let seen = log_view(
        contents,
        (view.term, view.vote),
        (view.first_index, view.snapshot_term),
        (view.last_index() as u64, view.last_term()),
        (view.commit_index, view.commit_term),
        view.fsync,
    );
    assert forall|k: int| 0 <= k < view.entries.len() implies seen.entries[k]
        == view.entries[k] by {
        assert(view.entries[k].index == view.first_index + k);
    }
    assert(seen.entries =~= view.entries);
}

/// Writing a metadata key leaves the entries as they are.
proof fn lemma_meta_write(contents: Map<Seq<u8>, Seq<u8>>, key: Key, value: Seq<u8>)
    requires
        !(key is Entry),
    ensures
        forall|index: u64|
            #![trigger stored_entry(contents.insert(key.bytes(), value), index)]
            stored_entry(contents.insert(key.bytes(), value), index) == stored_entry(
                contents,
                index,
            ),
        key.bytes().len() == 1,
        key.bytes()[0] != 0,
        stored(contents.insert(key.bytes(), value), key.bytes()) == Some(value),
        forall|other: Key|
            #![trigger stored(contents.insert(key.bytes(), value), other.bytes())]
            !(other is Entry) && other != key ==> stored(
                contents.insert(key.bytes(), value),
                other.bytes(),
            ) == stored(contents, other.bytes()),
{
    assert forall|index: u64|
        #![trigger stored_entry(contents.insert(key.bytes(), value), index)]
        stored_entry(contents.insert(key.bytes(), value), index) == stored_entry(
            contents,
            index,
        ) by {
        lemma_index_of_key(index);
    }
    assert forall|other: Key|
        #![trigger stored(contents.insert(key.bytes(), value), other.bytes())]
        !(other is Entry) && other != key implies stored(
        contents.insert(key.bytes(), value),
        other.bytes(),
    ) == stored(contents, other.bytes()) by {
        assert(other.bytes()[0] != key.bytes()[0]);
    }
}

/// The entries of a scan that are still to come.
pub struct Iterator {
    pub items: VecDeque<ScanItem>,
}

/// `items` are the stored forms of `entries`, except where reading one failed.
pub open spec fn reads_entries(items: Seq<ScanItem>, entries: Seq<EntryView>) -> bool {
    &&& items.len() == entries.len()
    &&& forall|k: int|
        0 <= k < items.len() ==> match #[trigger] items[k] {
            Ok((_, value)) => read_entry(value@) matches Some((entry, _)) && entry == entries[k],
            Err(_) => true,
        }
}

impl Iterator {
    fn new(items: Vec<ScanItem>) -> (r: Iterator)
        ensures
            r.items@ == items@,
    {
        let mut queue: VecDeque<ScanItem> = VecDeque::new();
        let mut rest = items;
        let ghost all = rest@;
        let mut reversed: Vec<ScanItem> = Vec::new();
        while rest.len() > 0
            invariant
                all.len() == rest@.len() + reversed@.len(),
                rest@ == all.take(rest@.len() as int),
                reversed@ == all.skip(rest@.len() as int).reverse(),
            decreases rest@.len(),
        {
            match rest.pop() {
                Some(item) => {
                    reversed.push(item);
                    assert(rest@ =~= all.take(rest@.len() as int));
                    assert(reversed@ =~= all.skip(rest@.len() as int).reverse());
                },
                None => {},
            }
        }
        assert(all.skip(0) =~= all);
        assert(reversed@ =~= all.reverse());
        while reversed.len() > 0
            invariant
                all.len() == reversed@.len() + queue@.len(),
                reversed@ == all.skip(queue@.len() as int).reverse(),
                queue@ == all.take(queue@.len() as int),
            decreases reversed@.len(),
        {
            let ghost n = queue@.len() as int;
            match reversed.pop() {
                Some(item) => {
                    assert(item == all[n]);
                    queue.push_back(item);
                    assert(queue@ =~= all.take(n + 1));
                    assert(reversed@ =~= all.skip(n + 1).reverse());
                },
                None => {},
            }
        }
        assert(queue@ =~= all);
        Iterator { items: queue }
    }

    /// The next entry, or the failure to read or decode it.
    pub fn next(&mut self) -> (r: Option<Result<Entry>>)
        ensures
            match r {
                None => old(self).items@.len() == 0 && final(self).items@.len() == 0,
                Some(next) => {
                    &&& old(self).items@.len() > 0
                    &&& final(self).items@ == old(self).items@.skip(1)
                    &&& match (old(self).items@[0], next) {
                        (Ok((_, value)), Ok(entry)) => read_entry(value@) matches Some((read, _))
                            && entry@ == read,
                        (Ok((_, value)), Err(e)) => read_entry(value@) is None && e@
                            == ErrorView::InvalidData,
                        (Err(e), Err(f)) => e == f,
                        (Err(_), Ok(_)) => false,
                    }
                },
            },
    {
        match self.items.pop_front() {
            None => None,
            Some(item) => {
                assert(self.items@ =~= old(self).items@.skip(1));
                match item {
                    Ok((_, value)) => Some(Entry::decode(value.as_slice())),
                    Err(e) => Some(Err(e)),
                }
            },
        }
    }
}

/// The range of the keys of the entries from `low` to `high`.
fn entry_range(low: Index, high: Index) -> (r: KeyRange)
    ensures
        is_entry_range(r, low, high),
{
    KeyRange {
        start: Bound::Included(Key::Entry(low).encode()),
        end: Bound::Included(Key::Entry(high).encode()),
    }
}

/// One end of a range of indexes.
#[derive(Clone, Copy, Debug, PartialEq)]
pub enum IndexBound {
    Included(Index),
    Excluded(Index),
    Unbounded,
}

/// The first index of a range.
pub open spec fn range_low(start: IndexBound) -> Index {
    match start {
        IndexBound::Included(index) => index,
        IndexBound::Excluded(index) => if index < u64::MAX {
            (index + 1) as u64
        } else {
            u64::MAX
        },
        IndexBound::Unbounded => 0,
    }
}

/// The last index of a range.
pub open spec fn range_high(end: IndexBound) -> Index {
    match end {
        IndexBound::Included(index) => index,
        IndexBound::Excluded(index) => if index > 0 {
            (index - 1) as u64
        } else {
            0
        },
        IndexBound::Unbounded => u64::MAX,
    }
}

/// `r` is the index and term of the last stored entry and the index of the first
/// one, as far as they could be read.
spec fn loads_ends(
    contents: Map<Seq<u8>, Seq<u8>>,
    reliable: bool,
    keys: Seq<Seq<u8>>,
    range: KeyRange,
    r: Result<((Index, Term), Result<Index>)>,
) -> bool {
    &&& lists_keys(keys, contents, range)
    &&& is_entry_range(range, 0, u64::MAX)
    &&& match r {
        Ok((last, first)) => {
            &&& stored_last(contents, keys) == Some(last)
            &&& match first {
                Ok(index) => stored_first(contents, keys) == Some(index),
                Err(_) => !reliable || stored_first(contents, keys) is None,
            }
        },
        Err(_) => !reliable || stored_last(contents, keys) is None,
    }
}

/// `opened` are the positions that a log opens with over `contents`; none where
/// storage failed or something stored cannot be decoded.
pub open spec fn opens(
    contents: Map<Seq<u8>, Seq<u8>>,
    reliable: bool,
    keys: Seq<Seq<u8>>,
    range: KeyRange,
    opened: Option<Positions>,
) -> bool {
    &&& lists_keys(keys, contents, range)
    &&& is_entry_range(range, 0, u64::MAX)
    &&& match opened {
        Some(positions) => opening(contents, keys) == Some(positions),
        None => !reliable || opening(contents, keys) is None,
    }
}

/// The storage holds the entries of a log under their keys, and no others.
pub open spec fn is_stored(contents: Map<Seq<u8>, Seq<u8>>, view: LogView) -> bool {
    &&& forall|k: int|
        0 <= k < view.entries.len() ==> {
            &&& (#[trigger] view.entries[k]).index == view.first_index + k
            &&& stored_entry(contents, (view.first_index + k) as u64) == Some(view.entries[k])
        }
    &&& forall|key: Seq<u8>| #[trigger]
        contents.contains_key(key) && key.len() > 0 && key[0] == 0 ==> {
            &&& index_of_key(key) is Some
            &&& view.holds(index_of_key(key)->0)
        }
}

/// The entry at position `k` is stored under the key listed there.
spec fn is_held(
    contents: Map<Seq<u8>, Seq<u8>>,
    view: LogView,
    keys: Seq<Seq<u8>>,
    k: int,
) -> bool {
    &&& keys[k] == entry_key((view.first_index + k) as u64)
    &&& view.entries[k].index == view.first_index + k
    &&& stored_entry(contents, (view.first_index + k) as u64) == Some(view.entries[k])
}

proof fn lemma_stored_entries(
    contents: Map<Seq<u8>, Seq<u8>>,
    view: LogView,
    range: KeyRange,
    keys: Seq<Seq<u8>>,
)
    requires
        lists_keys(keys, contents, range),
        forall|key: Seq<u8>| #[trigger] range.admits(key) == seq![0u8].is_prefix_of(key),
        keys.len() == view.entries.len(),
        view.first_index + keys.len() <= u64::MAX + 1,
        forall|k: int| 0 <= k < keys.len() ==> #[trigger] is_held(contents, view, keys, k),
    ensures
        is_stored(contents, view),
{
    assert forall|k: int| 0 <= k < view.entries.len() implies ({
        &&& (#[trigger] view.entries[k]).index == view.first_index + k
        &&& stored_entry(contents, (view.first_index + k) as u64) == Some(view.entries[k])
    }) by {
        assert(is_held(contents, view, keys, k));
    }
    assert forall|key: Seq<u8>| #[trigger]
        contents.contains_key(key) && key.len() > 0 && key[0] == 0 implies index_of_key(
        key,
    ) is Some && view.holds(index_of_key(key)->0) by {
        assert(key.take(1) =~= seq![0u8]);
        assert(seq![0u8].is_prefix_of(key));
        assert(range.admits(key));
        let k = choose|k: int| 0 <= k < keys.len() && keys[k] == key;
        assert(is_held(contents, view, keys, k));
        lemma_index_of_key((view.first_index + k) as u64);
    }
}

impl<E: Engine> Log<E> {
    /// Reads a stored index and term.
    fn load_pair(engine: &mut E, key: Key) -> (r: Result<(Index, Term)>)
        requires
            old(engine).wf(),
        ensures
            final(engine).wf(),
            final(engine).reliable() == old(engine).reliable(),
            final(engine).reported() == old(engine).reported(),
            final(engine).contents() == old(engine).contents(),
            final(engine).is_flushed() == old(engine).is_flushed(),
            match r {
                Ok(pair) => stored_pair(old(engine).contents(), key) == Some(pair),
                Err(_) => !old(engine).reliable() || stored_pair(old(engine).contents(), key) is None,
            },
    {
        match engine.get(key.encode().as_slice()) {
            Ok(Some(bytes)) => decode_pair(bytes.as_slice()),
            Ok(None) => Ok((0, 0)),
            Err(e) => Err(e),
        }
    }

    /// Reads the stored term and vote.
    fn load_term_vote(engine: &mut E) -> (r: Result<(Term, Option<NodeID>)>)
        requires
            old(engine).wf(),
        ensures
            final(engine).wf(),
            final(engine).reliable() == old(engine).reliable(),
            final(engine).reported() == old(engine).reported(),
            final(engine).contents() == old(engine).contents(),
            final(engine).is_flushed() == old(engine).is_flushed(),
            match r {
                Ok(pair) => stored_term_vote(old(engine).contents()) == Some(pair),
                Err(_) => !old(engine).reliable() || stored_term_vote(
                    old(engine).contents(),
                ) is None,
            },
    {
        match engine.get(Key::TermVote.encode().as_slice()) {
            Ok(Some(bytes)) => decode_term_vote(bytes.as_slice()),
            Ok(None) => Ok((0, None)),
            Err(e) => Err(e),
        }
    }

    /// The index and term of the last stored entry and the index of the first.
    fn load_ends(engine: &mut E) -> (r: Result<((Index, Term), Result<Index>)>)
        requires
            old(engine).wf(),
        ensures
            final(engine).wf(),
            final(engine).reliable() == old(engine).reliable(),
            final(engine).reported() == old(engine).reported(),
            final(engine).contents() == old(engine).contents(),
            final(engine).is_flushed() == old(engine).is_flushed(),
            exists|keys: Seq<Seq<u8>>, range: KeyRange| #[trigger]
                loads_ends(old(engine).contents(), old(engine).reliable(), keys, range, r),
    {
        let range = entry_range(0, u64::MAX);
        let ghost contents = engine.contents();
        let items = engine.scan(&range);
        let ghost keys = choose|keys: Seq<Seq<u8>>| #[trigger]
            lists_keys(keys, contents, range) && reads_pairs(items@, keys, contents);
        let n = items.len();
        if n == 0 {
            let none: Result<((Index, Term), Result<Index>)> = Ok(((0, 0), Ok(1)));
            assert(loads_ends(contents, engine.reliable(), keys, range, none));
            return none;
        }
        assert(keys.last() == keys[n - 1]);
        let last = match &items[n - 1] {
            Ok((_, value)) => match Entry::decode(value.as_slice()) {
                Ok(entry) => (entry.index, entry.term),
                Err(e) => {
                    let failed: Result<((Index, Term), Result<Index>)> = Err(e);
                    assert(loads_ends(contents, engine.reliable(), keys, range, failed));
                    return failed;
                },
            },
            Err(e) => {
                let failed: Result<((Index, Term), Result<Index>)> = Err(e.duplicate());
                assert(loads_ends(contents, engine.reliable(), keys, range, failed));
                return failed;
            },
        };
        let first = match &items[0] {
            Ok((_, value)) => match Entry::decode(value.as_slice()) {
                Ok(entry) => Ok(entry.index),
                Err(e) => Err(e),
            },
            Err(e) => Err(e.duplicate()),
        };
        let ends: Result<((Index, Term), Result<Index>)> = Ok((last, first));
        assert(loads_ends(contents, engine.reliable(), keys, range, ends));
        ends
    }

    /// The log at the positions that follow from what is stored.
    fn place(
        engine: E,
        term_vote: (Term, Option<NodeID>),
        commit: (Index, Term),
        snapshot: (Index, Term),
        last: (Index, Term),
        first: Result<Index>,
    ) -> (r: Result<Log<E>>)
        requires
            snapshot.0 < u64::MAX,
        ensures
            ({
                let first = match first {
                    Ok(index) => Some(index),
                    Err(_) => None,
                };
                match r {
                    Ok(log) => log.engine == engine && log.fsync && placing(
                        term_vote,
                        commit,
                        snapshot,
                        last,
                        first,
                    ) == Some(log.positions()),
                    Err(_) => first is None && placing(
                        term_vote,
                        commit,
                        snapshot,
                        last,
                        first,
                    ) is None,
                }
            }),
    {
        let (term, vote) = term_vote;
        let (mut last_index, mut last_term) = last;
        let (mut commit_index, mut commit_term) = commit;
        let (snap_index, snapshot_term) = snapshot;
        let first_index: Index = if snap_index > 0 {
            snap_index + 1
        } else if last_index == 0 {
            1
        } else {
            match first {
                Ok(index) => index,
                Err(e) => return Err(e),
            }
        };
        if snap_index > 0 {
            if last_index < snap_index {
                last_index = snap_index;
                last_term = snapshot_term;
            }
            if commit_index < snap_index {
                commit_index = snap_index;
                commit_term = snapshot_term;
            }
        }
        Ok(
            Log {
                engine,
                term,
                vote,
                first_index,
                snapshot_term,
                last_index,
                last_term,
                commit_index,
                commit_term,
                fsync: true,
            },
        )
    }

    /// The positions of a log that could be opened.
    pub open spec fn opened(r: Result<Log<E>>) -> Option<Positions> {
        match r {
            Ok(log) => Some(log.positions()),
            Err(_) => None,
        }
    }

    /// Opens a log over a storage engine.
    ///
    /// Over the storage of a well-formed log this is that log again.
    pub fn new(engine: E) -> (r: Result<Log<E>>)
        requires
            engine.wf(),
            stored_pair(engine.contents(), Key::SnapshotMeta) matches Some((index, _)) ==> index
                < u64::MAX,
        ensures
            exists|keys: Seq<Seq<u8>>, range: KeyRange| #[trigger]
                opens(
                    engine.contents(),
                    engine.reliable(),
                    keys,
                    range,
                    Self::opened(r),
                ),
            r matches Ok(log) ==> {
                &&& log.is_open()
                &&& log.is_synced()
                &&& log.contents() == engine.contents()
                &&& log.reliable() == engine.reliable()
                &&& forall|view: LogView| #[trigger]
                    represents(engine.contents(), view) ==> log.wf()
                        && log@ == view.reopened()
            },
            engine.reliable() && (exists|view: LogView| #[trigger]
                represents(engine.contents(), view)) ==> r is Ok,
    {
        let mut engine = engine;
        let ghost contents = engine.contents();
        let ghost reliable = engine.reliable();
        let term_vote = Self::load_term_vote(&mut engine);
        let ends = Self::load_ends(&mut engine);
        let ghost (keys, range) = choose|keys: Seq<Seq<u8>>, range: KeyRange| #[trigger]
            loads_ends(contents, reliable, keys, range, ends);
        let commit = Self::load_pair(&mut engine, Key::CommitIndex);
        let snapshot = Self::load_pair(&mut engine, Key::SnapshotMeta);
        proof {
            assert forall|view: LogView| #[trigger]
                represents(contents, view) implies opening(
                contents,
                keys,
            ) == Some(
                Positions {
                    term: view.term,
                    vote: view.vote,
                    first_index: view.first_index,
                    snapshot_term: view.snapshot_term,
                    last_index: view.last_index() as u64,
                    last_term: view.reopened().last_term(),
                    commit_index: view.commit_index,
                    commit_term: view.commit_term,
                },
            ) by {
                reopening(contents, view, range, keys);
            }
        }
        assert(opening(contents, keys) is None || !reliable ==> opens(
            contents,
            reliable,
            keys,
            range,
            None,
        ));
        let term_vote = match term_vote {
            Ok(pair) => pair,
            Err(e) => return Err(e),
        };
        let (last, first) = match ends {
            Ok(ends) => ends,
            Err(e) => return Err(e),
        };
        let commit = match commit {
            Ok(pair) => pair,
            Err(e) => return Err(e),
        };
        let snapshot = match snapshot {
            Ok(pair) => pair,
            Err(e) => return Err(e),
        };
        let log = match Self::place(engine, term_vote, commit, snapshot, last, first) {
            Ok(log) => log,
            Err(e) => return Err(e),
        };
        proof {
            assert(opens(contents, reliable, keys, range, Some(log.positions())));
            assert forall|view: LogView| #[trigger]
                represents(contents, view) implies log.wf() && log@
                == view.reopened() by {
                reopening(contents, view, range, keys);
                lemma_log_view(contents, view.reopened());
            }
        }
        Ok(log)
    }

    /// The engine can be used, whatever the storage holds.
    pub closed spec fn is_open(&self) -> bool {
        self.engine.wf()
    }

    /// Opens a log over a storage engine of which nothing is known. It is none if
    /// the storage is not that of a log.
    pub fn open(engine: E) -> (r: Result<Option<Log<E>>>)
        requires
            engine.wf(),
        ensures
            r matches Ok(Some(log)) ==> {
                &&& log.wf()
                &&& log.is_synced()
                &&& log.contents() == engine.contents()
                &&& log.reliable() == engine.reliable()
            },
            forall|view: LogView| #[trigger]
                represents(engine.contents(), view) && engine.reliable()
                    ==> (r matches Ok(Some(log)) && log@ == view.reopened()),
    {
        let mut engine = engine;
        let ghost contents = engine.contents();
        let snapshot = Self::load_pair(&mut engine, Key::SnapshotMeta);
        proof {
            reveal(represents);
        }
        match snapshot {
            Ok((index, _)) => {
                if index == u64::MAX {
                    return Ok(None);
                }
            },
            Err(e) => return Err(e),
        }
        let mut log = match Self::new(engine) {
            Ok(log) => log,
            Err(e) => return Err(e),
        };
        match log.is_sound() {
            Ok(true) => Ok(Some(log)),
            Ok(false) => Ok(None),
            Err(e) => Err(e),
        }
    }

    /// Whether the log is well formed: whether its storage holds the entries from
    /// the first to the last, no others, and the positions that the log has.
    ///
    /// A log that was opened over the storage of a well-formed log is. This tells
    /// where nothing is known of the storage. It fails where storage fails or
    /// something stored cannot be decoded.
    pub fn is_sound(&mut self) -> (r: Result<bool>)
        requires
            old(self).is_open(),
        ensures
            final(self).is_open(),
            final(self).same(old(self)),
            final(self).reported() == old(self).reported(),
            final(self)@ == old(self)@,
            final(self).reliable() == old(self).reliable(),
            match r {
                Ok(sound) => sound == old(self).wf() && sound == final(self).wf(),
                Err(_) => !old(self).reliable() || !old(self).wf(),
            },
    {
        let ghost view = self@;
        let ghost contents = self.engine.contents();
        proof {
            reveal(represents);
        }
        if self.first_index == 0 || self.first_index - 1 > self.last_index || self.commit_index
            < self.first_index - 1 || self.commit_index > self.last_index {
            return Ok(false);
        }
        match Self::load_term_vote(&mut self.engine) {
            Ok((term, vote)) => {
                let same_vote = match (vote, self.vote) {
                    (Some(a), Some(b)) => a == b,
                    (None, None) => true,
                    _ => false,
                };
                if term != self.term || !same_vote {
                    return Ok(false);
                }
            },
            Err(e) => return Err(e),
        }
        let snapshot = match Self::load_pair(&mut self.engine, Key::SnapshotMeta) {
            Ok(pair) => pair,
            Err(e) => return Err(e),
        };
        if snapshot.0 != self.first_index - 1 || snapshot.1 != self.snapshot_term {
            return Ok(false);
        }
        let commit = match Self::load_pair(&mut self.engine, Key::CommitIndex) {
            Ok(pair) => pair,
            Err(e) => return Err(e),
        };
        let commit = if snapshot.0 > 0 && commit.0 < snapshot.0 {
            snapshot
        } else {
            commit
        };
        if commit.0 != self.commit_index || commit.1 != self.commit_term {
            return Ok(false);
        }
        match self.holds_entries() {
            Ok((true, last_term)) => Ok(last_term == self.last_term),
            Ok((false, _)) => Ok(false),
            Err(e) => Err(e),
        }
    }

    /// Whether the storage holds the entries from the first to the last and no
    /// others, and the term of the last, or the last term if there is none.
    fn holds_entries(&mut self) -> (r: Result<(bool, Term)>)
        requires
            old(self).is_open(),
            old(self).first_index >= 1,
            old(self).first_index - 1 <= old(self).last_index,
        ensures
            final(self).is_open(),
            final(self).same(old(self)),
            final(self).reported() == old(self).reported(),
            final(self)@ == old(self)@,
            final(self).reliable() == old(self).reliable(),
            match r {
                Ok((holds, last_term)) => {
                    &&& holds ==> last_term == old(self)@.last_term() && is_stored(
                        old(self).contents(),
                        old(self)@,
                    )
                    &&& !holds ==> !represents(old(self).contents(), old(self)@)
                },
                Err(_) => !old(self).reliable() || !represents(old(self).contents(), old(self)@),
            },
    {
        let ghost view = self@;
        let ghost contents = self.engine.contents();
        let ghost reliable = self.engine.reliable();
        let first = self.first_index;
        let items = self.engine.scan_prefix(&[0]);
        let ghost (keys, range) = choose|keys: Seq<Seq<u8>>, range: KeyRange| #[trigger]
            lists_keys(keys, contents, range) && reads_pairs(items@, keys, contents)
                && forall|key: Seq<u8>| #[trigger]
                range.admits(key) == seq![0u8].is_prefix_of(key);
        let total = items.len();
        proof {
            if represents(contents, view) {
                lemma_entry_keys(contents, view, range, keys);
            }
        }
        let mut last_term = self.last_term;
        if total as u64 != self.last_index - (first - 1) {
            return Ok((false, last_term));
        }
        let mut k: usize = 0;
        while k < total
            invariant
                k <= total,
                total == items@.len(),
                total == view.entries.len(),
                first == view.first_index,
                first + total <= u64::MAX + 1,
                items@.len() == keys.len(),
                reads_pairs(items@, keys, contents),
                reliable ==> forall|i: int| 0 <= i < items@.len() ==> #[trigger] items@[i] is Ok,
                represents(contents, view) ==> forall|i: int|
                    0 <= i < keys.len() ==> #[trigger] keys[i] == entry_key(
                        (view.first_index + i) as u64,
                    ),
                lists_keys(keys, contents, range),
                forall|i: int| 0 <= i < k ==> #[trigger] is_held(contents, view, keys, i),
                last_term == if k == 0 {
                    self.last_term
                } else {
                    view.entries[k - 1].term
                },
                view == self@,
                contents == self.engine.contents(),
                reliable == self.engine.reliable(),
                self.is_open(),
                self.same(old(self)),
                self@ == old(self)@,
                forall|i: int|
                    0 <= i < view.entries.len() ==> #[trigger] view.entries[i] == stored_entry(
                        contents,
                        (first + i) as u64,
                    )->0,
            decreases total - k,
        {
            let index = first + k as u64;
            let (key, value) = match &items[k] {
                Ok(pair) => (&pair.0, &pair.1),
                Err(e) => return Err(e.duplicate()),
            };
            let expected = Key::Entry(index).encode();
            if !same_bytes(key.as_slice(), expected.as_slice()) {
                return Ok((false, last_term));
            }
            proof {
                assert(contents.contains_key(keys[k as int]));
                assert(stored(contents, entry_key(index)) == Some(value@));
            }
            let entry = match Entry::decode(value.as_slice()) {
                Ok(entry) => entry,
                Err(e) => {
                    proof {
                        if represents(contents, view) {
                            reveal(represents);
                            assert(view.entries[k as int].index == first + k);
                        }
                    }
                    return Err(e);
                },
            };
            if entry.index != index {
                proof {
                    if represents(contents, view) {
                        reveal(represents);
                        assert(view.entries[k as int].index == first + k);
                    }
                }
                return Ok((false, last_term));
            }
            last_term = entry.term;
            assert(view.entries[k as int] == entry@);
            assert(is_held(contents, view, keys, k as int));
            k = k + 1;
        }
        proof {
            lemma_stored_entries(contents, view, range, keys);
        }
        Ok((true, last_term))
    }

    /// The storage engine.
    pub fn engine(&self) -> (r: &E)
        ensures
            self.wf() ==> r.wf(),
            r.contents() == self.contents(),
            r.reliable() == self.reliable(),
            r.is_flushed() == self.is_flushed(),
    {
        &self.engine
    }

    /// Hands back the storage engine.
    pub fn into_engine(self) -> (r: E)
        requires
            self.wf(),
        ensures
            r.wf(),
            r.contents() == self.contents(),
            r.reliable() == self.reliable(),
            r.is_flushed() == self.is_flushed(),
            represents(r.contents(), self@),
            stored_pair(r.contents(), Key::SnapshotMeta) matches Some((index, _)) && index
                < u64::MAX,
    {
        proof {
            reveal(represents);
        }
        self.engine
    }

    /// The storage of a well-formed log is that of the log: opened again, it gives
    /// the same log, as [`Self::new`] says.
    pub proof fn storage_represents(&self)
        requires
            self.wf(),
        ensures
            self.is_open(),
            represents(self.contents(), self@),
    {
    }

    /// The index of the first entry that was not compacted away.
    pub fn get_first_index(&self) -> (r: Index)
        ensures
            r == self@.first_index,
            r == self.positions().first_index,
            self.wf() ==> r >= 1,
    {
        proof {
            if self.wf() {
                self.lemma_bounds();
            }
        }
        self.first_index
    }

    /// The index and term of the snapshot, or zeros if there is none.
    pub fn get_snapshot_meta(&self) -> (r: (Index, Term))
        ensures
            r == self@.snapshot_meta(),
    {
        if self.first_index <= 1 {
            (0, 0)
        } else {
            (self.first_index - 1, self.snapshot_term)
        }
    }

    /// Whether writes are flushed to the storage medium as they are made. Terms
    /// and votes always are.
    pub fn enable_fsync(&mut self, fsync: bool)
        requires
            old(self).wf(),
        ensures
            final(self).wf(),
            final(self).is_synced() == fsync,
            final(self)@ == (LogView { fsync, ..old(self)@ }),
            final(self).contents() == old(self).contents(),
            final(self).positions() == old(self).positions(),
            final(self).reliable() == old(self).reliable(),
            final(self).reported() == old(self).reported(),
            final(self).is_flushed() == old(self).is_flushed(),
    {
        self.fsync = fsync;
        proof {
            reveal(represents);
        }
    }

    /// The index and term of the last committed entry.
    pub fn get_commit_index(&self) -> (r: (Index, Term))
        ensures
            r == (self@.commit_index, self@.commit_term),
            r == (self.positions().commit_index, self.positions().commit_term),
    {
        (self.commit_index, self.commit_term)
    }

    /// The index and term of the last entry.
    pub fn get_last_index(&self) -> (r: (Index, Term))
        ensures
            self.wf() ==> r.0 == self@.last_index() && r.1 == self@.last_term(),
            r == (self.positions().last_index, self.positions().last_term),
    {
        (self.last_index, self.last_term)
    }

    /// The current term and the vote cast in it.
    pub fn get_term_vote(&self) -> (r: (Term, Option<NodeID>))
        ensures
            r == (self@.term, self@.vote),
            r == (self.positions().term, self.positions().vote),
    {
        (self.term, self.vote)
    }

    /// What holds of the positions and the entries of a well-formed log.
    pub proof fn lemma_bounds(&self)
        requires
            self.wf(),
        ensures
            1 <= self@.first_index,
            self@.last_index() <= u64::MAX,
            self@.first_index - 1 <= self@.commit_index <= self@.last_index(),
            forall|k: int|
                0 <= k < self@.entries.len() ==> (#[trigger] self@.entries[k]).index
                    == self@.first_index + k,
    {
        reveal(represents);
    }

    /// Stores the current term and the vote cast in it.
    ///
    /// Terms never go back, and a vote cannot be changed within its term.
    pub fn set_term_vote(&mut self, term: Term, vote: Option<NodeID>) -> (r: Result<()>)
        requires
            old(self).wf(),
            term > 0,
            term >= old(self)@.term,
            term > old(self)@.term || old(self)@.vote is None || vote == old(self)@.vote,
        ensures
            final(self).reliable() == old(self).reliable(),
            final(self).is_open(),
            final(self).is_synced() == old(self).is_synced(),
            match r {
                Ok(()) => {
                    &&& final(self).wf()
                    &&& final(self)@ == (LogView { term, vote, ..old(self)@ })
                    &&& if (term, vote) == (old(self)@.term, old(self)@.vote) {
                        final(self).same(old(self))
                    } else {
                        final(self).is_flushed()
                    }
                },
                Err(_) => {
                    &&& !old(self).reliable()
                    &&& final(self).positions() == old(self).positions()
                    &&& differs_at(old(self).contents(), final(self).contents(), Key::TermVote.bytes())
                },
            },
    {
        let same_vote = match (vote, self.vote) {
            (Some(a), Some(b)) => a == b,
            (None, None) => true,
            _ => false,
        };
        if term == self.term && same_vote {
            return Ok(());
        }
        let ghost before = self.engine.contents();
        let bytes = encode_term_vote(term, vote);
        proof {
            lemma_meta_write(before, Key::TermVote, term_vote_bytes(term, vote));
            term_vote_round_trip(term, vote);
        }
        match self.engine.set(Key::TermVote.encode().as_slice(), bytes) {
            Ok(()) => {},
            Err(e) => return Err(e),
        }
        assert(self.engine.contents().remove(Key::TermVote.bytes()) =~= before.remove(
            Key::TermVote.bytes(),
        ));
        match self.engine.flush() {
            Ok(()) => {},
            Err(e) => return Err(e),
        }
        self.term = term;
        self.vote = vote;
        proof {
            reveal(represents);
            let view = LogView { term, vote, ..old(self)@ };
            let after = before.insert(Key::TermVote.bytes(), term_vote_bytes(term, vote));
            assert(self.engine.contents() == after);
            assert forall|k: int| 0 <= k < view.entries.len() implies ({
                &&& (#[trigger] view.entries[k]).index == view.first_index + k
                &&& stored_entry(after, (view.first_index + k) as u64) == Some(view.entries[k])
            }) by {
                assert(old(self)@.entries[k].index == view.first_index + k);
            }
            assert(represents(after, view));
            lemma_log_view(after, view);
        }
        Ok(())
    }

    /// Appends a command, or nothing for a new leader to commit, and returns
    /// its index.
    pub fn append(&mut self, command: Option<Vec<u8>>) -> (r: Result<Index>)
        requires
            old(self).wf(),
            old(self)@.term > 0,
            old(self)@.last_index() < u64::MAX,
        ensures
            final(self).reliable() == old(self).reliable(),
            final(self).is_open(),
            final(self).is_synced() == old(self).is_synced(),
            r is Ok && old(self).is_synced() ==> final(self).is_flushed(),
            match r {
                Ok(index) => final(self).wf() && index == old(self)@.last_index() + 1 && final(self)@
                    == old(self)@.appending(
                    match command {
                        Some(data) => Some(data@),
                        None => None,
                    },
                    None,
                ),
                Err(_) => {
                    &&& !old(self).reliable()
                    &&& final(self).positions() == old(self).positions()
                    &&& differs_at(
                        old(self).contents(),
                        final(self).contents(),
                        entry_key((old(self)@.last_index() + 1) as u64),
                    )
                },
            },
    {
        self.append_entry(command, None)
    }

    /// Appends a membership change and returns its index.
    pub fn append_membership(&mut self, membership: MembershipEntry) -> (r: Result<Index>)
        requires
            old(self).wf(),
            old(self)@.term > 0,
            old(self)@.last_index() < u64::MAX,
        ensures
            final(self).reliable() == old(self).reliable(),
            final(self).is_open(),
            final(self).is_synced() == old(self).is_synced(),
            r is Ok && old(self).is_synced() ==> final(self).is_flushed(),
            match r {
                Ok(index) => final(self).wf() && index == old(self)@.last_index() + 1 && final(self)@
                    == old(self)@.appending(None, Some(membership@)),
                Err(_) => {
                    &&& !old(self).reliable()
                    &&& final(self)@ == old(self)@
                    &&& final(self).positions() == old(self).positions()
                    &&& differs_at(
                        old(self).contents(),
                        final(self).contents(),
                        entry_key((old(self)@.last_index() + 1) as u64),
                    )
                },
            },
    {
        self.append_entry(None, Some(membership))
    }

    /// Appends a new entry of the current term and returns its index. It is a
    /// command or a membership change, not both.
    pub fn append_entry(
        &mut self,
        command: Option<Vec<u8>>,
        membership: Option<MembershipEntry>,
    ) -> (r: Result<Index>)
        requires
            old(self).wf(),
            old(self)@.term > 0,
            command is None || membership is None,
            old(self)@.last_index() < u64::MAX,
        ensures
            final(self).reliable() == old(self).reliable(),
            final(self).is_open(),
            final(self).is_synced() == old(self).is_synced(),
            r is Ok && old(self).is_synced() ==> final(self).is_flushed(),
            match r {
                Ok(index) => final(self).wf() && index == old(self)@.last_index() + 1 && final(self)@
                    == old(self)@.appending(
                    match command {
                        Some(data) => Some(data@),
                        None => None,
                    },
                    match membership {
                        Some(change) => Some(change@),
                        None => None,
                    },
                ),
                Err(_) => {
                    &&& !old(self).reliable()
                    &&& final(self)@ == old(self)@
                    &&& final(self).positions() == old(self).positions()
                    &&& differs_at(
                        old(self).contents(),
                        final(self).contents(),
                        entry_key((old(self)@.last_index() + 1) as u64),
                    )
                },
            },
    {
        proof {
            self.lemma_bounds();
        }
        let entry = Entry { index: self.last_index + 1, term: self.term, command, membership };
        let ghost before = self.engine.contents();
        let ghost view = self@;
        let set = self.engine.set(Key::Entry(entry.index).encode().as_slice(), entry.encode());
        assert(self@ == view) by {
            assert(self.engine.contents().remove(entry_key(entry.index)) =~= before.remove(
                entry_key(entry.index),
            ));
            lemma_beyond(before, self.engine.contents(), entry.index);
            assert(self@ =~= view);
        }
        match set {
            Ok(()) => {},
            Err(e) => return Err(e),
        }
        assert(self.engine.contents().remove(entry_key(entry.index)) =~= before.remove(
            entry_key(entry.index),
        ));
        if self.fsync {
            match self.engine.flush() {
                Ok(()) => {},
                Err(e) => return Err(e),
            }
        }
        self.last_index = entry.index;
        self.last_term = entry.term;
        proof {
            let after = self.engine.contents();
            lemma_command_fits(entry);
            lemma_append(before, view, after, entry@);
            let new = LogView { entries: view.entries.push(entry@), kept_term: None, ..view };
            lemma_log_view(after, new);
        }
        Ok(entry.index)
    }
}

/// What is stored under the key of an entry does not matter to what is stored under
/// other keys.
proof fn lemma_beyond(before: Map<Seq<u8>, Seq<u8>>, after: Map<Seq<u8>, Seq<u8>>, index: Index)
    requires
        differs_at(before, after, entry_key(index)),
    ensures
        forall|other: Index|
            other != index ==> #[trigger] stored_entry(after, other) == stored_entry(before, other),
        stored(after, Key::SnapshotData.bytes()) == stored(before, Key::SnapshotData.bytes()),
{
    lemma_index_of_key(index);
    let key = entry_key(index);
    assert forall|other: Index| other != index implies #[trigger] stored_entry(after, other)
        == stored_entry(before, other) by {
        lemma_index_of_key(other);
        let at = entry_key(other);
        assert(at != key);
        assert(after.remove(key).contains_key(at) == before.remove(key).contains_key(at));
        if before.contains_key(at) {
            assert(after.remove(key)[at] == before.remove(key)[at]);
        }
    }
    let at = Key::SnapshotData.bytes();
    assert(at[0] != key[0]);
    assert(after.remove(key).contains_key(at) == before.remove(key).contains_key(at));
    if before.contains_key(at) {
        assert(after.remove(key)[at] == before.remove(key)[at]);
    }
}

/// A command in memory has a length that a machine word holds.
pub proof fn lemma_command_fits(entry: Entry)
    ensures
        command_fits(entry@.command),
{
    match entry.command {
        Some(command) => {
            assert(command@.len() == command.len());
        },
        None => {},
    }
}

/// The entry written is the one stored.
proof fn lemma_stored_write(before: Map<Seq<u8>, Seq<u8>>, entry: EntryView)
    requires
        command_fits(entry.command),
    ensures
        stored_entry(before.insert(entry_key(entry.index), entry_bytes(entry)), entry.index)
            == Some(entry),
{
    entry_round_trip(entry, seq![]);
    assert(entry_bytes(entry) + Seq::<u8>::empty() =~= entry_bytes(entry));
}

/// Writing the entry after the last one appends it.
proof fn lemma_append(
    before: Map<Seq<u8>, Seq<u8>>,
    view: LogView,
    after: Map<Seq<u8>, Seq<u8>>,
    entry: EntryView,
)
    requires
        represents(before, view),
        entry.index == view.last_index() + 1,
        command_fits(entry.command),
        after == before.insert(entry_key(entry.index), entry_bytes(entry)),
    ensures
        represents(
            after,
            LogView { entries: view.entries.push(entry), kept_term: None, ..view },
        ),
{
    reveal(represents);
    lemma_stored_write(before, entry);
    lemma_index_of_key(entry.index);
    assert(same_but_entries_from(before, after, entry.index as int));
    assert forall|index: u64| index >= entry.index + 1 implies !after.contains_key(
        #[trigger] entry_key(index),
    ) by {
        lemma_index_of_key(index);
        if before.contains_key(entry_key(index)) {
            assert(view.holds(index as int));
        }
    }
    lemma_replace_tail(before, view, after, entry.index as int, seq![entry]);
    assert(view.entries.take(entry.index - view.first_index) + seq![entry] =~= view.entries.push(
        entry,
    ));
}

/// Storage has the entries that the log has, and no others.
proof fn lemma_stored(contents: Map<Seq<u8>, Seq<u8>>, view: LogView, index: Index)
    requires
        represents(contents, view),
    ensures
        contents.contains_key(entry_key(index)) == view.holds(index as int),
        view.holds(index as int) ==> {
            &&& stored_entry(contents, index) == Some(view.at(index as int))
            &&& view.at(index as int).index == index
        },
{
    reveal(represents);
    lemma_index_of_key(index);
    if view.holds(index as int) {
        assert(view.entries[index - view.first_index].index == index);
    }
}

/// The pairs of a scan are the entries of a slice.
proof fn lemma_scan(
    contents: Map<Seq<u8>, Seq<u8>>,
    view: LogView,
    range: KeyRange,
    low: Index,
    high: Index,
    keys: Seq<Seq<u8>>,
    items: Seq<ScanItem>,
)
    requires
        represents(contents, view),
        is_entry_range(range, low, high),
        lists_keys(keys, contents, range),
        reads_pairs(items, keys, contents),
    ensures
        reads_entries(items, view.slice(low as int, high as int)),
{
    lemma_range_keys(contents, view, range, low, high, keys);
    let slice = view.slice(low as int, high as int);
    assert forall|k: int| 0 <= k < items.len() implies match #[trigger] items[k] {
        Ok((_, value)) => read_entry(value@) matches Some((entry, _)) && entry == slice[k],
        Err(_) => true,
    } by {
        assert(keys[k] == keys[k]);
    }
}

impl<E: Engine> Log<E> {
    /// The entry at `index`, if the log has it.
    ///
    /// After a write that failed the log may not be well-formed: this is then what
    /// its storage has at the index.
    pub fn get(&mut self, index: Index) -> (r: Result<Option<Entry>>)
        requires
            old(self).wf() || old(self).is_open(),
        ensures
            final(self).is_open(),
            final(self).wf() == old(self).wf(),
            final(self)@ == old(self)@,
            final(self).same(old(self)),
            final(self).reported() == old(self).reported(),
            final(self).reliable() == old(self).reliable(),
            match r {
                Ok(Some(entry)) => stored_entry(old(self).contents(), index) == Some(entry@),
                Ok(None) => stored(old(self).contents(), entry_key(index)) is None,
                Err(_) => !old(self).reliable() || stored(old(self).contents(), entry_key(index))
                    is Some && stored_entry(old(self).contents(), index) is None,
            },
            old(self).wf() ==> match r {
                Ok(Some(entry)) => old(self)@.holds(index as int) && entry@ == old(self)@.at(
                    index as int,
                ) && entry.index == index,
                Ok(None) => !old(self)@.holds(index as int),
                Err(_) => !old(self).reliable(),
            },
    {
        proof {
            if self.wf() {
                lemma_stored(self.engine.contents(), self@, index);
            }
        }
        match self.engine.get(Key::Entry(index).encode().as_slice()) {
            Ok(Some(value)) => match Entry::decode(value.as_slice()) {
                Ok(entry) => Ok(Some(entry)),
                Err(e) => Err(e),
            },
            Ok(None) => Ok(None),
            Err(e) => Err(e),
        }
    }

    /// Whether the log has an entry with this index and term, or had it until
    /// it was compacted.
    pub fn has(&mut self, index: Index, term: Term) -> (r: Result<bool>)
        requires
            old(self).wf(),
        ensures
            final(self).wf(),
            final(self)@ == old(self)@,
            final(self).same(old(self)),
            final(self).reported() == old(self).reported(),
            final(self).reliable() == old(self).reliable(),
            match r {
                Ok(has) => has == old(self)@.has(index as int, term),
                Err(_) => !old(self).reliable(),
            },
    {
        proof {
            self.lemma_bounds();
        }
        if index == 0 || index > self.last_index {
            return Ok(false);
        }
        if index == self.first_index - 1 {
            return Ok(term == self.snapshot_term);
        }
        if index < self.first_index {
            return Ok(false);
        }
        if index == self.last_index && term == self.last_term {
            return Ok(true);
        }
        match self.get(index) {
            Ok(Some(entry)) => Ok(entry.term == term),
            Ok(None) => Ok(false),
            Err(e) => Err(e),
        }
    }

    /// The term of the entry at `index`, which may be the last compacted one.
    pub fn term_at(&mut self, index: Index) -> (r: Result<Term>)
        requires
            old(self).wf(),
            old(self)@.first_index - 1 <= index <= old(self)@.last_index(),
        ensures
            final(self).wf(),
            final(self)@ == old(self)@,
            final(self).same(old(self)),
            final(self).reported() == old(self).reported(),
            final(self).reliable() == old(self).reliable(),
            match r {
                Ok(term) => term == old(self)@.term_at(index as int),
                Err(_) => !old(self).reliable(),
            },
    {
        if index < self.first_index {
            return Ok(self.snapshot_term);
        }
        match self.get(index) {
            Ok(Some(entry)) => Ok(entry.term),
            Ok(None) => Ok(self.snapshot_term),
            Err(e) => Err(e),
        }
    }

    /// The entries of a range of indexes.
    pub fn scan(&mut self, start: IndexBound, end: IndexBound) -> (r: Iterator)
        requires
            old(self).wf(),
        ensures
            final(self).wf(),
            final(self)@ == old(self)@,
            final(self).same(old(self)),
            final(self).reported() == old(self).reported(),
            final(self).reliable() == old(self).reliable(),
            reads_entries(
                r.items@,
                old(self)@.slice(range_low(start) as int, range_high(end) as int),
            ),
            old(self).reliable() ==> forall|k: int|
                0 <= k < r.items@.len() ==> #[trigger] r.items@[k] is Ok,
    {
        let low: Index = match start {
            IndexBound::Included(index) => index,
            IndexBound::Excluded(index) => index.saturating_add(1),
            IndexBound::Unbounded => 0,
        };
        let high: Index = match end {
            IndexBound::Included(index) => index,
            IndexBound::Excluded(index) => index.saturating_sub(1),
            IndexBound::Unbounded => u64::MAX,
        };
        if low > high {
            proof {
                self.lemma_bounds();
            }
            assert(self@.slice(low as int, high as int) =~= seq![]);
            return Iterator::new(Vec::new());
        }
        let range = entry_range(low, high);
        let ghost contents = self.engine.contents();
        let items = self.engine.scan(&range);
        proof {
            let keys = choose|keys: Seq<Seq<u8>>| #[trigger]
                lists_keys(keys, contents, range) && reads_pairs(items@, keys, contents);
            lemma_scan(contents, self@, range, low, high, keys, items@);
        }
        Iterator::new(items)
    }

    /// The committed entries after `applied_index`.
    pub fn scan_apply(&mut self, applied_index: Index) -> (r: Iterator)
        requires
            old(self).wf(),
        ensures
            final(self).wf(),
            final(self)@ == old(self)@,
            final(self).same(old(self)),
            final(self).reported() == old(self).reported(),
            final(self).reliable() == old(self).reliable(),
            reads_entries(
                r.items@,
                old(self)@.slice(applied_index + 1, old(self)@.commit_index as int),
            ),
            old(self).reliable() ==> forall|k: int|
                0 <= k < r.items@.len() ==> #[trigger] r.items@[k] is Ok,
    {
        if applied_index >= self.commit_index {
            proof {
                self.lemma_bounds();
            }
            assert(self@.slice(applied_index + 1, self@.commit_index as int) =~= seq![]);
            return Iterator::new(Vec::new());
        }
        self.scan(
            IndexBound::Included(applied_index + 1),
            IndexBound::Included(self.commit_index),
        )
    }

    /// The entries of an iterator, or the first failure to read one.
    fn collect(source: Iterator) -> (r: Result<Vec<Entry>>)
        ensures
            forall|entries: Seq<EntryView>| #[trigger]
                reads_entries(source.items@, entries) ==> match r {
                    Ok(read) => entry_views(read@) == entries,
                    Err(_) => exists|k: int|
                        0 <= k < source.items@.len() && #[trigger] source.items@[k] is Err,
                },
    {
        let mut iterator = source;
        let ghost all = iterator.items@;
        let mut out: Vec<Entry> = Vec::new();
        assert(all.skip(0) =~= all);
        loop
            invariant
                all == source.items@,
                out@.len() <= all.len(),
                iterator.items@ == all.skip(out@.len() as int),
                forall|entries: Seq<EntryView>| #[trigger]
                    reads_entries(all, entries) ==> entry_views(out@) == entries.take(
                        out@.len() as int,
                    ),
            ensures
                out@.len() == all.len(),
                forall|entries: Seq<EntryView>| #[trigger]
                    reads_entries(all, entries) ==> entry_views(out@) == entries.take(
                        out@.len() as int,
                    ),
            decreases iterator.items@.len(),
        {
            let ghost n = out@.len() as int;
            let ghost before = out@;
            match iterator.next() {
                None => {
                    break;
                },
                Some(Err(e)) => {
                    assert forall|entries: Seq<EntryView>| #[trigger]
                        reads_entries(all, entries) implies exists|k: int|
                        0 <= k < all.len() && #[trigger] all[k] is Err by {
                        assert(all.skip(n)[0] == all[n]);
                    }
                    return Err(e);
                },
                Some(Ok(entry)) => {
                    out.push(entry);
                    assert(iterator.items@ =~= all.skip(n + 1));
                    assert forall|entries: Seq<EntryView>| #[trigger]
                        reads_entries(all, entries) implies entry_views(out@) == entries.take(
                        n + 1,
                    ) by {
                        assert(all.skip(n)[0] == all[n]);
                        assert(entry@ == entries[n]);
                        assert(entry_views(out@) =~= entry_views(before).push(entry@));
                        assert(entries.take(n + 1) =~= entries.take(n).push(entries[n]));
                    }
                },
            }
        }
        assert forall|entries: Seq<EntryView>| #[trigger]
            reads_entries(all, entries) implies entry_views(out@) == entries by {
            assert(entries.take(out@.len() as int) =~= entries);
        }
        Ok(out)
    }

    /// The entries with indexes from `low` to `high`.
    pub fn entries(&mut self, low: Index, high: Index) -> (r: Result<Vec<Entry>>)
        requires
            old(self).wf(),
        ensures
            final(self).wf(),
            final(self)@ == old(self)@,
            final(self).same(old(self)),
            final(self).reported() == old(self).reported(),
            final(self).reliable() == old(self).reliable(),
            match r {
                Ok(entries) => entry_views(entries@) == old(self)@.slice(low as int, high as int),
                Err(_) => !old(self).reliable(),
            },
    {
        let items = self.scan(IndexBound::Included(low), IndexBound::Included(high));
        let ghost slice = self@.slice(low as int, high as int);
        assert(reads_entries(items.items@, slice));
        Self::collect(items)
    }

    /// The last membership change in the log and its index.
    pub fn latest_membership(&mut self) -> (r: Result<Option<(Index, MembershipEntry)>>)
        requires
            old(self).wf(),
        ensures
            final(self).wf(),
            final(self)@ == old(self)@,
            final(self).same(old(self)),
            final(self).reported() == old(self).reported(),
            final(self).reliable() == old(self).reliable(),
            match r {
                Ok(None) => old(self)@.latest_membership() is None,
                Ok(Some((index, change))) => old(self)@.latest_membership() == Some(
                    (index, change@),
                ),
                Err(_) => !old(self).reliable(),
            },
    {
        proof {
            self.lemma_bounds();
        }
        let last = self.last_index;
        let entries = match self.entries(1, last) {
            Ok(entries) => entries,
            Err(e) => return Err(e),
        };
        assert(self@.slice(1, last as int) =~= self@.entries);
        let ghost views = entry_views(entries@);
        let mut found: Option<(Index, MembershipEntry)> = None;
        let mut i: usize = 0;
        while i < entries.len()
            invariant
                i <= entries@.len(),
                views == entry_views(entries@),
                match found {
                    None => latest_change(views.take(i as int)) is None,
                    Some((index, change)) => latest_change(views.take(i as int)) == Some(
                        (index, change@),
                    ),
                },
            decreases entries@.len() - i,
        {
            assert(views.take(i + 1).drop_last() =~= views.take(i as int));
            assert(views.take(i + 1).last() == entries@[i as int]@);
            match &entries[i].membership {
                Some(change) => {
                    found = Some((entries[i].index, change.duplicate()));
                },
                None => {},
            }
            i = i + 1;
        }
        assert(views.take(i as int) =~= views);
        Ok(found)
    }

    /// Commits the entries up to `index`, which never moves back.
    pub fn commit(&mut self, index: Index) -> (r: Result<Index>)
        requires
            old(self).wf(),
            old(self)@.holds(index as int),
            index >= old(self)@.commit_index,
        ensures
            final(self).reliable() == old(self).reliable(),
            final(self).is_open(),
            final(self).is_synced() == old(self).is_synced(),
            match r {
                Ok(committed) => final(self).wf() && committed == index && final(self)@
                    == old(self)@.committing(index),
                Err(_) => {
                    &&& !old(self).reliable()
                    &&& final(self).positions() == old(self).positions()
                    &&& differs_at(old(self).contents(), final(self).contents(), Key::CommitIndex.bytes())
                },
            },
    {
        let term = match self.get(index) {
            Ok(Some(entry)) => {
                if index == self.commit_index {
                    return Ok(index);
                }
                entry.term
            },
            Ok(None) => {
                assert(false);
                return Ok(index);
            },
            Err(e) => return Err(e),
        };
        let ghost before = self.engine.contents();
        let ghost view = self@;
        match self.engine.set(Key::CommitIndex.encode().as_slice(), encode_pair(index, term)) {
            Ok(()) => {},
            Err(e) => return Err(e),
        }
        self.commit_index = index;
        self.commit_term = term;
        proof {
            let after = self.engine.contents();
            lemma_commit(before, view, after, index, term);
            lemma_log_view(after, view.committing(index));
        }
        Ok(index)
    }
}

proof fn lemma_commit(
    before: Map<Seq<u8>, Seq<u8>>,
    view: LogView,
    after: Map<Seq<u8>, Seq<u8>>,
    index: Index,
    term: Term,
)
    requires
        represents(before, view),
        view.first_index - 1 <= index <= view.last_index(),
        after == before.insert(Key::CommitIndex.bytes(), pair_bytes(index, term)),
    ensures
        represents(after, LogView { commit_index: index, commit_term: term, ..view }),
{
    reveal(represents);
    lemma_meta_write(before, Key::CommitIndex, pair_bytes(index, term));
    pair_round_trip(index, term);
    let new = LogView { commit_index: index, commit_term: term, ..view };
    assert forall|k: int| 0 <= k < new.entries.len() implies ({
        &&& (#[trigger] new.entries[k]).index == new.first_index + k
        &&& stored_entry(after, (new.first_index + k) as u64) == Some(new.entries[k])
    }) by {
        assert(view.entries[k].index == view.first_index + k);
    }
}

/// Storage while a new tail is written: `count` entries of `tail` are stored
/// from `low` on, and what follows them is as it was.
spec fn tail_written(
    before: Map<Seq<u8>, Seq<u8>>,
    now: Map<Seq<u8>, Seq<u8>>,
    low: int,
    tail: Seq<EntryView>,
    count: int,
) -> bool {
    &&& same_but_entries_from(before, now, low)
    &&& forall|k: int|
        0 <= k < count ==> stored_entry(now, (low + k) as u64) == Some(#[trigger] tail[k])
    &&& forall|index: u64|
        index >= low + count ==> now.contains_key(#[trigger] entry_key(index))
            == before.contains_key(entry_key(index))
}

proof fn lemma_write_tail(
    before: Map<Seq<u8>, Seq<u8>>,
    now: Map<Seq<u8>, Seq<u8>>,
    low: int,
    tail: Seq<EntryView>,
    count: int,
)
    requires
        tail_written(before, now, low, tail, count),
        0 <= low,
        0 <= count < tail.len(),
        low + count <= u64::MAX,
        tail[count].index == low + count,
        command_fits(tail[count].command),
    ensures
        tail_written(
            before,
            now.insert(entry_key((low + count) as u64), entry_bytes(tail[count])),
            low,
            tail,
            count + 1,
        ),
{
    let at = (low + count) as u64;
    let after = now.insert(entry_key(at), entry_bytes(tail[count]));
    lemma_stored_write(now, tail[count]);
    lemma_index_of_key(at);
    assert forall|k: int| 0 <= k < count + 1 implies stored_entry(after, (low + k) as u64) == Some(
        #[trigger] tail[k],
    ) by {
        lemma_index_of_key((low + k) as u64);
        if k < count {
            assert(stored_entry(now, (low + k) as u64) == Some(tail[k]));
        }
    }
    assert forall|index: u64| index >= low + count + 1 implies after.contains_key(
        #[trigger] entry_key(index),
    ) == before.contains_key(entry_key(index)) by {
        lemma_index_of_key(index);
    }
}

/// Storage while what follows the new tail is removed: nothing is left of it up
/// to `upto`.
spec fn rest_removed(
    before: Map<Seq<u8>, Seq<u8>>,
    now: Map<Seq<u8>, Seq<u8>>,
    low: int,
    tail: Seq<EntryView>,
    upto: int,
) -> bool {
    &&& same_but_entries_from(before, now, low)
    &&& forall|k: int|
        0 <= k < tail.len() ==> stored_entry(now, (low + k) as u64) == Some(#[trigger] tail[k])
    &&& forall|index: u64|
        index >= low + tail.len() ==> now.contains_key(#[trigger] entry_key(index)) == (
        before.contains_key(entry_key(index)) && index > upto)
}

proof fn lemma_remove_rest(
    before: Map<Seq<u8>, Seq<u8>>,
    now: Map<Seq<u8>, Seq<u8>>,
    low: int,
    tail: Seq<EntryView>,
    upto: int,
)
    requires
        rest_removed(before, now, low, tail, upto),
        0 <= low,
        low + tail.len() - 1 <= upto < u64::MAX,
    ensures
        rest_removed(before, now.remove(entry_key((upto + 1) as u64)), low, tail, upto + 1),
{
    let at = (upto + 1) as u64;
    let after = now.remove(entry_key(at));
    lemma_index_of_key(at);
    assert forall|key: Seq<u8>|
        !(index_of_key(key) is Some && index_of_key(key)->0 >= low) implies #[trigger]
    after.contains_key(key) == before.contains_key(key) && (before.contains_key(key) ==> after[key]
        == before[key]) by {
        assert(now.contains_key(key) == before.contains_key(key));
    }
    assert forall|k: int| 0 <= k < tail.len() implies stored_entry(after, (low + k) as u64) == Some(
        #[trigger] tail[k],
    ) by {
        lemma_index_of_key((low + k) as u64);
        assert(stored_entry(now, (low + k) as u64) == Some(tail[k]));
    }
    assert forall|index: u64| index >= low + tail.len() implies after.contains_key(
        #[trigger] entry_key(index),
    ) == (before.contains_key(entry_key(index)) && index > upto + 1) by {
        lemma_index_of_key(index);
    }
}

/// The entries of a slice that does not start before the log.
pub proof fn lemma_slice(view: LogView, low: int, high: int)
    requires
        view.first_index <= low,
    ensures
        view.slice(low, high).len() == if high > view.last_index() {
            if low <= view.last_index() + 1 {
                view.last_index() + 1 - low
            } else {
                0
            }
        } else if low <= high + 1 {
            high + 1 - low
        } else {
            0
        },
        forall|k: int|
            0 <= k < view.slice(low, high).len() ==> view.holds(low + k) && #[trigger] view.slice(
                low,
                high,
            )[k] == view.at(low + k),
{
}

/// Entries that the log has, from the first on, count as agreeing.
proof fn lemma_agreeing_prefix(view: LogView, entries: Seq<EntryView>, n: int)
    requires
        0 <= n <= entries.len(),
        forall|k: int|
            0 <= k < n ==> view.holds((#[trigger] entries[k]).index as int) && view.at(
                entries[k].index as int,
            ).term == entries[k].term,
        n < entries.len() ==> !(view.holds(entries[n].index as int) && view.at(
            entries[n].index as int,
        ).term == entries[n].term),
    ensures
        view.agreeing(entries) == n,
    decreases n,
{
    if n > 0 {
        let rest = entries.skip(1);
        assert forall|k: int| 0 <= k < n - 1 implies view.holds((#[trigger] rest[k]).index as int)
            && view.at(rest[k].index as int).term == rest[k].term by {
            assert(rest[k] == entries[k + 1]);
        }
        assert(view.holds(entries[0].index as int));
        if n < entries.len() {
            assert(rest[n - 1] == entries[n]);
        }
        lemma_agreeing_prefix(view, rest, n - 1);
    }
}

/// Whether entries follow one another, with terms that never go down.
spec fn is_run(entries: Seq<EntryView>) -> bool {
    &&& forall|k: int|
        0 <= k < entries.len() ==> #[trigger] entries[k].index == entries[0].index + k
    &&& forall|j: int, k: int|
        0 <= j < k < entries.len() ==> #[trigger] entries[j].term <= #[trigger] entries[k].term
}

/// Which entries agree rests on the entries of the log alone.
pub(crate) proof fn lemma_same_agreeing(a: LogView, b: LogView, entries: Seq<EntryView>)
    requires
        a.entries == b.entries,
        a.first_index == b.first_index,
    ensures
        a.agreeing(entries) == b.agreeing(entries),
    decreases entries.len(),
{
    if entries.len() > 0 {
        lemma_same_agreeing(a, b, entries.skip(1));
    }
}

impl<E: Engine> Log<E> {
    /// How many of `entries`, from the first on, the log already has.
    fn agreement(&mut self, entries: &Vec<Entry>) -> (r: Result<usize>)
        requires
            old(self).wf(),
            old(self)@.continues(entry_views(entries@)),
        ensures
            final(self).wf(),
            final(self)@ == old(self)@,
            final(self).same(old(self)),
            final(self).reported() == old(self).reported(),
            final(self).reliable() == old(self).reliable(),
            match r {
                Ok(n) => {
                    &&& n == old(self)@.agreeing(entry_views(entries@))
                    &&& n <= entries@.len()
                    &&& n > 0 ==> old(self)@.holds(entry_views(entries@)[n - 1].index as int)
                },
                Err(_) => !old(self).reliable(),
            },
    {
        let ghost views = entry_views(entries@);
        let ghost view = self@;
        let total = entries.len();
        let first = entries[0].index;
        let last = entries[total - 1].index;
        assert(views[0] == entries@[0]@);
        assert(views[total - 1] == entries@[total - 1]@);
        let existing = match self.entries(first, last) {
            Ok(existing) => existing,
            Err(e) => return Err(e),
        };
        let ghost had = entry_views(existing@);
        proof {
            lemma_slice(view, first as int, last as int);
            assert(views[total - 1].index == first + (total - 1));
        }
        let mut n: usize = 0;
        while n < total && n < existing.len() && existing[n].term == entries[n].term
            invariant
                n <= total,
                n <= existing@.len(),
                total == entries@.len(),
                views == entry_views(entries@),
                had == entry_views(existing@),
                had.len() <= total,
                forall|k: int|
                    0 <= k < had.len() ==> view.holds(first + k) && #[trigger] had[k] == view.at(
                        first + k,
                    ),
                view.continues(views),
                first == views[0].index,
                forall|k: int|
                    0 <= k < n ==> view.holds((#[trigger] views[k]).index as int) && view.at(
                        views[k].index as int,
                    ).term == views[k].term,
            decreases total - n,
        {
            assert(had[n as int] == existing@[n as int]@);
            assert(views[n as int] == entries@[n as int]@);
            assert(views[n as int].index == first + n);
            n = n + 1;
        }
        proof {
            if n < total {
                assert(views[n as int].index == first + n);
                assert(views[n as int] == entries@[n as int]@);
                if n < existing@.len() {
                    assert(had[n as int] == existing@[n as int]@);
                }
            }
            lemma_agreeing_prefix(view, views, n as int);
        }
        Ok(n)
    }

    /// Whether a run of entries follows one another, with terms that never go
    /// down.
    fn is_run(entries: &Vec<Entry>) -> (r: bool)
        requires
            entries@.len() > 0,
        ensures
            r == is_run(entry_views(entries@)),
    {
        let ghost views = entry_views(entries@);
        let mut i: usize = 1;
        while i < entries.len()
            invariant
                1 <= i <= entries@.len(),
                views == entry_views(entries@),
                forall|k: int| 0 <= k < i ==> #[trigger] views[k].index == views[0].index + k,
                forall|j: int, k: int|
                    0 <= j < k < i ==> #[trigger] views[j].term <= #[trigger] views[k].term,
            decreases entries@.len() - i,
        {
            assert(views[i as int] == entries@[i as int]@);
            assert(views[i - 1] == entries@[i - 1]@);
            assert(views[i - 1].index == views[0].index + (i - 1));
            assert(is_run(views) ==> views[i as int].index == views[0].index + i && views[i
                - 1].term <= views[i as int].term);
            if entries[i - 1].index == u64::MAX || entries[i].index != entries[i - 1].index + 1
                || entries[i].term < entries[i - 1].term {
                return false;
            }
            assert forall|j: int, k: int| 0 <= j < k < i + 1 implies #[trigger] views[j].term
                <= #[trigger] views[k].term by {
                if k == i && j < i - 1 {
                    assert(views[j].term <= views[i - 1].term);
                }
            }
            i = i + 1;
        }
        true
    }

    /// Whether `entries` could be spliced into the log in the given term.
    pub fn is_spliceable(&mut self, term: Term, entries: &Vec<Entry>) -> (r: Result<bool>)
        requires
            old(self).wf(),
        ensures
            final(self).wf(),
            final(self)@ == old(self)@,
            final(self).same(old(self)),
            final(self).reported() == old(self).reported(),
            final(self).reliable() == old(self).reliable(),
            match r {
                Ok(spliceable) => spliceable == (LogView { term, ..old(self)@ }).spliceable(
                    entry_views(entries@),
                ),
                Err(_) => !old(self).reliable(),
            },
    {
        let ghost views = entry_views(entries@);
        let ghost view = self@;
        let ghost later = LogView { term, ..view };
        proof {
            self.lemma_bounds();
        }
        let total = entries.len();
        if total == 0 {
            return Ok(true);
        }
        let first = entries[0].index;
        let last = entries[total - 1].index;
        assert(views[0] == entries@[0]@);
        assert(views[total - 1] == entries@[total - 1]@);
        if first < self.first_index || first - 1 > self.last_index || entries[0].term == 0
            || entries[total - 1].term > term {
            return Ok(false);
        }
        if !Self::is_run(entries) {
            return Ok(false);
        }
        if first != 1 {
            match self.term_at(first - 1) {
                Ok(base) => {
                    if base > entries[0].term {
                        return Ok(false);
                    }
                },
                Err(e) => return Err(e),
            }
        }
        let n = match self.agreement(entries) {
            Ok(n) => n,
            Err(e) => return Err(e),
        };
        proof {
            lemma_same_agreeing(view, later, views);
            lemma_agreeing(view, views);
            lemma_slice(view, first as int, last as int);
        }
        if n < total {
            assert(views[n as int] == entries@[n as int]@);
            if entries[n].index <= self.commit_index || last == u64::MAX {
                return Ok(false);
            }
        }
        let existing = match self.entries(first, last) {
            Ok(existing) => existing,
            Err(e) => return Err(e),
        };
        let ghost had = entry_views(existing@);
        let mut k: usize = 0;
        while k < n
            invariant
                k <= n <= total,
                total == entries@.len(),
                n <= existing@.len(),
                views == entry_views(entries@),
                had == entry_views(existing@),
                forall|i: int| 0 <= i < n ==> #[trigger] had[i] == view.at(views[i].index as int),
                n == later.agreeing(views),
                forall|i: int| #[trigger] later.at(i) == view.at(i),
                forall|i: int|
                    0 <= i < k ==> {
                        &&& (#[trigger] views[i]).command == view.at(views[i].index as int).command
                        &&& views[i].membership == view.at(views[i].index as int).membership
                    },
                self.wf(),
                self@ == old(self)@,
                self.same(old(self)),
                self.reliable() == old(self).reliable(),
                later == (LogView { term, ..old(self)@ }),
            decreases n - k,
        {
            assert(had[k as int] == existing@[k as int]@);
            assert(views[k as int] == entries@[k as int]@);
            if !entries[k].same_content(&existing[k]) {
                return Ok(false);
            }
            k = k + 1;
        }
        Ok(true)
    }

    /// Splices entries into the log and returns the index of its last entry.
    ///
    /// What the log already has of the entries stays; from the first that it
    /// does not have, they replace everything. What is committed stays as it was,
    /// and nothing appears before it, even if storage fails on the way.
    pub fn splice(&mut self, entries: Vec<Entry>) -> (r: Result<Index>)
        requires
            old(self).wf(),
            old(self)@.spliceable(entry_views(entries@)),
        ensures
            final(self).reliable() == old(self).reliable(),
            final(self).is_open(),
            final(self).is_synced() == old(self).is_synced(),
            r is Ok && old(self).is_synced() && old(self)@.agreeing(entry_views(entries@))
                < entries@.len() ==> final(self).is_flushed(),
            r is Ok && old(self)@.agreeing(entry_views(entries@)) == entries@.len()
                ==> final(self).same(old(self)),
            holds_committed(final(self).contents(), old(self)@),
            match r {
                Ok(last) => final(self).wf() && final(self)@ == old(self)@.splicing(
                    entry_views(entries@),
                ) && last == final(self)@.last_index(),
                Err(_) => !old(self).reliable() && final(self).positions() == old(self).positions(),
            },
    {
        let ghost views = entry_views(entries@);
        let ghost view = self@;
        let ghost before = self.engine.contents();
        proof {
            self.lemma_bounds();
        }
        assert(holds_committed(before, view)) by {
            lemma_held(before, view, before, u64::MAX + 1);
        }
        let total = entries.len();
        if total == 0 {
            return Ok(self.last_index);
        }
        let first = entries[0].index;
        let last = entries[total - 1].index;
        let last_term = entries[total - 1].term;
        assert(views[0] == entries@[0]@);
        assert(views[total - 1] == entries@[total - 1]@);
        let n = match self.agreement(&entries) {
            Ok(n) => n,
            Err(e) => return Err(e),
        };
        if n == total {
            return Ok(self.last_index);
        }
        let ghost low = views[n as int].index as int;
        let ghost tail = views.skip(n as int);
        let ghost reliable = self.reliable();
        let mut k: usize = n;
        while k < total
            invariant
                n <= k <= total,
                total == entries@.len(),
                views == entry_views(entries@),
                tail == views.skip(n as int),
                view.spliceable(views),
                view == old(self)@,
                represents(before, view),
                view.commit_index < low,
                low == views[n as int].index,
                low + total - n <= u64::MAX,
                self.engine.wf(),
                self.positions() == old(self).positions(),
                self.fsync == old(self).fsync,
                self.reliable() == reliable,
                old(self).reliable() == reliable,
                tail_written(before, self.engine.contents(), low, tail, k - n),
            decreases total - k,
        {
            proof {
                assert(tail[k - n] == views[k as int]);
                assert(views[k as int] == entries@[k as int]@);
                assert(views[n as int].index == views[0].index + n);
                assert(views[k as int].index == views[0].index + k);
                lemma_command_fits(entries@[k as int]);
                lemma_write_tail(before, self.engine.contents(), low, tail, k - n);
            }
            let ghost now = self.engine.contents();
            match self.engine.set(
                Key::Entry(entries[k].index).encode().as_slice(),
                entries[k].encode(),
            ) {
                Ok(()) => {},
                Err(e) => {
                    proof {
                        lemma_failed_write(
                            before,
                            view,
                            now,
                            self.engine.contents(),
                            low,
                            entries@[k as int].index,
                        );
                    }
                    return Err(e);
                },
            }
            k = k + 1;
        }
        assert(low + tail.len() - 1 == last) by {
            assert(views[n as int].index == views[0].index + n);
        }
        let mut upto: Index = last;
        assert(rest_removed(before, self.engine.contents(), low, tail, upto as int)) by {
            assert forall|index: u64| index >= low + tail.len() implies self.engine.contents(
            ).contains_key(#[trigger] entry_key(index)) == (before.contains_key(entry_key(index))
                && index > upto) by {}
        }
        while upto < self.last_index
            invariant
                last <= upto,
                low + tail.len() - 1 == last,
                view.commit_index < low,
                view == old(self)@,
                represents(before, view),
                self.engine.wf(),
                self.positions() == old(self).positions(),
                self.fsync == old(self).fsync,
                self.reliable() == reliable,
                old(self).reliable() == reliable,
                rest_removed(before, self.engine.contents(), low, tail, upto as int),
            decreases self.last_index - upto,
        {
            proof {
                lemma_remove_rest(before, self.engine.contents(), low, tail, upto as int);
            }
            upto = upto + 1;
            let ghost now = self.engine.contents();
            match self.engine.delete(Key::Entry(upto).encode().as_slice()) {
                Ok(()) => {},
                Err(e) => {
                    proof {
                        lemma_failed_write(before, view, now, self.engine.contents(), low, upto);
                    }
                    return Err(e);
                },
            }
        }
        proof {
            lemma_held(before, view, self.engine.contents(), low);
        }
        if self.fsync {
            match self.engine.flush() {
                Ok(()) => {},
                Err(e) => return Err(e),
            }
        }
        self.last_index = last;
        self.last_term = last_term;
        proof {
            lemma_spliced(before, view, self.engine.contents(), views, low, last as int, upto as int);
        }
        Ok(self.last_index)
    }
}

/// The storage that has the entries that the log did not have, and none after them,
/// is that of the spliced log.
proof fn lemma_spliced(
    before: Map<Seq<u8>, Seq<u8>>,
    view: LogView,
    after: Map<Seq<u8>, Seq<u8>>,
    views: Seq<EntryView>,
    low: int,
    last: int,
    upto: int,
)
    requires
        represents(before, view),
        view.spliceable(views),
        view.agreeing(views) < views.len(),
        low == views[view.agreeing(views) as int].index,
        last == views.last().index,
        view.last_index() <= upto,
        rest_removed(before, after, low, views.skip(view.agreeing(views) as int), upto),
    ensures
        ({
            let new = view.splicing(views);
            &&& represents(after, new)
            &&& new.last_index() == last
            &&& new.entries.len() > 0
            &&& new.last_term() == views.last().term
            &&& log_view(
                after,
                (new.term, new.vote),
                (new.first_index, new.snapshot_term),
                (last as u64, views.last().term),
                (new.commit_index, new.commit_term),
                new.fsync,
            ) == new
        }),
{
    lemma_agreeing(view, views);
    let n = view.agreeing(views) as int;
    let tail = views.skip(n);
    assert(views[n].index == views[0].index + n);
    assert(views.last() == views[views.len() - 1]);
    assert(low + tail.len() - 1 == last);
    assert forall|index: u64| index >= low + tail.len() implies !after.contains_key(
        #[trigger] entry_key(index),
    ) by {
        lemma_stored(before, view, index);
    }
    assert forall|k: int| 0 <= k < tail.len() implies ({
        &&& (#[trigger] tail[k]).index == low + k
        &&& stored_entry(after, (low + k) as u64) == Some(tail[k])
    }) by {
        assert(tail[k] == views[n + k]);
        assert(views[n + k].index == views[0].index + (n + k));
    }
    assert(view.first_index <= low <= view.last_index() + 1) by {
        if n > 0 {
            assert(view.holds(views[n - 1].index as int));
            assert(views[n - 1].index == views[0].index + (n - 1));
        }
    }
    lemma_replace_tail(before, view, after, low, tail);
    let new = view.splicing(views);
    assert(new.entries.last() == tail.last());
    assert(tail.last() == views.last());
    lemma_log_view(after, new);
}

/// What is committed stays while only entries after it are written.
proof fn lemma_held(
    before: Map<Seq<u8>, Seq<u8>>,
    view: LogView,
    now: Map<Seq<u8>, Seq<u8>>,
    low: int,
)
    requires
        represents(before, view),
        same_but_entries_from(before, now, low),
        view.commit_index < low,
    ensures
        holds_committed(now, view),
{
    assert forall|index: u64|
        view.first_index <= index <= view.commit_index implies #[trigger] stored_entry(now, index)
        == Some(view.at(index as int)) by {
        lemma_stored(before, view, index);
        lemma_index_of_key(index);
        reveal(represents);
        assert(now.contains_key(entry_key(index)) == before.contains_key(entry_key(index)));
    }
    assert forall|index: u64| index < view.first_index implies stored(
        now,
        #[trigger] entry_key(index),
    ) is None by {
        lemma_stored(before, view, index);
        lemma_index_of_key(index);
        reveal(represents);
        assert(now.contains_key(entry_key(index)) == before.contains_key(entry_key(index)));
    }
    reveal(represents);
    assert(index_of_key(Key::TermVote.bytes()) is None);
    assert(index_of_key(Key::CommitIndex.bytes()) is None);
    assert(now.contains_key(Key::TermVote.bytes()) == before.contains_key(Key::TermVote.bytes()));
    assert(now.contains_key(Key::CommitIndex.bytes()) == before.contains_key(
        Key::CommitIndex.bytes(),
    ));
}

/// What is committed stays if writing an entry after it fails.
proof fn lemma_failed_write(
    before: Map<Seq<u8>, Seq<u8>>,
    view: LogView,
    now: Map<Seq<u8>, Seq<u8>>,
    after: Map<Seq<u8>, Seq<u8>>,
    low: int,
    index: Index,
)
    requires
        represents(before, view),
        same_but_entries_from(before, now, low),
        view.commit_index < low <= index,
        after.remove(entry_key(index)) == now.remove(entry_key(index)),
    ensures
        holds_committed(after, view),
{
    lemma_index_of_key(index);
    let key = entry_key(index);
    assert forall|other: Seq<u8>|
        !(index_of_key(other) is Some && index_of_key(other)->0 >= low) implies ({
        &&& #[trigger] after.contains_key(other) == before.contains_key(other)
        &&& before.contains_key(other) ==> after[other] == before[other]
    }) by {
        assert(other != key);
        assert(after.remove(key).contains_key(other) == now.remove(key).contains_key(other));
        assert(now.contains_key(other) == before.contains_key(other));
        if before.contains_key(other) {
            assert(after.remove(key)[other] == now.remove(key)[other]);
        }
    }
    lemma_held(before, view, after, low);
}

/// Storage while the entries from `low` on are removed: those before `upto` are
/// gone.
spec fn front_removed(
    before: Map<Seq<u8>, Seq<u8>>,
    now: Map<Seq<u8>, Seq<u8>>,
    low: int,
    upto: int,
) -> bool {
    forall|key: Seq<u8>|
        {
            &&& #[trigger] now.contains_key(key) == (before.contains_key(key) && !(index_of_key(
                key,
            ) is Some && low <= index_of_key(key)->0 < upto))
            &&& now.contains_key(key) ==> now[key] == before[key]
        }
}

proof fn lemma_remove_front(
    before: Map<Seq<u8>, Seq<u8>>,
    now: Map<Seq<u8>, Seq<u8>>,
    low: int,
    upto: int,
)
    requires
        front_removed(before, now, low, upto),
        0 <= low <= upto <= u64::MAX,
    ensures
        front_removed(before, now.remove(entry_key(upto as u64)), low, upto + 1),
{
    let after = now.remove(entry_key(upto as u64));
    lemma_index_of_key(upto as u64);
    assert forall|key: Seq<u8>| #[trigger]
        after.contains_key(key) == (before.contains_key(key) && !(index_of_key(key) is Some && low
            <= index_of_key(key)->0 < upto + 1)) && (after.contains_key(key) ==> after[key]
            == before[key]) by {
        assert(now.contains_key(key) == (before.contains_key(key) && !(index_of_key(key) is Some
            && low <= index_of_key(key)->0 < upto)));
        if index_of_key(key) is Some {
            lemma_key_of_index(key);
        }
    }
}

/// Removing entries up to `index` leaves the rest, though a last write may fail.
proof fn lemma_front_failed(
    before: Map<Seq<u8>, Seq<u8>>,
    now: Map<Seq<u8>, Seq<u8>>,
    after: Map<Seq<u8>, Seq<u8>>,
    low: int,
    upto: int,
    index: Index,
    key: Seq<u8>,
)
    requires
        front_removed(before, now, low, upto),
        upto <= index + 1 || upto == low,
        differs_at(now, after, key),
        key == Key::SnapshotMeta.bytes() || (index_of_key(key) matches Some(at) && at <= index),
    ensures
        differs_up_to(before, after, index),
{
    assert forall|other: Seq<u8>|
        other != Key::SnapshotMeta.bytes() && !(index_of_key(other) matches Some(at) && at
            <= index) implies #[trigger] stored(after, other) == stored(before, other) by {
        assert(other != key);
        assert(now.contains_key(other) == before.contains_key(other));
        assert(after.remove(key).contains_key(other) == now.remove(key).contains_key(other));
        if before.contains_key(other) {
            assert(after.remove(key)[other] == now.remove(key)[other]);
        }
    }
}

proof fn lemma_compact(
    before: Map<Seq<u8>, Seq<u8>>,
    view: LogView,
    now: Map<Seq<u8>, Seq<u8>>,
    after: Map<Seq<u8>, Seq<u8>>,
    index: Index,
    term: Term,
)
    requires
        represents(before, view),
        index <= view.commit_index,
        index >= view.first_index || (index == 0 && view.first_index == 1),
        front_removed(before, now, view.first_index as int, index + 1),
        after == now.insert(Key::SnapshotMeta.bytes(), pair_bytes(index, term)),
        index < u64::MAX,
    ensures
        represents(after, view.compacting(index, term)),
{
    reveal(represents);
    lemma_meta_write(now, Key::SnapshotMeta, pair_bytes(index, term));
    pair_round_trip(index, term);
    let new = view.compacting(index, term);
    let gone = index + 1 - view.first_index;
    assert forall|k: int| 0 <= k < new.entries.len() implies ({
        &&& (#[trigger] new.entries[k]).index == new.first_index + k
        &&& stored_entry(after, (new.first_index + k) as u64) == Some(new.entries[k])
    }) by {
        assert(new.entries[k] == view.entries[k + gone]);
        assert(view.entries[k + gone].index == view.first_index + (k + gone));
        let at = (new.first_index + k) as u64;
        lemma_index_of_key(at);
        assert(now.contains_key(entry_key(at)));
    }
    assert forall|key: Seq<u8>| #[trigger]
        after.contains_key(key) && key.len() > 0 && key[0] == 0 implies index_of_key(key) is Some
        && new.holds(index_of_key(key)->0) by {
        assert(now.contains_key(key));
        assert(before.contains_key(key));
    }
    assert(now.contains_key(Key::TermVote.bytes()) == before.contains_key(Key::TermVote.bytes()));
    assert(now.contains_key(Key::CommitIndex.bytes()) == before.contains_key(
        Key::CommitIndex.bytes(),
    ));
    assert(now.contains_key(Key::SnapshotData.bytes()) == before.contains_key(
        Key::SnapshotData.bytes(),
    ));
    assert(stored(now, Key::TermVote.bytes()) == stored(before, Key::TermVote.bytes()));
    assert(stored(now, Key::CommitIndex.bytes()) == stored(before, Key::CommitIndex.bytes()));
    assert(stored(now, Key::SnapshotData.bytes()) == stored(before, Key::SnapshotData.bytes()));
    assert(stored(after, Key::TermVote.bytes()) == stored(now, Key::TermVote.bytes()));
    assert(stored(after, Key::CommitIndex.bytes()) == stored(now, Key::CommitIndex.bytes()));
    assert(stored(after, Key::SnapshotData.bytes()) == stored(now, Key::SnapshotData.bytes()));
}

/// Storage while the first `count` of `keys` are removed.
spec fn keys_removed(
    before: Map<Seq<u8>, Seq<u8>>,
    now: Map<Seq<u8>, Seq<u8>>,
    keys: Seq<Seq<u8>>,
    count: int,
) -> bool {
    forall|key: Seq<u8>|
        {
            &&& #[trigger] now.contains_key(key) == (before.contains_key(key) && !keys.take(
                count,
            ).contains(key))
            &&& now.contains_key(key) ==> now[key] == before[key]
        }
}

proof fn lemma_remove_key(
    before: Map<Seq<u8>, Seq<u8>>,
    now: Map<Seq<u8>, Seq<u8>>,
    keys: Seq<Seq<u8>>,
    count: int,
)
    requires
        keys_removed(before, now, keys, count),
        0 <= count < keys.len(),
    ensures
        keys_removed(before, now.remove(keys[count]), keys, count + 1),
{
    let after = now.remove(keys[count]);
    assert(keys.take(count + 1) =~= keys.take(count).push(keys[count]));
    assert forall|key: Seq<u8>| #[trigger]
        after.contains_key(key) == (before.contains_key(key) && !keys.take(count + 1).contains(key))
            && (after.contains_key(key) ==> after[key] == before[key]) by {
        assert(now.contains_key(key) == (before.contains_key(key) && !keys.take(count).contains(
            key,
        )));
        if keys.take(count).contains(key) {
            let i = choose|i: int| 0 <= i < count && keys.take(count)[i] == key;
            assert(keys.take(count + 1)[i] == key);
        }
        assert(keys.take(count + 1)[count] == keys[count]);
        if keys.take(count + 1).contains(key) && key != keys[count] {
            let more = keys.take(count + 1);
            let i = choose|i: int| 0 <= i < more.len() && more[i] == key;
            assert(keys.take(count)[i] == key);
        }
    }
}

proof fn lemma_reset(
    before: Map<Seq<u8>, Seq<u8>>,
    view: LogView,
    now: Map<Seq<u8>, Seq<u8>>,
    range: KeyRange,
    keys: Seq<Seq<u8>>,
    index: Index,
    term: Term,
)
    requires
        represents(before, view),
        is_entry_range(range, 0, u64::MAX),
        lists_keys(keys, before, range),
        keys_removed(before, now, keys, keys.len() as int),
        index < u64::MAX,
    ensures
        represents(
            now.insert(Key::SnapshotMeta.bytes(), pair_bytes(index, term)).insert(
                Key::CommitIndex.bytes(),
                pair_bytes(index, term),
            ),
            view.resetting(index, term),
        ),
{
    lemma_range_keys(before, view, range, 0, u64::MAX, keys);
    reveal(represents);
    let middle = now.insert(Key::SnapshotMeta.bytes(), pair_bytes(index, term));
    let after = middle.insert(Key::CommitIndex.bytes(), pair_bytes(index, term));
    lemma_meta_write(now, Key::SnapshotMeta, pair_bytes(index, term));
    lemma_meta_write(middle, Key::CommitIndex, pair_bytes(index, term));
    pair_round_trip(index, term);
    let new = view.resetting(index, term);
    assert(keys.take(keys.len() as int) =~= keys);
    assert forall|key: Seq<u8>| #[trigger]
        after.contains_key(key) && key.len() > 0 && key[0] == 0 implies false by {
        assert(now.contains_key(key));
        assert(before.contains_key(key));
        lemma_key_of_index(key);
        let at = index_of_key(key)->0 as u64;
        key_order(0, at, Key::TermVote);
        key_order(at, u64::MAX, Key::TermVote);
        assert(range.admits(key));
        assert(keys.contains(key));
    }
    assert forall|key: Key| !(#[trigger] key.bytes().len() == 9) implies stored(now, key.bytes())
        == stored(before, key.bytes()) by {
        assert(now.contains_key(key.bytes()) == (before.contains_key(key.bytes())
            && !keys.contains(key.bytes())));
        if keys.contains(key.bytes()) {
            let i = choose|i: int| 0 <= i < keys.len() && keys[i] == key.bytes();
            assert(keys[i] == key.bytes());
            lemma_index_of_key((view.first_index + i) as u64);
        }
    }
    assert(Key::TermVote.bytes().len() == 1);
    assert(Key::SnapshotData.bytes().len() == 1);
    assert(stored(now, Key::TermVote.bytes()) == stored(before, Key::TermVote.bytes()));
    assert(stored(now, Key::SnapshotData.bytes()) == stored(before, Key::SnapshotData.bytes()));
    assert(stored(middle, Key::TermVote.bytes()) == stored(now, Key::TermVote.bytes()));
    assert(stored(middle, Key::SnapshotData.bytes()) == stored(now, Key::SnapshotData.bytes()));
    assert(stored(after, Key::TermVote.bytes()) == stored(middle, Key::TermVote.bytes()));
    assert(stored(after, Key::SnapshotData.bytes()) == stored(middle, Key::SnapshotData.bytes()));
    assert(stored(middle, Key::SnapshotMeta.bytes()) == Some(pair_bytes(index, term)));
    assert(stored(after, Key::SnapshotMeta.bytes()) == stored(middle, Key::SnapshotMeta.bytes()));
}

/// What a reset of the log to a snapshot leaves of the storage `before`: the
/// snapshot is at `index` and `term`, everything up to it is committed, entries may
/// be gone, and all else is as it was.
pub open spec fn is_reset(
    before: Map<Seq<u8>, Seq<u8>>,
    after: Map<Seq<u8>, Seq<u8>>,
    index: Index,
    term: Term,
) -> bool {
    &&& stored(after, Key::SnapshotMeta.bytes()) == Some(pair_bytes(index, term))
    &&& stored(after, Key::CommitIndex.bytes()) == Some(pair_bytes(index, term))
    &&& forall|key: Seq<u8>|
        key != Key::SnapshotMeta.bytes() && key != Key::CommitIndex.bytes() ==> is_left(
            before,
            after,
            key,
        )
}

/// What is stored under a key is as it was before, or was an entry and is gone.
pub open spec fn is_left(
    before: Map<Seq<u8>, Seq<u8>>,
    after: Map<Seq<u8>, Seq<u8>>,
    key: Seq<u8>,
) -> bool {
    stored(after, key) == stored(before, key) || stored(after, key) is None && index_of_key(
        key,
    ) is Some
}

/// Whether a key is that of an entry or of what a reset of the log writes.
pub open spec fn is_reset_key(key: Seq<u8>) -> bool {
    index_of_key(key) is Some || key == Key::SnapshotMeta.bytes() || key
        == Key::CommitIndex.bytes()
}

/// What a reset of the log does not touch is as it was before.
pub open spec fn is_rest_kept(before: Map<Seq<u8>, Seq<u8>>, after: Map<Seq<u8>, Seq<u8>>) -> bool {
    forall|key: Seq<u8>|
        !is_reset_key(key) ==> #[trigger] stored(after, key) == stored(before, key)
}

proof fn lemma_rest_kept(
    before: Map<Seq<u8>, Seq<u8>>,
    now: Map<Seq<u8>, Seq<u8>>,
    after: Map<Seq<u8>, Seq<u8>>,
    key: Seq<u8>,
)
    requires
        is_rest_kept(before, now),
        after.remove(key) =~= now.remove(key),
        is_reset_key(key),
    ensures
        is_rest_kept(before, after),
{
    assert forall|other: Seq<u8>| !is_reset_key(other) implies #[trigger] stored(after, other)
        == stored(before, other) by {
        assert(stored(now, other) == stored(before, other));
        assert(after.remove(key).contains_key(other) == now.remove(key).contains_key(other));
        if now.contains_key(other) {
            assert(after.remove(key)[other] == now.remove(key)[other]);
        }
    }
}

/// Removing an entry leaves the rest.
proof fn lemma_left(
    before: Map<Seq<u8>, Seq<u8>>,
    now: Map<Seq<u8>, Seq<u8>>,
    view: LogView,
    range: KeyRange,
    keys: Seq<Seq<u8>>,
    k: int,
)
    requires
        represents(before, view),
        is_entry_range(range, 0, u64::MAX),
        lists_keys(keys, before, range),
        0 <= k < keys.len(),
        forall|key: Seq<u8>| is_left(before, now, key),
    ensures
        is_rest_kept(before, now),
        is_reset_key(keys[k]),
        forall|key: Seq<u8>| is_left(before, now.remove(keys[k]), key),
{
    lemma_range_keys(before, view, range, 0, u64::MAX, keys);
    lemma_index_of_key((view.first_index + k) as u64);
    let after = now.remove(keys[k]);
    assert forall|key: Seq<u8>| is_left(before, after, key) by {
        assert(is_left(before, now, key));
    }
    assert forall|key: Seq<u8>| !is_reset_key(key) implies #[trigger] stored(now, key) == stored(
        before,
        key,
    ) by {
        assert(is_left(before, now, key));
    }
}

impl<E: Engine> Log<E> {
    /// Compacts the entries up to `last_included_index` away, which a snapshot
    /// covers. Does nothing if they already are.
    ///
    /// The last term stays, though all of the log may be compacted under another.
    /// Where a compacted log is compacted to index 0, it is not well-formed
    /// afterwards: it starts at index 1 again, and its first entries are missing.
    /// If storage fails, some of the entries may be gone, and the rest is as it was.
    pub fn compact_to(
        &mut self,
        last_included_index: Index,
        last_included_term: Term,
    ) -> (r: Result<()>)
        requires
            old(self).wf(),
            last_included_index <= old(self)@.commit_index,
            last_included_index < u64::MAX,
        ensures
            final(self).reliable() == old(self).reliable(),
            final(self).is_open(),
            final(self).is_synced() == old(self).is_synced(),
            r is Ok && old(self).is_synced() && !old(self)@.is_compacted(last_included_index)
                ==> final(self).is_flushed(),
            old(self)@.is_compacted(last_included_index) ==> r is Ok && final(self).wf()
                && final(self).same(old(self)) && final(self)@ == old(self)@,
            match r {
                Ok(()) => {
                    &&& last_included_index > 0 || old(self)@.first_index == 1 ==> {
                        &&& final(self)@ == old(self)@.compacting(
                            last_included_index,
                            last_included_term,
                        )
                        &&& final(self).wf()
                    }
                    &&& last_included_index == 0 ==> final(self).contents()
                        == old(self).contents().insert(
                        Key::SnapshotMeta.bytes(),
                        pair_bytes(last_included_index, last_included_term),
                    )
                    &&& final(self).positions() == if old(self)@.is_compacted(last_included_index) {
                        old(self).positions()
                    } else {
                        Positions {
                            first_index: (last_included_index + 1) as u64,
                            snapshot_term: last_included_term,
                            ..old(self).positions()
                        }
                    }
                },
                Err(_) => {
                    &&& !old(self).reliable()
                    &&& final(self).positions() == old(self).positions()
                    &&& differs_up_to(
                        old(self).contents(),
                        final(self).contents(),
                        last_included_index,
                    )
                },
            },
    {
        let ghost view = self@;
        let ghost before = self.engine.contents();
        let ghost reliable = self.reliable();
        proof {
            self.lemma_bounds();
        }
        if last_included_index > 0 && last_included_index < self.first_index {
            return Ok(());
        }
        let mut i: Index = self.first_index;
        assert(front_removed(before, before, view.first_index as int, view.first_index as int));
        while i <= last_included_index
            invariant
                view.first_index <= i,
                i <= last_included_index + 1 || i == view.first_index,
                last_included_index < u64::MAX,
                !view.is_compacted(last_included_index),
                view == old(self)@,
                before == old(self).contents(),
                self.engine.wf(),
                self.positions() == old(self).positions(),
                self.fsync == old(self).fsync,
                self.reliable() == reliable,
                old(self).reliable() == reliable,
                front_removed(
                    before,
                    self.engine.contents(),
                    view.first_index as int,
                    i as int,
                ),
            decreases last_included_index + 1 - i,
        {
            proof {
                lemma_remove_front(
                    before,
                    self.engine.contents(),
                    view.first_index as int,
                    i as int,
                );
            }
            let ghost now = self.engine.contents();
            match self.engine.delete(Key::Entry(i).encode().as_slice()) {
                Ok(()) => {},
                Err(e) => {
                    proof {
                        lemma_index_of_key(i);
                        lemma_front_failed(
                            before,
                            now,
                            self.engine.contents(),
                            view.first_index as int,
                            i as int,
                            last_included_index,
                            entry_key(i),
                        );
                    }
                    return Err(e);
                },
            }
            i = i + 1;
        }
        let ghost now = self.engine.contents();
        let set = self.engine.set(
            Key::SnapshotMeta.encode().as_slice(),
            encode_pair(last_included_index, last_included_term),
        );
        proof {
            assert(self.engine.contents().remove(Key::SnapshotMeta.bytes()) =~= now.remove(
                Key::SnapshotMeta.bytes(),
            ));
            lemma_front_failed(
                before,
                now,
                self.engine.contents(),
                view.first_index as int,
                i as int,
                last_included_index,
                Key::SnapshotMeta.bytes(),
            );
        }
        match set {
            Ok(()) => {},
            Err(e) => return Err(e),
        }
        if self.fsync {
            match self.engine.flush() {
                Ok(()) => {},
                Err(e) => return Err(e),
            }
        }
        self.first_index = last_included_index + 1;
        self.snapshot_term = last_included_term;
        proof {
            if last_included_index == 0 {
                assert(now =~= before);
            }
            if last_included_index > 0 || view.first_index == 1 {
                let after = self.engine.contents();
                assert(front_removed(
                    before,
                    now,
                    view.first_index as int,
                    last_included_index + 1,
                ));
                lemma_compact(
                    before,
                    view,
                    now,
                    after,
                    last_included_index,
                    last_included_term,
                );
                lemma_log_view(after, view.compacting(last_included_index, last_included_term));
            }
        }
        Ok(())
    }

    /// Replaces the whole log by a snapshot: nothing but its index and term are
    /// left, and everything up to it is committed.
    ///
    /// An entry that cannot be read is left in storage, so on an engine that
    /// fails the log may not be well-formed afterwards.
    pub fn reset_with_snapshot(
        &mut self,
        last_included_index: Index,
        last_included_term: Term,
    ) -> (r: Result<()>)
        requires
            old(self).wf(),
            last_included_index < u64::MAX,
        ensures
            final(self).reliable() == old(self).reliable(),
            final(self).is_open(),
            final(self).is_synced() == old(self).is_synced(),
            r is Ok && old(self).is_synced() ==> final(self).is_flushed(),
            match r {
                Ok(()) => {
                    &&& old(self).reliable() ==> final(self).wf()
                    &&& final(self)@ == old(self)@.resetting(
                        last_included_index,
                        last_included_term,
                    )
                    &&& is_reset(
                        old(self).contents(),
                        final(self).contents(),
                        last_included_index,
                        last_included_term,
                    )
                    &&& final(self).positions() == (Positions {
                        first_index: (last_included_index + 1) as u64,
                        snapshot_term: last_included_term,
                        last_index: last_included_index,
                        last_term: last_included_term,
                        commit_index: last_included_index,
                        commit_term: last_included_term,
                        ..old(self).positions()
                    })
                },
                Err(_) => !old(self).reliable() && is_rest_kept(
                    old(self).contents(),
                    final(self).contents(),
                ),
            },
    {
        let ghost view = self@;
        let ghost before = self.engine.contents();
        let ghost reliable = self.reliable();
        let range = entry_range(0, u64::MAX);
        let items = self.engine.scan(&range);
        let ghost keys = choose|keys: Seq<Seq<u8>>| #[trigger]
            lists_keys(keys, before, range) && reads_pairs(items@, keys, before);
        let mut i: usize = 0;
        assert(keys.take(0) =~= seq![]);
        while i < items.len()
            invariant
                i <= items@.len(),
                items@.len() == keys.len(),
                reads_pairs(items@, keys, before),
                reliable ==> forall|k: int| 0 <= k < items@.len() ==> #[trigger] items@[k] is Ok,
                self.engine.wf(),
                self.positions() == old(self).positions(),
                self.fsync == old(self).fsync,
                self.reliable() == reliable,
                old(self).reliable() == reliable,
                reliable ==> keys_removed(before, self.engine.contents(), keys, i as int),
                before == old(self).contents(),
                represents(before, view),
                is_entry_range(range, 0, u64::MAX),
                lists_keys(keys, before, range),
                forall|key: Seq<u8>| is_left(before, self.engine.contents(), key),
            decreases items@.len() - i,
        {
            proof {
                lemma_left(before, self.engine.contents(), view, range, keys, i as int);
                if reliable {
                    lemma_remove_key(before, self.engine.contents(), keys, i as int);
                    assert(items@[i as int] is Ok);
                }
            }
            let ghost now = self.engine.contents();
            match &items[i] {
                Ok((key, _)) => {
                    match self.engine.delete(key.as_slice()) {
                        Ok(()) => {},
                        Err(e) => {
                            proof {
                                lemma_rest_kept(
                                    before,
                                    now,
                                    self.engine.contents(),
                                    keys[i as int],
                                );
                            }
                            return Err(e);
                        },
                    }
                },
                Err(_) => {},
            }
            i = i + 1;
        }
        let ghost now = self.engine.contents();
        let set = self.engine.set(
            Key::SnapshotMeta.encode().as_slice(),
            encode_pair(last_included_index, last_included_term),
        );
        let ghost middle = self.engine.contents();
        proof {
            assert forall|key: Seq<u8>| !is_reset_key(key) implies #[trigger] stored(now, key)
                == stored(before, key) by {
                assert(is_left(before, now, key));
            }
            lemma_rest_kept(before, now, middle, Key::SnapshotMeta.bytes());
        }
        match set {
            Ok(()) => {},
            Err(e) => return Err(e),
        }
        self.commit_index = last_included_index;
        self.commit_term = last_included_term;
        let set = self.engine.set(
            Key::CommitIndex.encode().as_slice(),
            encode_pair(last_included_index, last_included_term),
        );
        proof {
            lemma_rest_kept(before, middle, self.engine.contents(), Key::CommitIndex.bytes());
        }
        match set {
            Ok(()) => {},
            Err(e) => return Err(e),
        }
        if self.fsync {
            match self.engine.flush() {
                Ok(()) => {},
                Err(e) => return Err(e),
            }
        }
        self.first_index = last_included_index + 1;
        self.snapshot_term = last_included_term;
        self.last_index = last_included_index;
        self.last_term = last_included_term;
        proof {
            assert forall|key: Seq<u8>|
                key != Key::SnapshotMeta.bytes() && key != Key::CommitIndex.bytes() implies is_left(
                before,
                self.engine.contents(),
                key,
            ) by {
                assert(is_left(before, now, key));
            }
            assert(is_left(before, now, Key::SnapshotData.bytes()));
            assert(Key::SnapshotData.bytes()[0] != Key::SnapshotMeta.bytes()[0]);
            assert(Key::SnapshotData.bytes()[0] != Key::CommitIndex.bytes()[0]);
            assert(index_of_key(Key::SnapshotData.bytes()) is None);
            assert(self@.snapshot == view.snapshot);
            assert(self@ =~= view.resetting(last_included_index, last_included_term));
            if reliable {
                let after = self.engine.contents();
                lemma_reset(
                    before,
                    view,
                    now,
                    range,
                    keys,
                    last_included_index,
                    last_included_term,
                );
                lemma_log_view(after, view.resetting(last_included_index, last_included_term));
            }
        }
        Ok(())
    }

    /// Stores the state machine's snapshot.
    pub fn set_snapshot(&mut self, data: Vec<u8>) -> (r: Result<()>)
        requires
            old(self).wf(),
        ensures
            final(self).reliable() == old(self).reliable(),
            final(self).is_open(),
            final(self).is_synced() == old(self).is_synced(),
            match r {
                Ok(()) => final(self).wf() && final(self)@ == (LogView {
                    snapshot: Some(data@),
                    ..old(self)@
                }),
                Err(_) => {
                    &&& !old(self).reliable()
                    &&& final(self).positions() == old(self).positions()
                    &&& differs_at(old(self).contents(), final(self).contents(), Key::SnapshotData.bytes())
                },
            },
    {
        let ghost view = self@;
        let ghost before = self.engine.contents();
        let ghost bytes = data@;
        match self.engine.set(Key::SnapshotData.encode().as_slice(), data) {
            Ok(()) => {},
            Err(e) => return Err(e),
        }
        proof {
            let after = self.engine.contents();
            lemma_meta_write(before, Key::SnapshotData, bytes);
            let new = LogView { snapshot: Some(bytes), ..view };
            reveal(represents);
            assert forall|k: int| 0 <= k < new.entries.len() implies ({
                &&& (#[trigger] new.entries[k]).index == new.first_index + k
                &&& stored_entry(after, (new.first_index + k) as u64) == Some(new.entries[k])
            }) by {
                assert(view.entries[k].index == view.first_index + k);
            }
            assert(represents(after, new));
            lemma_log_view(after, new);
        }
        Ok(())
    }

    /// The stored snapshot of the state machine, if there is one.
    pub fn get_snapshot(&mut self) -> (r: Result<Option<Vec<u8>>>)
        requires
            old(self).wf(),
        ensures
            final(self).wf(),
            final(self)@ == old(self)@,
            final(self).same(old(self)),
            final(self).reported() == old(self).reported(),
            final(self).reliable() == old(self).reliable(),
            match r {
                Ok(Some(data)) => old(self)@.snapshot == Some(data@),
                Ok(None) => old(self)@.snapshot is None,
                Err(_) => !old(self).reliable(),
            },
    {
        self.engine.get(Key::SnapshotData.encode().as_slice())
    }

    /// The state of the storage engine.
    pub fn status(&mut self) -> (r: Result<Status>)
        requires
            old(self).wf(),
        ensures
            final(self).wf(),
            final(self)@ == old(self)@,
            final(self).same(old(self)),
            final(self).reported() == old(self).reported(),
            final(self).reliable() == old(self).reliable(),
            match r {
                Ok(status) => status@ == old(self).reported(),
                Err(_) => !old(self).reliable(),
            },
    {
        self.engine.status()
    }
}

} // verus!
