//! Log entries and their encoding.

use std::collections::BTreeSet;

use vstd::prelude::*;

use super::ids::{ascending, ids_of, lemma_ascending, set_of, NodeID};
use super::membership::{Membership, MembershipEntry, MembershipView};
use crate::encoding::bincode::{
    byte_string, byte_string_round_trip, put_bytes, put_u64, read_byte_string, read_varint,
    unknown_option, unknown_variant, varint, varint_round_trip, Reader,
};
use crate::error::{ErrorView, Result};

verus! {

/// A position in the log. The first entry is at 1; 0 stands for none.
pub type Index = u64;

/// A leader's term.
pub type Term = u64;

/// A log entry.
#[derive(Clone, Debug, PartialEq)]
pub struct Entry {
    /// The entry's position.
    pub index: Index,
    /// The term in which it was added.
    pub term: Term,
    /// The command for the state machine. A new leader adds an entry without
    /// one to commit what precedes it.
    pub command: Option<Vec<u8>>,
    /// A membership change, which has no command. It takes effect as soon as it
    /// is in the log.
    pub membership: Option<MembershipEntry>,
}

#[verifier::ext_equal]
pub ghost struct EntryView {
    pub index: Index,
    pub term: Term,
    pub command: Option<Seq<u8>>,
    pub membership: Option<MembershipView>,
}

impl View for Entry {
    type V = EntryView;

    open spec fn view(&self) -> EntryView {
        EntryView {
            index: self.index,
            term: self.term,
            command: match self.command {
                Some(command) => Some(command@),
                None => None,
            },
            membership: match self.membership {
                Some(change) => Some(change@),
                None => None,
            },
        }
    }
}

/// The views of a list of entries.
pub open spec fn entry_views(entries: Seq<Entry>) -> Seq<EntryView> {
    entries.map_values(|entry: Entry| entry@)
}

/// An optional byte string: the byte 0, or the byte 1 and the byte string.
pub open spec fn optional_bytes(data: Option<Seq<u8>>) -> Seq<u8> {
    match data {
        None => seq![0u8],
        Some(data) => seq![1u8] + byte_string(data),
    }
}

pub open spec fn read_optional_bytes(bytes: Seq<u8>) -> Option<(Option<Seq<u8>>, Seq<u8>)> {
    if bytes.len() == 0 {
        None
    } else if bytes[0] == 0 {
        Some((None, bytes.skip(1)))
    } else if bytes[0] == 1 {
        match read_byte_string(bytes.skip(1)) {
            Some((data, rest)) => Some((Some(data), rest)),
            None => None,
        }
    } else {
        None
    }
}

/// A set of node identifiers: their number, then each in ascending order.
pub open spec fn id_set(ids: Set<NodeID>) -> Seq<u8> {
    byte_string(ascending(ids))
}

pub open spec fn read_id_set(bytes: Seq<u8>) -> Option<(Set<NodeID>, Seq<u8>)> {
    match read_byte_string(bytes) {
        Some((ids, rest)) => Some((ids.to_set(), rest)),
        None => None,
    }
}

/// A membership change: the variant, then its configurations.
pub open spec fn membership_bytes(change: MembershipView) -> Seq<u8> {
    match change {
        MembershipView::Joint { old, new } => varint(0) + id_set(old) + id_set(new),
        MembershipView::Simple(voters) => varint(1) + id_set(voters),
    }
}

pub open spec fn read_membership(bytes: Seq<u8>) -> Option<(MembershipView, Seq<u8>)> {
    match read_varint(bytes, 4) {
        Some((variant, rest)) => if variant == 0 {
            match read_id_set(rest) {
                Some((old, rest)) => match read_id_set(rest) {
                    Some((new, rest)) => Some((MembershipView::Joint { old, new }, rest)),
                    None => None,
                },
                None => None,
            }
        } else if variant == 1 {
            match read_id_set(rest) {
                Some((voters, rest)) => Some((MembershipView::Simple(voters), rest)),
                None => None,
            }
        } else {
            None
        },
        None => None,
    }
}

pub open spec fn optional_membership(change: Option<MembershipView>) -> Seq<u8> {
    match change {
        None => seq![0u8],
        Some(change) => seq![1u8] + membership_bytes(change),
    }
}

pub open spec fn read_optional_membership(bytes: Seq<u8>) -> Option<
    (Option<MembershipView>, Seq<u8>),
> {
    if bytes.len() == 0 {
        None
    } else if bytes[0] == 0 {
        Some((None, bytes.skip(1)))
    } else if bytes[0] == 1 {
        match read_membership(bytes.skip(1)) {
            Some((change, rest)) => Some((Some(change), rest)),
            None => None,
        }
    } else {
        None
    }
}

/// An entry: its fields in order.
pub open spec fn entry_bytes(entry: EntryView) -> Seq<u8> {
    varint(entry.index as nat) + varint(entry.term as nat) + optional_bytes(entry.command)
        + optional_membership(entry.membership)
}

/// Reads an entry off the front of `bytes`.
#[verifier::opaque]
pub open spec fn read_entry(bytes: Seq<u8>) -> Option<(EntryView, Seq<u8>)> {
    match read_varint(bytes, 8) {
        Some((index, rest)) => match read_varint(rest, 8) {
            Some((term, rest)) => match read_optional_bytes(rest) {
                Some((command, rest)) => match read_optional_membership(rest) {
                    Some((membership, rest)) => Some(
                        (
                            EntryView {
                                index: index as u64,
                                term: term as u64,
                                command,
                                membership,
                            },
                            rest,
                        ),
                    ),
                    None => None,
                },
                None => None,
            },
            None => None,
        },
        None => None,
    }
}

/// Whether the command is one that memory can hold.
pub open spec fn command_fits(command: Option<Seq<u8>>) -> bool {
    command matches Some(data) ==> data.len() <= u64::MAX
}

/// Reading back an optional byte string gives what was written.
pub proof fn optional_bytes_round_trip(data: Option<Seq<u8>>, rest: Seq<u8>)
    requires
        command_fits(data),
    ensures
        read_optional_bytes(optional_bytes(data) + rest) == Some((data, rest)),
{
    match data {
        None => {
            assert((seq![0u8] + rest).skip(1) =~= rest);
        },
        Some(data) => {
            byte_string_round_trip(data, rest);
            assert((seq![1u8] + byte_string(data) + rest).skip(1) =~= byte_string(data) + rest);
        },
    }
}

/// Reading back a set of identifiers gives the set written.
pub proof fn id_set_round_trip(ids: Set<NodeID>, rest: Seq<u8>)
    ensures
        read_id_set(id_set(ids) + rest) == Some((ids, rest)),
{
    lemma_ascending(ids);
    byte_string_round_trip(ascending(ids), rest);
}

/// Reading back a membership change gives the change written.
pub proof fn membership_round_trip(change: MembershipView, rest: Seq<u8>)
    ensures
        read_membership(membership_bytes(change) + rest) == Some((change, rest)),
{
    match change {
        MembershipView::Joint { old, new } => {
            varint_round_trip(0, id_set(old) + (id_set(new) + rest), 4);
            id_set_round_trip(old, id_set(new) + rest);
            id_set_round_trip(new, rest);
            assert(membership_bytes(change) + rest =~= varint(0) + (id_set(old) + (id_set(new)
                + rest)));
        },
        MembershipView::Simple(voters) => {
            varint_round_trip(1, id_set(voters) + rest, 4);
            id_set_round_trip(voters, rest);
            assert(membership_bytes(change) + rest =~= varint(1) + (id_set(voters) + rest));
        },
    }
}

proof fn optional_membership_round_trip(change: Option<MembershipView>, rest: Seq<u8>)
    ensures
        read_optional_membership(optional_membership(change) + rest) == Some((change, rest)),
{
    match change {
        None => {
            assert((seq![0u8] + rest).skip(1) =~= rest);
        },
        Some(change) => {
            membership_round_trip(change, rest);
            assert((seq![1u8] + membership_bytes(change) + rest).skip(1) =~= membership_bytes(
                change,
            ) + rest);
        },
    }
}

/// Reading back an entry gives the entry written, and what follows it is left.
pub proof fn entry_round_trip(entry: EntryView, rest: Seq<u8>)
    requires
        command_fits(entry.command),
    ensures
        read_entry(entry_bytes(entry) + rest) == Some((entry, rest)),
{
    reveal(read_entry);
    let after_command = optional_membership(entry.membership) + rest;
    let after_term = optional_bytes(entry.command) + after_command;
    let after_index = varint(entry.term as nat) + after_term;
    assert(entry_bytes(entry) + rest =~= varint(entry.index as nat) + after_index);
    varint_round_trip(entry.index as nat, after_index, 8);
    varint_round_trip(entry.term as nat, after_term, 8);
    optional_bytes_round_trip(entry.command, after_command);
    optional_membership_round_trip(entry.membership, rest);
}

/// Appends an optional byte string.
pub fn put_optional_bytes(out: &mut Vec<u8>, data: &Option<Vec<u8>>)
    ensures
        final(out)@ == old(out)@ + optional_bytes(
            match *data {
                Some(data) => Some(data@),
                None => None,
            },
        ),
{
    match data {
        None => {
            out.push(0);
        },
        Some(data) => {
            out.push(1);
            put_bytes(out, data.as_slice());
        },
    }
}

/// Appends a set of identifiers.
pub fn put_id_set(out: &mut Vec<u8>, ids: &BTreeSet<NodeID>)
    ensures
        final(out)@ == old(out)@ + id_set(ids@),
{
    let ids = ids_of(ids);
    put_bytes(out, ids.as_slice());
}

/// Appends a membership change.
pub fn put_membership(out: &mut Vec<u8>, change: &MembershipEntry)
    ensures
        final(out)@ == old(out)@ + membership_bytes(change@),
{
    match change {
        MembershipEntry::Joint { old: before, new } => {
            put_u64(out, 0);
            put_id_set(out, &before.voters);
            put_id_set(out, &new.voters);
        },
        MembershipEntry::Simple(voters) => {
            put_u64(out, 1);
            put_id_set(out, &voters.voters);
        },
    }
    assert(out@ =~= old(out)@ + membership_bytes(change@));
}

/// Appends an entry.
pub fn put_entry(out: &mut Vec<u8>, entry: &Entry)
    ensures
        final(out)@ == old(out)@ + entry_bytes(entry@),
{
    put_u64(out, entry.index);
    put_u64(out, entry.term);
    put_optional_bytes(out, &entry.command);
    match &entry.membership {
        None => {
            out.push(0);
        },
        Some(change) => {
            out.push(1);
            put_membership(out, change);
        },
    }
    assert(out@ =~= old(out)@ + entry_bytes(entry@));
}

/// Reads an optional byte string.
pub fn take_optional_bytes(reader: &mut Reader) -> (r: Result<Option<Vec<u8>>>)
    requires
        old(reader).wf(),
    ensures
        final(reader).wf(),
        match r {
            Ok(data) => read_optional_bytes(old(reader).rest()) == Some(
                (
                    match data {
                        Some(data) => Some(data@),
                        None => None,
                    },
                    final(reader).rest(),
                ),
            ),
            Err(e) => read_optional_bytes(old(reader).rest()) is None && e@
                == ErrorView::InvalidData,
        },
{
    let tag = match reader.byte() {
        Ok(tag) => tag,
        Err(e) => return Err(e),
    };
    if tag == 0 {
        Ok(None)
    } else if tag == 1 {
        match reader.byte_string() {
            Ok(data) => Ok(Some(data)),
            Err(e) => Err(e),
        }
    } else {
        Err(unknown_option(tag))
    }
}

/// Reads an optional node identifier.
pub fn take_vote(reader: &mut Reader) -> (r: Result<Option<NodeID>>)
    requires
        old(reader).wf(),
    ensures
        final(reader).wf(),
        match r {
            Ok(None) => old(reader).rest().len() >= 1 && old(reader).rest()[0] == 0
                && final(reader).rest() == old(reader).rest().skip(1),
            Ok(Some(id)) => old(reader).rest().len() >= 2 && old(reader).rest()[0] == 1 && id
                == old(reader).rest()[1] && final(reader).rest() == old(reader).rest().skip(2),
            Err(e) => {
                &&& e@ == ErrorView::InvalidData
                &&& old(reader).rest().len() == 0 || old(reader).rest()[0] > 1 || (
                old(reader).rest()[0] == 1 && old(reader).rest().len() < 2)
            },
        },
{
    let tag = match reader.byte() {
        Ok(tag) => tag,
        Err(e) => return Err(e),
    };
    if tag == 0 {
        Ok(None)
    } else if tag == 1 {
        match reader.byte() {
            Ok(id) => {
                assert(old(reader).rest().skip(1).skip(1) =~= old(reader).rest().skip(2));
                Ok(Some(id))
            },
            Err(e) => Err(e),
        }
    } else {
        Err(unknown_option(tag))
    }
}

/// Reads a set of identifiers.
pub fn take_id_set(reader: &mut Reader) -> (r: Result<BTreeSet<NodeID>>)
    requires
        old(reader).wf(),
    ensures
        final(reader).wf(),
        match r {
            Ok(ids) => read_id_set(old(reader).rest()) == Some((ids@, final(reader).rest())),
            Err(e) => read_id_set(old(reader).rest()) is None && e@ == ErrorView::InvalidData,
        },
{
    match reader.byte_string() {
        Ok(ids) => Ok(set_of(ids.as_slice())),
        Err(e) => Err(e),
    }
}

/// Reads a membership change.
pub fn take_membership(reader: &mut Reader) -> (r: Result<MembershipEntry>)
    requires
        old(reader).wf(),
    ensures
        final(reader).wf(),
        match r {
            Ok(change) => read_membership(old(reader).rest()) == Some(
                (change@, final(reader).rest()),
            ),
            Err(e) => read_membership(old(reader).rest()) is None && e@ == ErrorView::InvalidData,
        },
{
    let variant = match reader.variant() {
        Ok(variant) => variant,
        Err(e) => return Err(e),
    };
    if variant == 0 {
        let before = match take_id_set(reader) {
            Ok(ids) => ids,
            Err(e) => return Err(e),
        };
        match take_id_set(reader) {
            Ok(ids) => Ok(
                MembershipEntry::Joint {
                    old: Membership { voters: before },
                    new: Membership { voters: ids },
                },
            ),
            Err(e) => Err(e),
        }
    } else if variant == 1 {
        match take_id_set(reader) {
            Ok(ids) => Ok(MembershipEntry::Simple(Membership { voters: ids })),
            Err(e) => Err(e),
        }
    } else {
        Err(unknown_variant(variant, 2))
    }
}

fn take_optional_membership(reader: &mut Reader) -> (r: Result<Option<MembershipEntry>>)
    requires
        old(reader).wf(),
    ensures
        final(reader).wf(),
        match r {
            Ok(change) => read_optional_membership(old(reader).rest()) == Some(
                (
                    match change {
                        Some(change) => Some(change@),
                        None => None,
                    },
                    final(reader).rest(),
                ),
            ),
            Err(e) => read_optional_membership(old(reader).rest()) is None && e@
                == ErrorView::InvalidData,
        },
{
    let tag = match reader.byte() {
        Ok(tag) => tag,
        Err(e) => return Err(e),
    };
    if tag == 0 {
        Ok(None)
    } else if tag == 1 {
        match take_membership(reader) {
            Ok(change) => Ok(Some(change)),
            Err(e) => Err(e),
        }
    } else {
        Err(unknown_option(tag))
    }
}

/// Reads an entry.
pub fn take_entry(reader: &mut Reader) -> (r: Result<Entry>)
    requires
        old(reader).wf(),
    ensures
        final(reader).wf(),
        match r {
            Ok(entry) => read_entry(old(reader).rest()) == Some((entry@, final(reader).rest())),
            Err(e) => read_entry(old(reader).rest()) is None && e@ == ErrorView::InvalidData,
        },
{
    proof {
        reveal(read_entry);
    }
    let index = match reader.u64() {
        Ok(index) => index,
        Err(e) => return Err(e),
    };
    let term = match reader.u64() {
        Ok(term) => term,
        Err(e) => return Err(e),
    };
    let command = match take_optional_bytes(reader) {
        Ok(command) => command,
        Err(e) => return Err(e),
    };
    match take_optional_membership(reader) {
        Ok(membership) => Ok(Entry { index, term, command, membership }),
        Err(e) => Err(e),
    }
}

/// A copy of an optional byte string.
pub fn duplicate_bytes(data: &Option<Vec<u8>>) -> (r: Option<Vec<u8>>)
    ensures
        match (*data, r) {
            (Some(a), Some(b)) => a@ == b@,
            (None, None) => true,
            _ => false,
        },
{
    match data {
        Some(data) => Some(vstd::slice::slice_to_vec(data.as_slice())),
        None => None,
    }
}

impl Entry {
    /// The entry as bytes.
    pub fn encode(&self) -> (r: Vec<u8>)
        ensures
            r@ == entry_bytes(self@),
    {
        let mut out: Vec<u8> = Vec::new();
        put_entry(&mut out, self);
        assert(out@ =~= entry_bytes(self@));
        out
    }

    /// The entry at the front of `bytes`.
    pub fn decode(bytes: &[u8]) -> (r: Result<Entry>)
        ensures
            match r {
                Ok(entry) => read_entry(bytes@) matches Some((read, _)) && entry@ == read,
                Err(e) => read_entry(bytes@) is None && e@ == ErrorView::InvalidData,
            },
    {
        let mut reader = Reader::new(bytes);
        take_entry(&mut reader)
    }

    /// The same entry.
    pub fn duplicate(&self) -> (r: Entry)
        ensures
            r@ == self@,
    {
        Entry {
            index: self.index,
            term: self.term,
            command: duplicate_bytes(&self.command),
            membership: match &self.membership {
                Some(change) => Some(change.duplicate()),
                None => None,
            },
        }
    }

    /// Whether two entries carry the same command and membership change.
    pub fn same_content(&self, other: &Entry) -> (r: bool)
        ensures
            r == (self@.command == other@.command && self@.membership == other@.membership),
    {
        let same_command = match (&self.command, &other.command) {
            (Some(a), Some(b)) => same_bytes(a.as_slice(), b.as_slice()),
            (None, None) => true,
            _ => false,
        };
        let same_membership = match (&self.membership, &other.membership) {
            (Some(a), Some(b)) => a.same(b),
            (None, None) => true,
            _ => false,
        };
        same_command && same_membership
    }
}

/// Whether two byte strings are equal.
pub fn same_bytes(a: &[u8], b: &[u8]) -> (r: bool)
    ensures
        r == (a@ == b@),
{
    if a.len() != b.len() {
        return false;
    }
    let mut i: usize = 0;
    while i < a.len()
        invariant
            i <= a@.len(),
            a@.len() == b@.len(),
            a@.take(i as int) == b@.take(i as int),
        decreases a@.len() - i,
    {
        if a[i] != b[i] {
            return false;
        }
        assert(a@.take(i + 1) =~= a@.take(i as int).push(a@[i as int]));
        assert(b@.take(i + 1) =~= b@.take(i as int).push(b@[i as int]));
        i = i + 1;
    }
    assert(a@.take(i as int) =~= a@);
    assert(b@.take(i as int) =~= b@);
    true
}

/// A copy of a list of entries.
pub fn duplicate_entries(entries: &Vec<Entry>) -> (r: Vec<Entry>)
    ensures
        entry_views(r@) == entry_views(entries@),
{
    let mut out: Vec<Entry> = Vec::new();
    let mut i: usize = 0;
    while i < entries.len()
        invariant
            i <= entries@.len(),
            out@.len() == i,
            forall|k: int| 0 <= k < i ==> #[trigger] out@[k]@ == entries@[k]@,
        decreases entries@.len() - i,
    {
        out.push(entries[i].duplicate());
        i = i + 1;
    }
    assert(entry_views(out@) =~= entry_views(entries@));
    out
}

} // verus!
