//! The encoding of what messages are made of.

use std::collections::BTreeMap;

use vstd::prelude::*;
use vstd::utf8::encode_utf8;

use crate::encoding::bincode::{
    byte_string, byte_string_round_trip, put_bytes, put_text, put_u64, read_byte_string, read_text,
    read_varint, text, text_round_trip, unknown_flag, unknown_result, unknown_variant, varint,
    varint_round_trip, wrong_identifier, Reader,
};
use crate::encoding::bytes::{
    be_bytes, be_round_trip, chain2, chain4, from_be, lemma_byte_pow, to_be,
};
use crate::error::{error_detail, Error, ErrorView, Result};
use crate::raft::entry::{
    command_fits, entry_bytes, entry_round_trip, entry_views, id_set, id_set_round_trip, put_entry,
    put_id_set, read_entry, read_id_set, take_entry, take_id_set, Entry, EntryView, Index,
};
use crate::raft::ids::{ascending, keys_of, lemma_ascending, ordered, unordered, NodeID};
use crate::raft::message::{
    answer, answer_detail, AnswerView, Request, RequestView, Response, ResponseView, Status,
    StatusView,
};
use crate::raft::session::read_client;
use crate::storage::engine::{Status as StorageStatus, StatusView as StorageStatusView};

verus! {

broadcast use vstd::std_specs::btree::group_btree_axioms;

// Numbers.

pub open spec fn read_u64(bytes: Seq<u8>) -> Option<(u64, Seq<u8>)> {
    match read_varint(bytes, 8) {
        Some((value, rest)) => Some((value as u64, rest)),
        None => None,
    }
}

pub open spec fn two(a: u64, b: u64) -> Seq<u8> {
    varint(a as nat) + varint(b as nat)
}

pub open spec fn read_two(bytes: Seq<u8>) -> Option<(u64, u64, Seq<u8>)> {
    match read_u64(bytes) {
        Some((a, rest)) => match read_u64(rest) {
            Some((b, rest)) => Some((a, b, rest)),
            None => None,
        },
        None => None,
    }
}

pub open spec fn flag(value: bool) -> Seq<u8> {
    seq![
        if value {
            1u8
        } else {
            0u8
        },
    ]
}

pub open spec fn read_flag(bytes: Seq<u8>) -> Option<(bool, Seq<u8>)> {
    if bytes.len() > 0 && bytes[0] <= 1 {
        Some((bytes[0] == 1, bytes.skip(1)))
    } else {
        None
    }
}

/// An identifier: a byte string of its sixteen bytes.
pub open spec fn identifier(id: u128) -> Seq<u8> {
    byte_string(be_bytes(id as nat, 16))
}

pub proof fn u64_round_trip(value: u64, rest: Seq<u8>)
    ensures
        read_u64(varint(value as nat) + rest) == Some((value, rest)),
{
    varint_round_trip(value as nat, rest, 8);
}

pub proof fn two_round_trip(a: u64, b: u64, rest: Seq<u8>)
    ensures
        read_two(two(a, b) + rest) == Some((a, b, rest)),
{
    u64_round_trip(a, varint(b as nat) + rest);
    u64_round_trip(b, rest);
    assert(two(a, b) + rest =~= varint(a as nat) + (varint(b as nat) + rest));
}

pub proof fn flag_round_trip(value: bool, rest: Seq<u8>)
    ensures
        read_flag(flag(value) + rest) == Some((value, rest)),
{
    assert((flag(value) + rest).skip(1) =~= rest);
}

pub proof fn uuid_round_trip(id: u128, rest: Seq<u8>)
    ensures
        read_client(identifier(id) + rest) == Some((id, rest)),
{
    lemma_byte_pow();
    be_round_trip(id as nat, 16);
    byte_string_round_trip(be_bytes(id as nat, 16), rest);
}

pub fn take_two(reader: &mut Reader) -> (r: Result<(u64, u64)>)
    requires
        old(reader).wf(),
    ensures
        final(reader).wf(),
        match r {
            Ok((a, b)) => read_two(old(reader).rest()) == Some((a, b, final(reader).rest())),
            Err(e) => read_two(old(reader).rest()) is None && e@ == ErrorView::InvalidData,
        },
{
    let a = match reader.u64() {
        Ok(a) => a,
        Err(e) => return Err(e),
    };
    match reader.u64() {
        Ok(b) => Ok((a, b)),
        Err(e) => Err(e),
    }
}

pub fn take_flag(reader: &mut Reader) -> (r: Result<bool>)
    requires
        old(reader).wf(),
    ensures
        final(reader).wf(),
        match r {
            Ok(value) => read_flag(old(reader).rest()) == Some((value, final(reader).rest())),
            Err(e) => read_flag(old(reader).rest()) is None && e@ == ErrorView::InvalidData,
        },
{
    match reader.byte() {
        Ok(0) => Ok(false),
        Ok(1) => Ok(true),
        Ok(found) => Err(unknown_flag(found)),
        Err(e) => Err(e),
    }
}

pub fn put_uuid(out: &mut Vec<u8>, id: u128)
    ensures
        final(out)@ == old(out)@ + identifier(id),
{
    put_bytes(out, to_be(id, 16).as_slice());
}

pub fn take_uuid(reader: &mut Reader) -> (r: Result<u128>)
    requires
        old(reader).wf(),
    ensures
        final(reader).wf(),
        match r {
            Ok(id) => read_client(old(reader).rest()) == Some((id, final(reader).rest())),
            Err(e) => read_client(old(reader).rest()) is None && e@ == ErrorView::InvalidData,
        },
{
    match reader.byte_string() {
        Ok(id) => if id.len() == 16 {
            Ok(from_be(id.as_slice()))
        } else {
            Err(wrong_identifier(id.len()))
        },
        Err(e) => Err(e),
    }
}

// Entries.

pub open spec fn entries_bytes(entries: Seq<EntryView>) -> Seq<u8>
    decreases entries.len(),
{
    if entries.len() == 0 {
        seq![]
    } else {
        entries_bytes(entries.drop_last()) + entry_bytes(entries.last())
    }
}

/// Reads `n` entries after those that were read.
pub open spec fn read_entries(bytes: Seq<u8>, n: nat, before: Seq<EntryView>) -> Option<
    (Seq<EntryView>, Seq<u8>),
>
    decreases n,
{
    if n == 0 {
        Some((before, bytes))
    } else {
        match read_entry(bytes) {
            Some((entry, rest)) => read_entries(rest, (n - 1) as nat, before.push(entry)),
            None => None,
        }
    }
}

/// A list of entries: their number, then each.
pub open spec fn entry_list(entries: Seq<EntryView>) -> Seq<u8> {
    varint(entries.len()) + entries_bytes(entries)
}

#[verifier::opaque]
pub open spec fn read_entry_list(bytes: Seq<u8>) -> Option<(Seq<EntryView>, Seq<u8>)> {
    match read_varint(bytes, 8) {
        Some((n, rest)) => read_entries(rest, n, seq![]),
        None => None,
    }
}

pub open spec fn entries_fit(entries: Seq<EntryView>) -> bool {
    &&& entries.len() <= u64::MAX
    &&& forall|i: int| 0 <= i < entries.len() ==> command_fits((#[trigger] entries[i]).command)
}

proof fn lemma_entries_front(entries: Seq<EntryView>)
    requires
        entries.len() > 0,
    ensures
        entries_bytes(entries) == entry_bytes(entries[0]) + entries_bytes(entries.skip(1)),
    decreases entries.len(),
{
    let tail = entries.skip(1);
    if entries.len() == 1 {
        assert(entries.drop_last() =~= seq![]);
        assert(tail =~= seq![]);
        assert(entries_bytes(entries) =~= entry_bytes(entries[0]) + entries_bytes(tail));
    } else {
        lemma_entries_front(entries.drop_last());
        assert(entries.drop_last().skip(1) =~= tail.drop_last());
        assert(entries_bytes(entries) =~= entry_bytes(entries[0]) + entries_bytes(tail));
    }
}

proof fn lemma_read_entries(entries: Seq<EntryView>, rest: Seq<u8>, before: Seq<EntryView>)
    requires
        entries_fit(entries),
    ensures
        read_entries(entries_bytes(entries) + rest, entries.len(), before) == Some(
            (before + entries, rest),
        ),
    decreases entries.len(),
{
    if entries.len() == 0 {
        assert(entries_bytes(entries) + rest =~= rest);
        assert(before + entries =~= before);
    } else {
        let tail = entries.skip(1);
        lemma_entries_front(entries);
        assert(command_fits(entries[0].command));
        entry_round_trip(entries[0], entries_bytes(tail) + rest);
        assert(entries_bytes(entries) + rest =~= entry_bytes(entries[0]) + (entries_bytes(tail)
            + rest));
        assert forall|i: int| 0 <= i < tail.len() implies command_fits(
            (#[trigger] tail[i]).command,
        ) by {
            assert(tail[i] == entries[i + 1]);
        }
        lemma_read_entries(tail, rest, before.push(entries[0]));
        assert(before.push(entries[0]) + tail =~= before + entries);
    }
}

pub proof fn entry_list_round_trip(entries: Seq<EntryView>, rest: Seq<u8>)
    requires
        entries_fit(entries),
    ensures
        read_entry_list(entry_list(entries) + rest) == Some((entries, rest)),
{
    reveal(read_entry_list);
    varint_round_trip(entries.len(), entries_bytes(entries) + rest, 8);
    lemma_read_entries(entries, rest, seq![]);
    assert(entry_list(entries) + rest =~= varint(entries.len()) + (entries_bytes(entries) + rest));
    assert(Seq::<EntryView>::empty() + entries =~= entries);
}

pub fn put_entry_list(out: &mut Vec<u8>, entries: &Vec<Entry>)
    ensures
        final(out)@ == old(out)@ + entry_list(entry_views(entries@)),
{
    let ghost views = entry_views(entries@);
    put_u64(out, entries.len() as u64);
    let mut i: usize = 0;
    assert(views.take(0) =~= seq![]);
    while i < entries.len()
        invariant
            i <= entries@.len(),
            views == entry_views(entries@),
            out@ == old(out)@ + varint(entries@.len()) + entries_bytes(views.take(i as int)),
        decreases entries@.len() - i,
    {
        put_entry(out, &entries[i]);
        proof {
            assert(views.take(i + 1).drop_last() =~= views.take(i as int));
            assert(out@ =~= old(out)@ + varint(entries@.len()) + entries_bytes(views.take(i + 1)));
        }
        i = i + 1;
    }
    assert(views.take(i as int) =~= views);
    assert(out@ =~= old(out)@ + entry_list(views));
}

pub fn take_entry_list(reader: &mut Reader) -> (r: Result<Vec<Entry>>)
    requires
        old(reader).wf(),
    ensures
        final(reader).wf(),
        match r {
            Ok(entries) => read_entry_list(old(reader).rest()) == Some(
                (entry_views(entries@), final(reader).rest()),
            ),
            Err(e) => read_entry_list(old(reader).rest()) is None && e@ == ErrorView::InvalidData,
        },
{
    proof {
        reveal(read_entry_list);
    }
    let ghost start = reader.rest();
    let n = match reader.u64() {
        Ok(n) => n,
        Err(e) => return Err(e),
    };
    let mut entries: Vec<Entry> = Vec::new();
    assert(entry_views(entries@) =~= seq![]);
    let mut left: u64 = n;
    while left > 0
        invariant
            reader.wf(),
            start == old(reader).rest(),
            read_entry_list(start) == read_entries(
                reader.rest(),
                left as nat,
                entry_views(entries@),
            ),
        decreases left,
    {
        let ghost before = entry_views(entries@);
        let entry = match take_entry(reader) {
            Ok(entry) => entry,
            Err(e) => return Err(e),
        };
        let ghost view = entry@;
        entries.push(entry);
        assert(entry_views(entries@) =~= before.push(view));
        left = left - 1;
    }
    Ok(entries)
}

// Requests.

pub open spec fn request_bytes(request: RequestView) -> Seq<u8> {
    match request {
        RequestView::Read(command) => varint(0) + byte_string(command),
        RequestView::Write(command) => varint(1) + byte_string(command),
        RequestView::WriteSession { client_id, seq, command } => varint(2) + identifier(client_id)
            + varint(seq as nat) + byte_string(command),
        RequestView::Status => varint(3),
        RequestView::ChangeMembership { voters } => varint(4) + id_set(voters),
    }
}

#[verifier::opaque]
pub open spec fn read_request(bytes: Seq<u8>) -> Option<(RequestView, Seq<u8>)> {
    match read_varint(bytes, 4) {
        Some((variant, rest)) => if variant == 0 {
            match read_byte_string(rest) {
                Some((command, rest)) => Some((RequestView::Read(command), rest)),
                None => None,
            }
        } else if variant == 1 {
            match read_byte_string(rest) {
                Some((command, rest)) => Some((RequestView::Write(command), rest)),
                None => None,
            }
        } else if variant == 2 {
            match read_client(rest) {
                Some((client_id, rest)) => match read_u64(rest) {
                    Some((seq, rest)) => match read_byte_string(rest) {
                        Some((command, rest)) => Some(
                            (RequestView::WriteSession { client_id, seq, command }, rest),
                        ),
                        None => None,
                    },
                    None => None,
                },
                None => None,
            }
        } else if variant == 3 {
            Some((RequestView::Status, rest))
        } else if variant == 4 {
            match read_id_set(rest) {
                Some((voters, rest)) => Some((RequestView::ChangeMembership { voters }, rest)),
                None => None,
            }
        } else {
            None
        },
        None => None,
    }
}

pub open spec fn request_fits(request: RequestView) -> bool {
    match request {
        RequestView::Read(command) => command.len() <= u64::MAX,
        RequestView::Write(command) => command.len() <= u64::MAX,
        RequestView::WriteSession { command, .. } => command.len() <= u64::MAX,
        _ => true,
    }
}

/// The request written is the one read back.
pub proof fn request_round_trip(request: RequestView, rest: Seq<u8>)
    requires
        request_fits(request),
    ensures
        read_request(request_bytes(request) + rest) == Some((request, rest)),
{
    reveal(read_request);
    match request {
        RequestView::Read(command) => {
            varint_round_trip(0, byte_string(command) + rest, 4);
            byte_string_round_trip(command, rest);
            chain2(varint(0), byte_string(command), rest);
        },
        RequestView::Write(command) => {
            varint_round_trip(1, byte_string(command) + rest, 4);
            byte_string_round_trip(command, rest);
            chain2(varint(1), byte_string(command), rest);
        },
        RequestView::WriteSession { client_id, seq, command } => {
            let last = byte_string(command) + rest;
            let more = varint(seq as nat) + last;
            varint_round_trip(2, identifier(client_id) + more, 4);
            uuid_round_trip(client_id, more);
            u64_round_trip(seq, last);
            byte_string_round_trip(command, rest);
            chain4(varint(2), identifier(client_id), varint(seq as nat), byte_string(command), rest);
        },
        RequestView::Status => {
            varint_round_trip(3, rest, 4);
        },
        RequestView::ChangeMembership { voters } => {
            varint_round_trip(4, id_set(voters) + rest, 4);
            id_set_round_trip(voters, rest);
            chain2(varint(4), id_set(voters), rest);
        },
    }
}

pub fn put_request(out: &mut Vec<u8>, request: &Request)
    ensures
        final(out)@ == old(out)@ + request_bytes(request@),
{
    match request {
        Request::Read(command) => {
            put_u64(out, 0);
            put_bytes(out, command.as_slice());
        },
        Request::Write(command) => {
            put_u64(out, 1);
            put_bytes(out, command.as_slice());
        },
        Request::WriteSession { client_id, seq, command } => {
            put_u64(out, 2);
            put_uuid(out, *client_id);
            put_u64(out, *seq);
            put_bytes(out, command.as_slice());
        },
        Request::Status => {
            put_u64(out, 3);
        },
        Request::ChangeMembership { voters } => {
            put_u64(out, 4);
            put_id_set(out, &ordered(voters));
        },
    }
    assert(out@ =~= old(out)@ + request_bytes(request@));
}

pub fn take_request(reader: &mut Reader) -> (r: Result<Request>)
    requires
        old(reader).wf(),
    ensures
        final(reader).wf(),
        match r {
            Ok(request) => read_request(old(reader).rest()) == Some(
                (request@, final(reader).rest()),
            ),
            Err(e) => read_request(old(reader).rest()) is None && e@ == ErrorView::InvalidData,
        },
{
    proof {
        reveal(read_request);
    }
    let variant = match reader.variant() {
        Ok(variant) => variant,
        Err(e) => return Err(e),
    };
    if variant == 0 {
        match reader.byte_string() {
            Ok(command) => Ok(Request::Read(command)),
            Err(e) => Err(e),
        }
    } else if variant == 1 {
        match reader.byte_string() {
            Ok(command) => Ok(Request::Write(command)),
            Err(e) => Err(e),
        }
    } else if variant == 2 {
        let client_id = match take_uuid(reader) {
            Ok(client_id) => client_id,
            Err(e) => return Err(e),
        };
        let seq = match reader.u64() {
            Ok(seq) => seq,
            Err(e) => return Err(e),
        };
        match reader.byte_string() {
            Ok(command) => Ok(Request::WriteSession { client_id, seq, command }),
            Err(e) => Err(e),
        }
    } else if variant == 3 {
        Ok(Request::Status)
    } else if variant == 4 {
        match take_id_set(reader) {
            Ok(voters) => Ok(Request::ChangeMembership { voters: unordered(&voters) }),
            Err(e) => Err(e),
        }
    } else {
        Err(unknown_variant(variant, 5))
    }
}

// The state of a cluster.

pub open spec fn indexes_bytes(ids: Seq<NodeID>, indexes: Map<NodeID, Index>) -> Seq<u8>
    decreases ids.len(),
{
    if ids.len() == 0 {
        seq![]
    } else {
        seq![ids[0]] + varint(indexes[ids[0]] as nat) + indexes_bytes(ids.skip(1), indexes)
    }
}

/// The index of each node: their number, then each node with its index.
pub open spec fn index_map(indexes: Map<NodeID, Index>) -> Seq<u8> {
    let ids = ascending(indexes.dom());
    varint(ids.len()) + indexes_bytes(ids, indexes)
}

pub open spec fn read_indexes(bytes: Seq<u8>, n: nat, before: Map<NodeID, Index>) -> Option<
    (Map<NodeID, Index>, Seq<u8>),
>
    decreases n,
{
    if n == 0 {
        Some((before, bytes))
    } else if bytes.len() == 0 {
        None
    } else {
        match read_u64(bytes.skip(1)) {
            Some((index, rest)) => read_indexes(
                rest,
                (n - 1) as nat,
                before.insert(bytes[0], index),
            ),
            None => None,
        }
    }
}

pub open spec fn read_index_map(bytes: Seq<u8>) -> Option<(Map<NodeID, Index>, Seq<u8>)> {
    match read_varint(bytes, 8) {
        Some((n, rest)) => read_indexes(rest, n, Map::empty()),
        None => None,
    }
}

spec fn joined(
    ids: Seq<NodeID>,
    indexes: Map<NodeID, Index>,
    before: Map<NodeID, Index>,
) -> Map<NodeID, Index>
    decreases ids.len(),
{
    if ids.len() == 0 {
        before
    } else {
        joined(ids.skip(1), indexes, before.insert(ids[0], indexes[ids[0]]))
    }
}

proof fn lemma_joined(
    ids: Seq<NodeID>,
    indexes: Map<NodeID, Index>,
    before: Map<NodeID, Index>,
    id: NodeID,
)
    ensures
        ({
            let after = joined(ids, indexes, before);
            if ids.contains(id) {
                after.contains_key(id) && after[id] == indexes[id]
            } else {
                after.contains_key(id) == before.contains_key(id) && after[id] == before[id]
            }
        }),
    decreases ids.len(),
{
    if ids.len() > 0 {
        let tail = ids.skip(1);
        lemma_joined(tail, indexes, before.insert(ids[0], indexes[ids[0]]), id);
        if ids.contains(id) {
            let i = choose|i: int| 0 <= i < ids.len() && ids[i] == id;
            if i > 0 {
                assert(tail[i - 1] == id);
            }
        } else {
            assert(id != ids[0]);
            if tail.contains(id) {
                let i = choose|i: int| 0 <= i < tail.len() && tail[i] == id;
                assert(ids[i + 1] == id);
            }
        }
    }
}

proof fn lemma_read_indexes(
    ids: Seq<NodeID>,
    indexes: Map<NodeID, Index>,
    rest: Seq<u8>,
    before: Map<NodeID, Index>,
)
    ensures
        read_indexes(indexes_bytes(ids, indexes) + rest, ids.len(), before) == Some(
            (joined(ids, indexes, before), rest),
        ),
    decreases ids.len(),
{
    let all = indexes_bytes(ids, indexes) + rest;
    if ids.len() == 0 {
        assert(all =~= rest);
    } else {
        let id = ids[0];
        let more = indexes_bytes(ids.skip(1), indexes) + rest;
        u64_round_trip(indexes[id], more);
        assert(all.skip(1) =~= varint(indexes[id] as nat) + more);
        assert(all[0] == id);
        lemma_read_indexes(ids.skip(1), indexes, rest, before.insert(id, indexes[id]));
    }
}

proof fn index_map_round_trip(indexes: Map<NodeID, Index>, rest: Seq<u8>)
    ensures
        read_index_map(index_map(indexes) + rest) == Some((indexes, rest)),
{
    let ids = ascending(indexes.dom());
    lemma_ascending(indexes.dom());
    varint_round_trip(ids.len(), indexes_bytes(ids, indexes) + rest, 8);
    lemma_read_indexes(ids, indexes, rest, Map::empty());
    assert(index_map(indexes) + rest =~= varint(ids.len()) + (indexes_bytes(ids, indexes) + rest));
    let after = joined(ids, indexes, Map::empty());
    assert forall|id: NodeID| #[trigger] after.contains_key(id) == indexes.contains_key(id) && (
    after.contains_key(id) ==> after[id] == indexes[id]) by {
        lemma_joined(ids, indexes, Map::empty(), id);
        assert(ids.contains(id) == ids.to_set().contains(id));
    }
    assert(after =~= indexes);
}

proof fn lemma_indexes_push(ids: Seq<NodeID>, id: NodeID, indexes: Map<NodeID, Index>)
    ensures
        indexes_bytes(ids.push(id), indexes) == indexes_bytes(ids, indexes) + seq![id] + varint(
            indexes[id] as nat,
        ),
    decreases ids.len(),
{
    reveal_with_fuel(indexes_bytes, 2);
    let all = ids.push(id);
    let end = seq![id] + varint(indexes[id] as nat);
    if ids.len() == 0 {
        assert(all.skip(1) =~= seq![]);
        assert(indexes_bytes(all, indexes) =~= end);
        assert(indexes_bytes(ids, indexes) + seq![id] + varint(indexes[id] as nat) =~= end);
    } else {
        lemma_indexes_push(ids.skip(1), id, indexes);
        assert(all.skip(1) =~= ids.skip(1).push(id));
        assert(indexes_bytes(all, indexes) =~= indexes_bytes(ids, indexes) + seq![id] + varint(
            indexes[id] as nat,
        ));
    }
}

fn put_index_map(out: &mut Vec<u8>, indexes: &BTreeMap<NodeID, Index>)
    ensures
        final(out)@ == old(out)@ + index_map(indexes@),
{
    let ids = keys_of(indexes);
    proof {
        lemma_ascending(indexes@.dom());
    }
    put_u64(out, ids.len() as u64);
    let mut i: usize = 0;
    assert(ids@.take(0) =~= seq![]);
    while i < ids.len()
        invariant
            i <= ids@.len(),
            ids@ == ascending(indexes@.dom()),
            ids@.to_set() == indexes@.dom(),
            out@ == old(out)@ + varint(ids@.len()) + indexes_bytes(ids@.take(i as int), indexes@),
        decreases ids@.len() - i,
    {
        let id = ids[i];
        assert(ids@.to_set().contains(id));
        out.push(id);
        match indexes.get(&id) {
            Some(index) => put_u64(out, *index),
            None => {},
        }
        proof {
            lemma_indexes_push(ids@.take(i as int), id, indexes@);
            assert(ids@.take(i + 1) =~= ids@.take(i as int).push(id));
            assert(out@ =~= old(out)@ + varint(ids@.len()) + indexes_bytes(
                ids@.take(i + 1),
                indexes@,
            ));
        }
        i = i + 1;
    }
    assert(ids@.take(i as int) =~= ids@);
    assert(out@ =~= old(out)@ + index_map(indexes@));
}

fn take_index_map(reader: &mut Reader) -> (r: Result<BTreeMap<NodeID, Index>>)
    requires
        old(reader).wf(),
    ensures
        final(reader).wf(),
        match r {
            Ok(indexes) => read_index_map(old(reader).rest()) == Some(
                (indexes@, final(reader).rest()),
            ),
            Err(e) => read_index_map(old(reader).rest()) is None && e@ == ErrorView::InvalidData,
        },
{
    let ghost start = reader.rest();
    let n = match reader.u64() {
        Ok(n) => n,
        Err(e) => return Err(e),
    };
    let mut indexes: BTreeMap<NodeID, Index> = BTreeMap::new();
    let mut left: u64 = n;
    while left > 0
        invariant
            reader.wf(),
            start == old(reader).rest(),
            read_index_map(start) == read_indexes(reader.rest(), left as nat, indexes@),
        decreases left,
    {
        let id = match reader.byte() {
            Ok(id) => id,
            Err(e) => return Err(e),
        };
        let index = match reader.u64() {
            Ok(index) => index,
            Err(e) => return Err(e),
        };
        indexes.insert(id, index);
        left = left - 1;
    }
    Ok(indexes)
}

pub open spec fn storage_bytes(status: StorageStatusView) -> Seq<u8> {
    text(status.name) + two(status.keys, status.size) + two(
        status.disk_size,
        status.live_disk_size,
    )
}

pub open spec fn read_storage(bytes: Seq<u8>) -> Option<(StorageStatusView, Seq<u8>)> {
    match read_text(bytes) {
        Some((name, rest)) => match read_two(rest) {
            Some((keys, size, rest)) => match read_two(rest) {
                Some((disk_size, live_disk_size, rest)) => Some(
                    (StorageStatusView { name, keys, size, disk_size, live_disk_size }, rest),
                ),
                None => None,
            },
            None => None,
        },
        None => None,
    }
}

pub open spec fn status_bytes(status: StatusView) -> Seq<u8> {
    seq![status.leader] + varint(status.term as nat) + index_map(status.match_index) + two(
        status.commit_index,
        status.applied_index,
    ) + storage_bytes(status.storage) + id_set(status.voters)
}

pub open spec fn read_status(bytes: Seq<u8>) -> Option<(StatusView, Seq<u8>)> {
    if bytes.len() == 0 {
        None
    } else {
        match read_u64(bytes.skip(1)) {
            Some((term, rest)) => match read_index_map(rest) {
                Some((match_index, rest)) => match read_two(rest) {
                    Some((commit_index, applied_index, rest)) => match read_storage(rest) {
                        Some((storage, rest)) => match read_id_set(rest) {
                            Some((voters, rest)) => Some(
                                (
                                    StatusView {
                                        leader: bytes[0],
                                        term,
                                        match_index,
                                        commit_index,
                                        applied_index,
                                        storage,
                                        voters,
                                    },
                                    rest,
                                ),
                            ),
                            None => None,
                        },
                        None => None,
                    },
                    None => None,
                },
                None => None,
            },
            None => None,
        }
    }
}

#[verifier::spinoff_prover]
proof fn storage_round_trip(storage: StorageStatusView, rest: Seq<u8>)
    requires
        encode_utf8(storage.name).len() <= u64::MAX,
    ensures
        read_storage(storage_bytes(storage) + rest) == Some((storage, rest)),
{
    let sizes = two(storage.disk_size, storage.live_disk_size) + rest;
    let counts = two(storage.keys, storage.size) + sizes;
    let name = text(storage.name) + counts;
    text_round_trip(storage.name, counts);
    two_round_trip(storage.keys, storage.size, sizes);
    two_round_trip(storage.disk_size, storage.live_disk_size, rest);
    assert(storage_bytes(storage) + rest =~= name);
}

#[verifier::spinoff_prover]
proof fn status_round_trip(status: StatusView, rest: Seq<u8>)
    requires
        encode_utf8(status.storage.name).len() <= u64::MAX,
    ensures
        read_status(status_bytes(status) + rest) == Some((status, rest)),
{
    let all = status_bytes(status) + rest;
    let voters = id_set(status.voters) + rest;
    let storage = storage_bytes(status.storage) + voters;
    let indexes = two(status.commit_index, status.applied_index) + storage;
    let matches = index_map(status.match_index) + indexes;
    let term = varint(status.term as nat) + matches;
    assert(all.skip(1) =~= term);
    assert(all[0] == status.leader);
    u64_round_trip(status.term, matches);
    index_map_round_trip(status.match_index, indexes);
    two_round_trip(status.commit_index, status.applied_index, storage);
    storage_round_trip(status.storage, voters);
    id_set_round_trip(status.voters, rest);
    assert(read_u64(all.skip(1)) == Some((status.term, matches)));
}

fn put_status(out: &mut Vec<u8>, status: &Status)
    ensures
        final(out)@ == old(out)@ + status_bytes(status@),
{
    out.push(status.leader);
    put_u64(out, status.term);
    put_index_map(out, &status.match_index);
    put_u64(out, status.commit_index);
    put_u64(out, status.applied_index);
    put_text(out, status.storage.name.as_str());
    put_u64(out, status.storage.keys);
    put_u64(out, status.storage.size);
    put_u64(out, status.storage.disk_size);
    put_u64(out, status.storage.live_disk_size);
    put_id_set(out, &status.voters);
    assert(out@ =~= old(out)@ + status_bytes(status@));
}

fn take_storage(reader: &mut Reader) -> (r: Result<StorageStatus>)
    requires
        old(reader).wf(),
    ensures
        final(reader).wf(),
        match r {
            Ok(status) => read_storage(old(reader).rest()) == Some(
                (status@, final(reader).rest()),
            ),
            Err(e) => read_storage(old(reader).rest()) is None && e@ == ErrorView::InvalidData,
        },
{
    let name = match reader.text() {
        Ok(name) => name,
        Err(e) => return Err(e),
    };
    let (keys, size) = match take_two(reader) {
        Ok(pair) => pair,
        Err(e) => return Err(e),
    };
    match take_two(reader) {
        Ok((disk_size, live_disk_size)) => Ok(
            StorageStatus { name, keys, size, disk_size, live_disk_size },
        ),
        Err(e) => Err(e),
    }
}

fn take_status(reader: &mut Reader) -> (r: Result<Status>)
    requires
        old(reader).wf(),
    ensures
        final(reader).wf(),
        match r {
            Ok(status) => read_status(old(reader).rest()) == Some(
                (status@, final(reader).rest()),
            ),
            Err(e) => read_status(old(reader).rest()) is None && e@ == ErrorView::InvalidData,
        },
{
    let leader = match reader.byte() {
        Ok(leader) => leader,
        Err(e) => return Err(e),
    };
    let term = match reader.u64() {
        Ok(term) => term,
        Err(e) => return Err(e),
    };
    let match_index = match take_index_map(reader) {
        Ok(match_index) => match_index,
        Err(e) => return Err(e),
    };
    let (commit_index, applied_index) = match take_two(reader) {
        Ok(pair) => pair,
        Err(e) => return Err(e),
    };
    let storage = match take_storage(reader) {
        Ok(storage) => storage,
        Err(e) => return Err(e),
    };
    match take_id_set(reader) {
        Ok(voters) => Ok(
            Status { leader, term, match_index, commit_index, applied_index, storage, voters },
        ),
        Err(e) => Err(e),
    }
}

// Answers.

pub open spec fn response_bytes(response: ResponseView) -> Seq<u8> {
    match response {
        ResponseView::Read(data) => varint(0) + byte_string(data),
        ResponseView::Write(data) => varint(1) + byte_string(data),
        ResponseView::Status(status) => varint(2) + status_bytes(status),
        ResponseView::ChangeMembership { index } => varint(3) + varint(index as nat),
    }
}

pub open spec fn read_response(bytes: Seq<u8>) -> Option<(ResponseView, Seq<u8>)> {
    match read_varint(bytes, 4) {
        Some((variant, rest)) => if variant == 0 {
            match read_byte_string(rest) {
                Some((data, rest)) => Some((ResponseView::Read(data), rest)),
                None => None,
            }
        } else if variant == 1 {
            match read_byte_string(rest) {
                Some((data, rest)) => Some((ResponseView::Write(data), rest)),
                None => None,
            }
        } else if variant == 2 {
            match read_status(rest) {
                Some((status, rest)) => Some((ResponseView::Status(status), rest)),
                None => None,
            }
        } else if variant == 3 {
            match read_u64(rest) {
                Some((index, rest)) => Some((ResponseView::ChangeMembership { index }, rest)),
                None => None,
            }
        } else {
            None
        },
        None => None,
    }
}

pub open spec fn error_bytes(error: ErrorView, detail: Seq<char>) -> Seq<u8> {
    match error {
        ErrorView::Abort => varint(0),
        ErrorView::InvalidData => varint(1) + text(detail),
        ErrorView::InvalidInput(message) => varint(2) + text(message),
        ErrorView::IO => varint(3) + text(detail),
    }
}

pub open spec fn read_error(bytes: Seq<u8>) -> Option<(ErrorView, Seq<char>, Seq<u8>)> {
    match read_varint(bytes, 4) {
        Some((variant, rest)) => if variant == 0 {
            Some((ErrorView::Abort, seq![], rest))
        } else {
            match read_text(rest) {
                Some((message, rest)) => if variant == 1 {
                    Some((ErrorView::InvalidData, message, rest))
                } else if variant == 2 {
                    Some((ErrorView::InvalidInput(message), seq![], rest))
                } else if variant == 3 {
                    Some((ErrorView::IO, message, rest))
                } else {
                    None
                },
                None => None,
            }
        },
        None => None,
    }
}

/// An answer: a response or an error.
pub open spec fn answer_bytes(response: AnswerView, detail: Seq<char>) -> Seq<u8> {
    match response {
        Ok(response) => varint(0) + response_bytes(response),
        Err(e) => varint(1) + error_bytes(e, detail),
    }
}

#[verifier::opaque]
pub open spec fn read_answer(bytes: Seq<u8>) -> Option<(AnswerView, Seq<char>, Seq<u8>)> {
    match read_varint(bytes, 4) {
        Some((variant, rest)) => if variant == 0 {
            match read_response(rest) {
                Some((response, rest)) => Some((Ok(response), seq![], rest)),
                None => None,
            }
        } else if variant == 1 {
            match read_error(rest) {
                Some((error, detail, rest)) => Some((Err(error), detail, rest)),
                None => None,
            }
        } else {
            None
        },
        None => None,
    }
}

/// Whether an answer can be written, and `detail` is the text that its view
/// leaves out.
pub open spec fn answer_fits(response: AnswerView, detail: Seq<char>) -> bool {
    match response {
        Ok(response) => detail == Seq::<char>::empty() && match response {
            ResponseView::Read(data) => data.len() <= u64::MAX,
            ResponseView::Write(data) => data.len() <= u64::MAX,
            ResponseView::Status(status) => encode_utf8(status.storage.name).len() <= u64::MAX,
            ResponseView::ChangeMembership { .. } => true,
        },
        Err(ErrorView::Abort) => detail == Seq::<char>::empty(),
        Err(ErrorView::InvalidInput(message)) => detail == Seq::<char>::empty() && encode_utf8(
            message,
        ).len() <= u64::MAX,
        Err(_) => encode_utf8(detail).len() <= u64::MAX,
    }
}

proof fn response_round_trip(response: ResponseView, rest: Seq<u8>)
    requires
        answer_fits(Ok(response), seq![]),
    ensures
        read_response(response_bytes(response) + rest) == Some((response, rest)),
{
    match response {
        ResponseView::Read(data) => {
            varint_round_trip(0, byte_string(data) + rest, 4);
            byte_string_round_trip(data, rest);
            chain2(varint(0), byte_string(data), rest);
        },
        ResponseView::Write(data) => {
            varint_round_trip(1, byte_string(data) + rest, 4);
            byte_string_round_trip(data, rest);
            chain2(varint(1), byte_string(data), rest);
        },
        ResponseView::Status(status) => {
            varint_round_trip(2, status_bytes(status) + rest, 4);
            status_round_trip(status, rest);
            chain2(varint(2), status_bytes(status), rest);
        },
        ResponseView::ChangeMembership { index } => {
            varint_round_trip(3, varint(index as nat) + rest, 4);
            u64_round_trip(index, rest);
            chain2(varint(3), varint(index as nat), rest);
        },
    }
}

proof fn error_round_trip(error: ErrorView, detail: Seq<char>, rest: Seq<u8>)
    requires
        answer_fits(Err(error), detail),
    ensures
        read_error(error_bytes(error, detail) + rest) == Some((error, detail, rest)),
{
    match error {
        ErrorView::Abort => {
            varint_round_trip(0, rest, 4);
        },
        ErrorView::InvalidData => {
            varint_round_trip(1, text(detail) + rest, 4);
            text_round_trip(detail, rest);
            chain2(varint(1), text(detail), rest);
        },
        ErrorView::InvalidInput(message) => {
            varint_round_trip(2, text(message) + rest, 4);
            text_round_trip(message, rest);
            chain2(varint(2), text(message), rest);
        },
        ErrorView::IO => {
            varint_round_trip(3, text(detail) + rest, 4);
            text_round_trip(detail, rest);
            chain2(varint(3), text(detail), rest);
        },
    }
}

/// The answer written is the one read back.
pub proof fn answer_round_trip(response: AnswerView, detail: Seq<char>, rest: Seq<u8>)
    requires
        answer_fits(response, detail),
    ensures
        read_answer(answer_bytes(response, detail) + rest) == Some((response, detail, rest)),
{
    reveal(read_answer);
    match response {
        Ok(inner) => {
            let body = response_bytes(inner) + rest;
            varint_round_trip(0, body, 4);
            response_round_trip(inner, rest);
            chain2(varint(0), response_bytes(inner), rest);
        },
        Err(error) => {
            let body = error_bytes(error, detail) + rest;
            varint_round_trip(1, body, 4);
            error_round_trip(error, detail, rest);
            chain2(varint(1), error_bytes(error, detail), rest);
        },
    }
}

fn put_response(out: &mut Vec<u8>, response: &Response)
    ensures
        final(out)@ == old(out)@ + response_bytes(response@),
{
    match response {
        Response::Read(data) => {
            put_u64(out, 0);
            put_bytes(out, data.as_slice());
        },
        Response::Write(data) => {
            put_u64(out, 1);
            put_bytes(out, data.as_slice());
        },
        Response::Status(status) => {
            put_u64(out, 2);
            put_status(out, status);
        },
        Response::ChangeMembership { index } => {
            put_u64(out, 3);
            put_u64(out, *index);
        },
    }
    assert(out@ =~= old(out)@ + response_bytes(response@));
}

fn put_error(out: &mut Vec<u8>, error: &Error)
    ensures
        final(out)@ == old(out)@ + error_bytes(error@, error_detail(*error)),
{
    match error {
        Error::Abort => {
            put_u64(out, 0);
        },
        Error::InvalidData(message) => {
            put_u64(out, 1);
            put_text(out, message.as_str());
        },
        Error::InvalidInput(message) => {
            put_u64(out, 2);
            put_text(out, message.as_str());
        },
        Error::IO(message) => {
            put_u64(out, 3);
            put_text(out, message.as_str());
        },
    }
    assert(out@ =~= old(out)@ + error_bytes(error@, error_detail(*error)));
}

pub fn put_answer(out: &mut Vec<u8>, response: &Result<Response>)
    ensures
        final(out)@ == old(out)@ + answer_bytes(answer(*response), answer_detail(*response)),
{
    match response {
        Ok(response) => {
            put_u64(out, 0);
            put_response(out, response);
        },
        Err(e) => {
            put_u64(out, 1);
            put_error(out, e);
        },
    }
    assert(out@ =~= old(out)@ + answer_bytes(answer(*response), answer_detail(*response)));
}

fn take_response(reader: &mut Reader) -> (r: Result<Response>)
    requires
        old(reader).wf(),
    ensures
        final(reader).wf(),
        match r {
            Ok(response) => read_response(old(reader).rest()) == Some(
                (response@, final(reader).rest()),
            ),
            Err(e) => read_response(old(reader).rest()) is None && e@ == ErrorView::InvalidData,
        },
{
    let variant = match reader.variant() {
        Ok(variant) => variant,
        Err(e) => return Err(e),
    };
    if variant == 0 {
        match reader.byte_string() {
            Ok(data) => Ok(Response::Read(data)),
            Err(e) => Err(e),
        }
    } else if variant == 1 {
        match reader.byte_string() {
            Ok(data) => Ok(Response::Write(data)),
            Err(e) => Err(e),
        }
    } else if variant == 2 {
        match take_status(reader) {
            Ok(status) => Ok(Response::Status(status)),
            Err(e) => Err(e),
        }
    } else if variant == 3 {
        match reader.u64() {
            Ok(index) => Ok(Response::ChangeMembership { index }),
            Err(e) => Err(e),
        }
    } else {
        Err(unknown_variant(variant, 4))
    }
}

fn take_error(reader: &mut Reader) -> (r: Result<Error>)
    requires
        old(reader).wf(),
    ensures
        final(reader).wf(),
        match r {
            Ok(error) => read_error(old(reader).rest()) == Some(
                (error@, error_detail(error), final(reader).rest()),
            ),
            Err(e) => read_error(old(reader).rest()) is None && e@ == ErrorView::InvalidData,
        },
{
    let variant = match reader.variant() {
        Ok(variant) => variant,
        Err(e) => return Err(e),
    };
    if variant == 0 {
        return Ok(Error::Abort);
    }
    if variant > 3 {
        return Err(unknown_variant(variant, 4));
    }
    let message = match reader.text() {
        Ok(message) => message,
        Err(e) => return Err(e),
    };
    if variant == 1 {
        Ok(Error::InvalidData(message))
    } else if variant == 2 {
        Ok(Error::InvalidInput(message))
    } else {
        Ok(Error::IO(message))
    }
}

pub fn take_answer(reader: &mut Reader) -> (r: Result<Result<Response>>)
    requires
        old(reader).wf(),
    ensures
        final(reader).wf(),
        match r {
            Ok(response) => read_answer(old(reader).rest()) == Some(
                (answer(response), answer_detail(response), final(reader).rest()),
            ),
            Err(e) => read_answer(old(reader).rest()) is None && e@ == ErrorView::InvalidData,
        },
{
    proof {
        reveal(read_answer);
    }
    let variant = match reader.variant() {
        Ok(variant) => variant,
        Err(e) => return Err(e),
    };
    if variant == 0 {
        match take_response(reader) {
            Ok(response) => Ok(Ok(response)),
            Err(e) => Err(e),
        }
    } else if variant == 1 {
        match take_error(reader) {
            Ok(error) => Ok(Err(error)),
            Err(e) => Err(e),
        }
    } else {
        Err(unknown_result(variant))
    }
}

} // verus!
