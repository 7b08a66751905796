//! Answers as text, for the errors that name them.

use std::collections::BTreeMap;

use vstd::prelude::*;

use crate::raft::entry::Index;
use crate::raft::ids::{ascending, ids_of, keys_of, lemma_ascending, NodeID};
use crate::raft::kv;
use crate::raft::kv::Coded;
use crate::raft::message::{Response, ResponseView, Status, StatusView};
use crate::raft::table::{keys_of as table_keys, lemma_listing, listing, texts, Table};
use crate::text::{decimal, decimal_text};

verus! {

/// A text in quotes, with what needs it escaped.
pub uninterp spec fn quoted(text: Seq<char>) -> Seq<char>;

/// The text that `format!` prints of a text for `{:?}`, which depends on the text
/// alone.
#[verifier::external_body]
fn quote(text: &str) -> (r: String)
    ensures
        r@ == quoted(text@),
{
    format!("{text:?}")
}

/// Identifiers, or other bytes, with commas between them.
pub open spec fn ids_text(ids: Seq<NodeID>) -> Seq<char>
    decreases ids.len(),
{
    if ids.len() == 0 {
        seq![]
    } else if ids.len() == 1 {
        decimal(ids[0] as nat)
    } else {
        ids_text(ids.drop_last()) + ", "@ + decimal(ids.last() as nat)
    }
}

/// Identifiers with an index each, and commas between them.
pub open spec fn indexes_text(ids: Seq<NodeID>, indexes: Map<NodeID, Index>) -> Seq<char>
    decreases ids.len(),
{
    if ids.len() == 0 {
        seq![]
    } else {
        let one = decimal(ids.last() as nat) + ": "@ + decimal(indexes[ids.last()] as nat);
        if ids.len() == 1 {
            one
        } else {
            indexes_text(ids.drop_last(), indexes) + ", "@ + one
        }
    }
}

pub fn ids_string(ids: &[NodeID]) -> (r: String)
    ensures
        r@ == ids_text(ids@),
{
    let mut out = String::new();
    let mut i: usize = 0;
    assert(ids@.take(0) =~= seq![]);
    while i < ids.len()
        invariant
            i <= ids@.len(),
            out@ == ids_text(ids@.take(i as int)),
        decreases ids@.len() - i,
    {
        if i > 0 {
            out.append(", ");
        }
        out.append(decimal_text(ids[i] as u64).as_str());
        proof {
            let done = ids@.take(i + 1);
            assert(done.drop_last() =~= ids@.take(i as int));
            assert(out@ =~= ids_text(done));
        }
        i = i + 1;
    }
    assert(ids@.take(i as int) =~= ids@);
    out
}

pub fn indexes_string(indexes: &BTreeMap<NodeID, Index>) -> (r: String)
    ensures
        r@ == indexes_text(ascending(indexes@.dom()), indexes@),
{
    broadcast use vstd::std_specs::btree::group_btree_axioms;

    let ids = keys_of(indexes);
    let mut out = String::new();
    let mut i: usize = 0;
    proof {
        lemma_ascending(indexes@.dom());
        assert(ids@.take(0) =~= seq![]);
    }
    while i < ids.len()
        invariant
            i <= ids@.len(),
            ids@.to_set() == indexes@.dom(),
            out@ == indexes_text(ids@.take(i as int), indexes@),
        decreases ids@.len() - i,
    {
        if i > 0 {
            out.append(", ");
        }
        assert(ids@.to_set().contains(ids@[i as int]));
        let index: u64 = match indexes.get(&ids[i]) {
            Some(index) => *index,
            None => 0,
        };
        out.append(decimal_text(ids[i] as u64).as_str());
        out.append(": ");
        out.append(decimal_text(index).as_str());
        proof {
            let done = ids@.take(i + 1);
            assert(done.drop_last() =~= ids@.take(i as int));
            assert(out@ =~= indexes_text(done, indexes@));
        }
        i = i + 1;
    }
    assert(ids@.take(i as int) =~= ids@);
    out
}

/// The state of a cluster with the names of its parts.
pub open spec fn shown_status(status: StatusView) -> Seq<char> {
    let storage = status.storage;
    "Status { leader: "@ + decimal(status.leader as nat) + ", term: "@ + decimal(status.term as nat)
        + ", match_index: {"@ + indexes_text(
        ascending(status.match_index.dom()),
        status.match_index,
    ) + "}, commit_index: "@ + decimal(status.commit_index as nat) + ", applied_index: "@ + decimal(
        status.applied_index as nat,
    ) + ", storage: Status { name: "@ + quoted(storage.name) + ", keys: "@ + decimal(
        storage.keys as nat,
    ) + ", size: "@ + decimal(storage.size as nat) + ", disk_size: "@ + decimal(
        storage.disk_size as nat,
    ) + ", live_disk_size: "@ + decimal(storage.live_disk_size as nat) + " }, voters: {"@
        + ids_text(ascending(status.voters)) + "} }"@
}

/// An answer with the names of its parts.
pub open spec fn shown(response: ResponseView) -> Seq<char> {
    match response {
        ResponseView::Read(bytes) => "Read(["@ + ids_text(bytes) + "])"@,
        ResponseView::Write(bytes) => "Write(["@ + ids_text(bytes) + "])"@,
        ResponseView::Status(status) => "Status("@ + shown_status(status) + ")"@,
        ResponseView::ChangeMembership { index } => "ChangeMembership { index: "@ + decimal(
            index as nat,
        ) + " }"@,
    }
}

fn show_status(status: &Status) -> (r: String)
    ensures
        r@ == shown_status(status@),
{
    let mut out = "Status { leader: ".to_string();
    out.append(decimal_text(status.leader as u64).as_str());
    out.append(", term: ");
    out.append(decimal_text(status.term).as_str());
    out.append(", match_index: {");
    out.append(indexes_string(&status.match_index).as_str());
    out.append("}, commit_index: ");
    out.append(decimal_text(status.commit_index).as_str());
    out.append(", applied_index: ");
    out.append(decimal_text(status.applied_index).as_str());
    out.append(", storage: Status { name: ");
    out.append(quote(status.storage.name.as_str()).as_str());
    out.append(", keys: ");
    out.append(decimal_text(status.storage.keys).as_str());
    out.append(", size: ");
    out.append(decimal_text(status.storage.size).as_str());
    out.append(", disk_size: ");
    out.append(decimal_text(status.storage.disk_size).as_str());
    out.append(", live_disk_size: ");
    out.append(decimal_text(status.storage.live_disk_size).as_str());
    out.append(" }, voters: {");
    out.append(ids_string(ids_of(&status.voters).as_slice()).as_str());
    out.append("} }");
    out
}

/// Prints an answer with the names of its parts.
pub fn show(response: &Response) -> (r: String)
    ensures
        r@ == shown(response@),
{
    match response {
        Response::Read(bytes) => {
            let mut out = "Read([".to_string();
            out.append(ids_string(bytes.as_slice()).as_str());
            out.append("])");
            out
        },
        Response::Write(bytes) => {
            let mut out = "Write([".to_string();
            out.append(ids_string(bytes.as_slice()).as_str());
            out.append("])");
            out
        },
        Response::Status(status) => {
            let mut out = "Status(".to_string();
            out.append(show_status(status).as_str());
            out.append(")");
            out
        },
        Response::ChangeMembership { index } => {
            let mut out = "ChangeMembership { index: ".to_string();
            out.append(decimal_text(*index).as_str());
            out.append(" }");
            out
        },
    }
}

/// The given keys with their values, in quotes.
pub open spec fn shown_pairs(keys: Seq<Seq<char>>, data: Map<Seq<char>, Seq<char>>) -> Seq<char>
    decreases keys.len(),
{
    if keys.len() == 0 {
        seq![]
    } else {
        let start = if keys.len() == 1 {
            seq![]
        } else {
            shown_pairs(keys.drop_last(), data) + ", "@
        };
        start + quoted(keys.last()) + ": "@ + quoted(data[keys.last()])
    }
}

/// A response of the store with the names of its parts.
pub open spec fn shown_stored(response: kv::ResponseView) -> Seq<char> {
    match response {
        kv::ResponseView::Get(Some(value)) => "Get(Some("@ + quoted(value) + "))"@,
        kv::ResponseView::Get(None) => "Get(None)"@,
        kv::ResponseView::Put(index) => "Put("@ + decimal(index as nat) + ")"@,
        kv::ResponseView::Scan(data) => "Scan({"@ + shown_pairs(listing(data), data) + "})"@,
    }
}

fn show_table(table: &Table) -> (r: String)
    requires
        table.wf(),
    ensures
        r@ == shown_pairs(listing(texts(*table)), texts(*table)),
{
    let ghost keys = table_keys(*table);
    let ghost data = texts(*table);
    proof {
        lemma_listing(*table);
        assert(keys.take(0) =~= seq![]);
    }
    let mut out = String::new();
    let mut i: usize = 0;
    while i < table.items.len()
        invariant
            i <= table.items@.len(),
            keys == table_keys(*table),
            data == texts(*table),
            forall|k: int|
                0 <= k < table.items@.len() ==> data[(#[trigger] table.items@[k]).0@]
                    == table.items@[k].1@,
            out@ == shown_pairs(keys.take(i as int), data),
        decreases table.items@.len() - i,
    {
        if i > 0 {
            out.append(", ");
        }
        out.append(quote(table.items[i].0.as_str()).as_str());
        out.append(": ");
        out.append(quote(table.items[i].1.as_str()).as_str());
        proof {
            let done = keys.take(i + 1);
            assert(done.drop_last() =~= keys.take(i as int));
            assert(done.last() == table.items@[i as int].0@);
            assert(out@ =~= shown_pairs(done, data));
        }
        i = i + 1;
    }
    assert(keys.take(i as int) =~= keys);
    out
}

/// Prints a response of the store with the names of its parts.
pub fn show_stored(response: &kv::Response) -> (r: String)
    requires
        response.valid(),
    ensures
        r@ == shown_stored(response@),
{
    match response {
        kv::Response::Get(Some(value)) => {
            let mut out = "Get(Some(".to_string();
            out.append(quote(value.as_str()).as_str());
            out.append("))");
            out
        },
        kv::Response::Get(None) => "Get(None)".to_string(),
        kv::Response::Put(index) => {
            let mut out = "Put(".to_string();
            out.append(decimal_text(*index).as_str());
            out.append(")");
            out
        },
        kv::Response::Scan(table) => {
            let mut out = "Scan({".to_string();
            out.append(show_table(table).as_str());
            out.append("})");
            out
        },
    }
}

} // verus!
