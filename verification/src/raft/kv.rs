//! A key-value state machine over texts.
//!
//! Its commands and responses are encoded as bytes; see [`encode`] and
//! [`decode`].

use vstd::prelude::*;
use vstd::utf8::encode_utf8;

use super::entry::{Entry, EntryView, Index};
use super::state::{Outcome, State};
use super::table::{
    in_key_order, keys_of, lemma_inserted, lemma_listing, listing, put_table, read_table,
    table_bytes, table_fits, table_round_trip, take_table, texts, Table,
};
use crate::encoding::bincode::{
    put_text, put_u64, read_text, read_varint, text, text_round_trip, unknown_option,
    unknown_variant, varint, varint_round_trip, Reader,
};
use crate::error::{Error, ErrorView, Result};
use crate::storage::sorted::SortedMap;
use crate::text::{decimal, decimal_text};

verus! {

/// A value with an encoding of its own.
pub trait Coded: View + Sized {
    spec fn valid(&self) -> bool;

    /// The encoding of a value.
    spec fn coded(value: Self::V) -> Seq<u8>;

    /// The value at the front of `bytes`, if there is one.
    spec fn reading(bytes: Seq<u8>) -> Option<Self::V>;

    fn put(&self) -> (r: Vec<u8>)
        requires
            self.valid(),
        ensures
            r@ == Self::coded(self@),
    ;

    fn take(bytes: &[u8]) -> (r: Result<Self>)
        ensures
            match r {
                Ok(value) => value.valid() && Self::reading(bytes@) == Some(value@),
                Err(e) => Self::reading(bytes@) is None && e@ == ErrorView::InvalidData,
            },
    ;
}

/// Encodes a command or a response.
pub fn encode<T: Coded>(value: &T) -> (r: Vec<u8>)
    requires
        value.valid(),
    ensures
        r@ == T::coded(value@),
{
    value.put()
}

/// Decodes a command or a response. What follows it is ignored.
pub fn decode<T: Coded>(bytes: &[u8]) -> (r: Result<T>)
    ensures
        match r {
            Ok(value) => value.valid() && T::reading(bytes@) == Some(value@),
            Err(e) => T::reading(bytes@) is None && e@ == ErrorView::InvalidData,
        },
{
    T::take(bytes)
}

/// A command.
#[derive(Clone, Debug, PartialEq)]
pub enum Command {
    /// Reads the value of a key.
    Get { key: String },
    /// Sets the value of a key.
    Put { key: String, value: String },
    /// Reads everything.
    Scan,
}

/// What contracts say of a command.
pub ghost enum CommandView {
    Get { key: Seq<char> },
    Put { key: Seq<char>, value: Seq<char> },
    Scan,
}

impl View for Command {
    type V = CommandView;

    open spec fn view(&self) -> CommandView {
        match self {
            Command::Get { key } => CommandView::Get { key: key@ },
            Command::Put { key, value } => CommandView::Put { key: key@, value: value@ },
            Command::Scan => CommandView::Scan,
        }
    }
}

pub open spec fn command_bytes(command: CommandView) -> Seq<u8> {
    match command {
        CommandView::Get { key } => varint(0) + text(key),
        CommandView::Put { key, value } => varint(1) + text(key) + text(value),
        CommandView::Scan => varint(2),
    }
}

pub open spec fn read_command(bytes: Seq<u8>) -> Option<CommandView> {
    match read_varint(bytes, 4) {
        Some((variant, rest)) if variant == 0 => match read_text(rest) {
            Some((key, _)) => Some(CommandView::Get { key }),
            None => None,
        },
        Some((variant, rest)) if variant == 1 => match read_text(rest) {
            Some((key, rest)) => match read_text(rest) {
                Some((value, _)) => Some(CommandView::Put { key, value }),
                None => None,
            },
            None => None,
        },
        Some((variant, _)) if variant == 2 => Some(CommandView::Scan),
        _ => None,
    }
}

impl Coded for Command {
    open spec fn valid(&self) -> bool {
        true
    }

    open spec fn coded(value: CommandView) -> Seq<u8> {
        command_bytes(value)
    }

    open spec fn reading(bytes: Seq<u8>) -> Option<CommandView> {
        read_command(bytes)
    }

    fn put(&self) -> (r: Vec<u8>) {
        let mut out: Vec<u8> = Vec::new();
        match self {
            Command::Get { key } => {
                put_u64(&mut out, 0);
                put_text(&mut out, key.as_str());
            },
            Command::Put { key, value } => {
                put_u64(&mut out, 1);
                put_text(&mut out, key.as_str());
                put_text(&mut out, value.as_str());
            },
            Command::Scan => {
                put_u64(&mut out, 2);
            },
        }
        assert(out@ =~= command_bytes(self@));
        out
    }

    fn take(bytes: &[u8]) -> (r: Result<Command>) {
        let mut reader = Reader::new(bytes);
        let variant = match reader.variant() {
            Ok(variant) => variant,
            Err(e) => return Err(e),
        };
        if variant == 0 {
            match reader.text() {
                Ok(key) => Ok(Command::Get { key }),
                Err(e) => Err(e),
            }
        } else if variant == 1 {
            let key = match reader.text() {
                Ok(key) => key,
                Err(e) => return Err(e),
            };
            match reader.text() {
                Ok(value) => Ok(Command::Put { key, value }),
                Err(e) => Err(e),
            }
        } else if variant == 2 {
            Ok(Command::Scan)
        } else {
            Err(unknown_variant(variant, 3))
        }
    }
}

/// The command written is the one read back.
pub proof fn command_round_trip(command: CommandView, rest: Seq<u8>)
    requires
        match command {
            CommandView::Get { key } => encode_utf8(key).len() <= u64::MAX,
            CommandView::Put { key, value } => encode_utf8(key).len() <= u64::MAX && encode_utf8(
                value,
            ).len() <= u64::MAX,
            CommandView::Scan => true,
        },
    ensures
        read_command(command_bytes(command) + rest) == Some(command),
{
    match command {
        CommandView::Get { key } => {
            varint_round_trip(0, text(key) + rest, 4);
            text_round_trip(key, rest);
            assert(command_bytes(command) + rest =~= varint(0) + (text(key) + rest));
        },
        CommandView::Put { key, value } => {
            varint_round_trip(1, text(key) + (text(value) + rest), 4);
            text_round_trip(key, text(value) + rest);
            text_round_trip(value, rest);
            assert(command_bytes(command) + rest =~= varint(1) + (text(key) + (text(value)
                + rest)));
        },
        CommandView::Scan => {
            varint_round_trip(2, rest, 4);
        },
    }
}

/// A command as text.
pub open spec fn command_text(command: CommandView) -> Seq<char> {
    match command {
        CommandView::Get { key } => "get "@ + key,
        CommandView::Put { key, value } => "put "@ + key + "="@ + value,
        CommandView::Scan => "scan"@,
    }
}

impl Command {
    /// The command as text.
    pub fn text(&self) -> (r: String)
        ensures
            r@ == command_text(self@),
    {
        match self {
            Command::Get { key } => {
                let mut out = "get ".to_string();
                out.append(key.as_str());
                out
            },
            Command::Put { key, value } => {
                let mut out = "put ".to_string();
                out.append(key.as_str());
                out.append("=");
                out.append(value.as_str());
                out
            },
            Command::Scan => "scan".to_string(),
        }
    }
}

/// The response to a command.
#[derive(Clone, Debug, PartialEq)]
pub enum Response {
    /// The value of a key.
    Get(Option<String>),
    /// The index at which a value was set.
    Put(Index),
    /// Every key with its value.
    Scan(Table),
}

/// What contracts say of a response.
pub ghost enum ResponseView {
    Get(Option<Seq<char>>),
    Put(Index),
    Scan(Map<Seq<char>, Seq<char>>),
}

/// The view of a text, if there is one.
pub open spec fn optional_text(value: Option<String>) -> Option<Seq<char>> {
    match value {
        Some(value) => Some(value@),
        None => None,
    }
}

impl View for Response {
    type V = ResponseView;

    open spec fn view(&self) -> ResponseView {
        match self {
            Response::Get(value) => ResponseView::Get(optional_text(*value)),
            Response::Put(index) => ResponseView::Put(*index),
            Response::Scan(table) => ResponseView::Scan(texts(*table)),
        }
    }
}

pub open spec fn response_bytes(response: ResponseView) -> Seq<u8> {
    match response {
        ResponseView::Get(None) => varint(0) + seq![0u8],
        ResponseView::Get(Some(value)) => varint(0) + seq![1u8] + text(value),
        ResponseView::Put(index) => varint(1) + varint(index as nat),
        ResponseView::Scan(data) => varint(2) + table_bytes(data),
    }
}

pub open spec fn read_response(bytes: Seq<u8>) -> Option<ResponseView> {
    match read_varint(bytes, 4) {
        Some((variant, rest)) if variant == 0 => if rest.len() > 0 && rest[0] == 0 {
            Some(ResponseView::Get(None))
        } else if rest.len() > 0 && rest[0] == 1 {
            match read_text(rest.skip(1)) {
                Some((value, _)) => Some(ResponseView::Get(Some(value))),
                None => None,
            }
        } else {
            None
        },
        Some((variant, rest)) if variant == 1 => match read_varint(rest, 8) {
            Some((index, _)) => Some(ResponseView::Put(index as u64)),
            None => None,
        },
        Some((variant, rest)) if variant == 2 => match read_table(rest) {
            Some((data, _)) => Some(ResponseView::Scan(data)),
            None => None,
        },
        _ => None,
    }
}

impl Coded for Response {
    open spec fn valid(&self) -> bool {
        self matches Response::Scan(table) ==> table.wf()
    }

    open spec fn coded(value: ResponseView) -> Seq<u8> {
        response_bytes(value)
    }

    open spec fn reading(bytes: Seq<u8>) -> Option<ResponseView> {
        read_response(bytes)
    }

    fn put(&self) -> (r: Vec<u8>) {
        let mut out: Vec<u8> = Vec::new();
        match self {
            Response::Get(None) => {
                put_u64(&mut out, 0);
                out.push(0);
            },
            Response::Get(Some(value)) => {
                put_u64(&mut out, 0);
                out.push(1);
                put_text(&mut out, value.as_str());
            },
            Response::Put(index) => {
                put_u64(&mut out, 1);
                put_u64(&mut out, *index);
            },
            Response::Scan(table) => {
                put_u64(&mut out, 2);
                put_table(&mut out, table);
            },
        }
        assert(out@ =~= response_bytes(self@));
        out
    }

    fn take(bytes: &[u8]) -> (r: Result<Response>) {
        let mut reader = Reader::new(bytes);
        let variant = match reader.variant() {
            Ok(variant) => variant,
            Err(e) => return Err(e),
        };
        if variant == 0 {
            let tag = match reader.byte() {
                Ok(tag) => tag,
                Err(e) => return Err(e),
            };
            if tag == 0 {
                Ok(Response::Get(None))
            } else if tag == 1 {
                match reader.text() {
                    Ok(value) => Ok(Response::Get(Some(value))),
                    Err(e) => Err(e),
                }
            } else {
                Err(unknown_option(tag))
            }
        } else if variant == 1 {
            match reader.u64() {
                Ok(index) => Ok(Response::Put(index)),
                Err(e) => Err(e),
            }
        } else if variant == 2 {
            match take_table(&mut reader) {
                Ok(table) => Ok(Response::Scan(table)),
                Err(e) => Err(e),
            }
        } else {
            Err(unknown_variant(variant, 3))
        }
    }
}

/// The response written is the one read back.
#[verifier::spinoff_prover]
pub proof fn response_round_trip(response: ResponseView, rest: Seq<u8>)
    requires
        match response {
            ResponseView::Get(Some(value)) => encode_utf8(value).len() <= u64::MAX,
            ResponseView::Scan(data) => {
                &&& in_key_order(listing(data))
                &&& listing(data).to_set() == data.dom()
                &&& table_fits(data)
            },
            _ => true,
        },
    ensures
        read_response(response_bytes(response) + rest) == Some(response),
{
    let all = response_bytes(response) + rest;
    match response {
        ResponseView::Get(None) => {
            let more = seq![0u8] + rest;
            varint_round_trip(0, more, 4);
            assert(all =~= varint(0) + more);
        },
        ResponseView::Get(Some(value)) => lemma_value_kept(value, rest),
        ResponseView::Put(index) => {
            varint_round_trip(1, varint(index as nat) + rest, 4);
            varint_round_trip(index as nat, rest, 8);
            assert(all =~= varint(1) + (varint(index as nat) + rest));
        },
        ResponseView::Scan(data) => lemma_scan_kept(data, rest),
    }
}

#[verifier::spinoff_prover]
proof fn lemma_value_kept(value: Seq<char>, rest: Seq<u8>)
    requires
        encode_utf8(value).len() <= u64::MAX,
    ensures
        read_response(response_bytes(ResponseView::Get(Some(value))) + rest) == Some(
            ResponseView::Get(Some(value)),
        ),
{
    let all = response_bytes(ResponseView::Get(Some(value))) + rest;
    let more = seq![1u8] + text(value) + rest;
    varint_round_trip(0, more, 4);
    text_round_trip(value, rest);
    assert(more.skip(1) =~= text(value) + rest);
    assert(all =~= varint(0) + more);
}

#[verifier::spinoff_prover]
proof fn lemma_scan_kept(data: Map<Seq<char>, Seq<char>>, rest: Seq<u8>)
    requires
        in_key_order(listing(data)),
        listing(data).to_set() == data.dom(),
        table_fits(data),
    ensures
        read_response(response_bytes(ResponseView::Scan(data)) + rest) == Some(
            ResponseView::Scan(data),
        ),
{
    let all = response_bytes(ResponseView::Scan(data)) + rest;
    let more = table_bytes(data) + rest;
    varint_round_trip(2, more, 4);
    table_round_trip(data, rest);
    assert(all =~= varint(2) + more);
    assert(read_varint(all, 4) == Some((2nat, more)));
}

/// The given keys with their values, as text.
pub open spec fn pairs_text(keys: Seq<Seq<char>>, data: Map<Seq<char>, Seq<char>>) -> Seq<char>
    decreases keys.len(),
{
    if keys.len() == 0 {
        seq![]
    } else {
        let start = if keys.len() == 1 {
            seq![]
        } else {
            pairs_text(keys.drop_last(), data) + ","@
        };
        start + keys.last() + "="@ + data[keys.last()]
    }
}

/// A response as text.
pub open spec fn response_text(response: ResponseView) -> Seq<char> {
    match response {
        ResponseView::Get(Some(value)) => value,
        ResponseView::Get(None) => "None"@,
        ResponseView::Put(index) => decimal(index as nat),
        ResponseView::Scan(data) => pairs_text(listing(data), data),
    }
}

impl Response {
    /// The response as text.
    pub fn text(&self) -> (r: String)
        requires
            self.valid(),
        ensures
            r@ == response_text(self@),
    {
        match self {
            Response::Get(Some(value)) => value.as_str().to_string(),
            Response::Get(None) => "None".to_string(),
            Response::Put(index) => decimal_text(*index),
            Response::Scan(table) => table_text(table),
        }
    }
}

fn table_text(table: &Table) -> (r: String)
    requires
        table.wf(),
    ensures
        r@ == pairs_text(listing(texts(*table)), texts(*table)),
{
    let ghost keys = keys_of(*table);
    let ghost data = texts(*table);
    proof {
        lemma_listing(*table);
        assert(keys.take(0) =~= seq![]);
    }
    let mut out = String::new();
    let mut i: usize = 0;
    while i < table.items.len()
        invariant
            i <= table.items@.len(),
            keys == keys_of(*table),
            data == texts(*table),
            forall|k: int|
                0 <= k < table.items@.len() ==> data[(#[trigger] table.items@[k]).0@]
                    == table.items@[k].1@,
            out@ == pairs_text(keys.take(i as int), data),
        decreases table.items@.len() - i,
    {
        if i > 0 {
            out.append(",");
        }
        out.append(table.items[i].0.as_str());
        out.append("=");
        out.append(table.items[i].1.as_str());
        proof {
            let done = keys.take(i + 1);
            assert(done.drop_last() =~= keys.take(i as int));
            assert(done.last() == table.items@[i as int].0@);
            assert(out@ =~= pairs_text(done, data));
        }
        i = i + 1;
    }
    assert(keys.take(i as int) =~= keys);
    out
}

/// A key-value store in memory, driven by the log.
pub struct Kv {
    applied_index: Index,
    data: Table,
}

/// What contracts say of a store.
#[verifier::ext_equal]
pub ghost struct KvView {
    /// The index of the last applied entry.
    pub applied: Index,
    pub data: Map<Seq<char>, Seq<char>>,
}

impl View for Kv {
    type V = KvView;

    closed spec fn view(&self) -> KvView {
        KvView { applied: self.applied_index, data: texts(self.data) }
    }
}

/// A snapshot of a store: the index of the last applied entry, then the data.
pub open spec fn snapshot_bytes(store: KvView) -> Seq<u8> {
    varint(store.applied as nat) + table_bytes(store.data)
}

pub open spec fn read_snapshot(bytes: Seq<u8>) -> Option<KvView> {
    match read_varint(bytes, 8) {
        Some((applied, rest)) => match read_table(rest) {
            Some((data, _)) => Some(KvView { applied: applied as u64, data }),
            None => None,
        },
        None => None,
    }
}

impl Kv {
    /// An empty store.
    pub fn new() -> (r: Kv)
        ensures
            r.wf(),
            r@ == (KvView { applied: 0, data: Map::empty() }),
    {
        let r = Kv { applied_index: 0, data: SortedMap::new() };
        assert(texts(r.data) =~= Map::empty());
        r
    }

    /// The keys and their values.
    pub fn data(&self) -> (r: &Table)
        requires
            self.wf(),
        ensures
            r.wf(),
            texts(*r) == self@.data,
    {
        &self.data
    }
}

impl Default for Kv {
    fn default() -> (r: Kv)
        ensures
            r.wf(),
            r@ == (KvView { applied: 0, data: Map::empty() }),
    {
        Kv::new()
    }
}

impl State for Kv {
    type Model = KvView;

    closed spec fn wf(&self) -> bool {
        self.data.wf()
    }

    open spec fn model(&self) -> KvView {
        self@
    }

    open spec fn applied(model: KvView) -> Index {
        model.applied
    }

    open spec fn takes_write(command: Seq<u8>) -> bool {
        match read_command(command) {
            Some(CommandView::Get { .. }) => false,
            Some(CommandView::Scan) => false,
            _ => true,
        }
    }

    open spec fn takes_read(command: Seq<u8>) -> bool {
        !(read_command(command) matches Some(CommandView::Put { .. }))
    }

    open spec fn applying(model: KvView, entry: EntryView) -> (KvView, Outcome) {
        match entry.command {
            None => (KvView { applied: entry.index, ..model }, Ok(seq![])),
            Some(command) => match read_command(command) {
                Some(CommandView::Put { key, value }) => (
                    KvView { applied: entry.index, data: model.data.insert(key, value) },
                    Ok(response_bytes(ResponseView::Put(entry.index))),
                ),
                _ => (model, Err(ErrorView::InvalidData)),
            },
        }
    }

    open spec fn reading(model: KvView, command: Seq<u8>) -> Outcome {
        match read_command(command) {
            Some(CommandView::Get { key }) => Ok(
                response_bytes(
                    ResponseView::Get(
                        if model.data.contains_key(key) {
                            Some(model.data[key])
                        } else {
                            None
                        },
                    ),
                ),
            ),
            Some(CommandView::Scan) => Ok(response_bytes(ResponseView::Scan(model.data))),
            _ => Err(ErrorView::InvalidData),
        }
    }

    open spec fn snapshotting(model: KvView) -> Outcome {
        Ok(snapshot_bytes(model))
    }

    open spec fn restoring(model: KvView, snapshot: Seq<u8>, index: Index) -> std::result::Result<
        KvView,
        ErrorView,
    > {
        match read_snapshot(snapshot) {
            Some(store) => Ok(
                KvView {
                    applied: if index >= store.applied {
                        index
                    } else {
                        store.applied
                    },
                    ..store
                },
            ),
            None => Err(ErrorView::InvalidData),
        }
    }

    proof fn applied_in_order(model: KvView, entry: EntryView) {
    }

    fn accepts_write(command: &[u8]) -> (r: bool) {
        match decode::<Command>(command) {
            Ok(Command::Put { .. }) => true,
            Ok(_) => false,
            Err(_) => true,
        }
    }

    fn accepts_read(command: &[u8]) -> (r: bool) {
        match decode::<Command>(command) {
            Ok(Command::Put { .. }) => false,
            _ => true,
        }
    }

    fn get_applied_index(&self) -> (r: Index) {
        self.applied_index
    }

    /// Applies a write: a put sets a key and answers with the index. An entry
    /// without a command changes nothing but the index.
    fn apply(&mut self, entry: Entry) -> (r: Result<Vec<u8>>) {
        let response = match &entry.command {
            Some(bytes) => match decode::<Command>(bytes.as_slice()) {
                Ok(Command::Put { key, value }) => {
                    let ghost before = self.data;
                    let ghost chars = key@;
                    self.data.insert(key, value);
                    proof {
                        lemma_inserted(before, self.data, chars, value);
                    }
                    encode(&Response::Put(entry.index))
                },
                Ok(_) => {
                    return Err(Error::InvalidData("read submitted as write command".to_string()));
                },
                Err(e) => return Err(e),
            },
            None => Vec::new(),
        };
        self.applied_index = entry.index;
        Ok(response)
    }

    /// Runs a read: the value of a key, or everything.
    fn read(&self, command: Vec<u8>) -> (r: Result<Vec<u8>>) {
        match decode::<Command>(command.as_slice()) {
            Ok(Command::Get { key }) => {
                let value = match self.data.get(key.as_str().as_bytes()) {
                    Some(value) => Some(value.as_str().to_string()),
                    None => None,
                };
                Ok(encode(&Response::Get(value)))
            },
            Ok(Command::Scan) => {
                let mut out: Vec<u8> = Vec::new();
                put_u64(&mut out, 2);
                put_table(&mut out, &self.data);
                assert(out@ =~= response_bytes(ResponseView::Scan(self@.data)));
                Ok(out)
            },
            Ok(_) => Err(Error::InvalidData("put submitted as read command".to_string())),
            Err(e) => Err(e),
        }
    }

    fn snapshot(&self) -> (r: Result<Vec<u8>>) {
        let mut out: Vec<u8> = Vec::new();
        put_u64(&mut out, self.applied_index);
        put_table(&mut out, &self.data);
        assert(out@ =~= snapshot_bytes(self@));
        Ok(out)
    }

    /// Restores a snapshot. What it covers counts as applied.
    fn restore(&mut self, snapshot: &[u8], index: Index) -> (r: Result<()>) {
        let mut reader = Reader::new(snapshot);
        let applied = match reader.u64() {
            Ok(applied) => applied,
            Err(e) => return Err(e),
        };
        let data = match take_table(&mut reader) {
            Ok(data) => data,
            Err(e) => return Err(e),
        };
        self.applied_index = if index >= applied {
            index
        } else {
            applied
        };
        self.data = data;
        Ok(())
    }
}

/// A snapshot restores the data that it was taken of, whatever the store held
/// before.
pub proof fn snapshot_restores(store: Kv, other: KvView, index: Index)
    requires
        store.wf(),
        table_fits(store@.data),
    ensures
        Kv::snapshotting(store@) is Ok,
        Kv::restoring(other, Kv::snapshotting(store@)->Ok_0, index) == Ok::<KvView, ErrorView>(
            KvView {
                applied: if index >= store@.applied {
                    index
                } else {
                    store@.applied
                },
                data: store@.data,
            },
        ),
{
    lemma_listing(store.data);
    let data = store@.data;
    varint_round_trip(store@.applied as nat, table_bytes(data), 8);
    table_round_trip(data, seq![]);
    assert(table_bytes(data) + seq![] =~= table_bytes(data));
}

/// The keys of a store are listed in order.
pub(crate) proof fn lemma_listed(store: Kv)
    requires
        store.wf(),
    ensures
        in_key_order(listing(store@.data)),
        listing(store@.data).to_set() == store@.data.dom(),
{
    lemma_listing(store.data);
}

/// A read after a write gives the value that was written, and other keys keep
/// theirs.
pub proof fn reads_see_writes(
    store: KvView,
    index: Index,
    term: u64,
    key: Seq<char>,
    value: Seq<char>,
    other: Seq<char>,
)
    requires
        encode_utf8(key).len() <= u64::MAX,
        encode_utf8(value).len() <= u64::MAX,
        encode_utf8(other).len() <= u64::MAX,
    ensures
        ({
            let write = EntryView {
                index,
                term,
                command: Some(command_bytes(CommandView::Put { key, value })),
                membership: None,
            };
            let (after, outcome) = Kv::applying(store, write);
            let get = command_bytes(CommandView::Get { key: other });
            &&& outcome == Ok::<Seq<u8>, ErrorView>(response_bytes(ResponseView::Put(index)))
            &&& after.applied == index
            &&& Kv::reading(after, get) == if other == key {
                Ok::<Seq<u8>, ErrorView>(response_bytes(ResponseView::Get(Some(value))))
            } else {
                Kv::reading(store, get)
            }
        }),
{
    let put = CommandView::Put { key, value };
    let get = CommandView::Get { key: other };
    command_round_trip(put, seq![]);
    command_round_trip(get, seq![]);
    assert(command_bytes(put) + seq![] =~= command_bytes(put));
    assert(command_bytes(get) + seq![] =~= command_bytes(get));
}

} // verus!
