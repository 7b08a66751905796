//! The command line client: its arguments, its session file and its output.

use std::collections::BTreeSet;

use vstd::prelude::*;

use crate::encoding::bytes::{be_bytes, be_round_trip, lemma_byte_pow};
use crate::error::{Error, ErrorView, Result};
use crate::raft::ids::{ascending, ids_of, unordered, NodeID};
use crate::raft::kv;
use crate::raft::kv::{decode, encode, Command, CommandView};
use crate::raft::message::{Request, RequestView, Response, Status, StatusView};
use crate::shown::{ids_string, ids_text, indexes_string, indexes_text};
use crate::text::{
    decimal, decimal_round_trip, decimal_text, digit, lemma_next_piece, lemma_one_piece,
    lemma_trimmed, number, number_fault, parse_number, pieces, same_text, split, starts_with,
    strip_prefix, text_views, trim, trimmed, NumberFault,
};

verus! {

broadcast use vstd::std_specs::btree::group_btree_axioms;

// Identifiers.

/// The identifier that `uuid::Uuid::parse_str` reads in a text, or the text of its
/// error.
pub uninterp spec fn parsed_uuid(text: Seq<char>) -> std::result::Result<u128, Seq<char>>;

/// `uuid::Uuid::parse_str`, as the 128 bits of the identifier, or the text of its
/// error. Either is a function of the text alone.
#[verifier::external_body]
fn parse_uuid(text: &str) -> (r: std::result::Result<u128, String>)
    ensures
        match r {
            Ok(id) => parsed_uuid(text@) == Ok::<u128, Seq<char>>(id),
            Err(detail) => parsed_uuid(text@) == Err::<u128, Seq<char>>(detail@),
        },
{
    uuid::Uuid::parse_str(text).map(|id| id.as_u128()).map_err(|error| error.to_string())
}

/// A hexadecimal digit.
pub open spec fn hex(d: nat) -> char {
    if d < 10 {
        digit(d)
    } else if d == 10 {
        'a'
    } else if d == 11 {
        'b'
    } else if d == 12 {
        'c'
    } else if d == 13 {
        'd'
    } else if d == 14 {
        'e'
    } else {
        'f'
    }
}

/// Bytes in hexadecimal.
pub open spec fn hex_text(bytes: Seq<u8>) -> Seq<char>
    decreases bytes.len(),
{
    if bytes.len() == 0 {
        seq![]
    } else {
        hex_text(bytes.drop_last()) + seq![
            hex(bytes.last() as nat / 16),
            hex(bytes.last() as nat % 16),
        ]
    }
}

/// An identifier as text: its bytes in hexadecimal, in groups of four, two, two,
/// two and six.
pub open spec fn uuid_text(id: u128) -> Seq<char> {
    let bytes = be_bytes(id as nat, 16);
    hex_text(bytes.subrange(0, 4)) + seq!['-'] + hex_text(bytes.subrange(4, 6)) + seq!['-']
        + hex_text(bytes.subrange(6, 8)) + seq!['-'] + hex_text(bytes.subrange(8, 10)) + seq!['-']
        + hex_text(bytes.subrange(10, 16))
}

/// `uuid::Uuid`'s `Display` of the identifier with the given 128 bits: the
/// lower-case hyphenated form, which `uuid::Uuid::parse_str` reads back.
#[verifier::external_body]
fn format_uuid(id: u128) -> (r: String)
    ensures
        r@ == uuid_text(id),
        parsed_uuid(r@) is Ok,
        parsed_uuid(r@)->Ok_0 == id,
{
    uuid::Uuid::from_u128(id).to_string()
}

/// Reads a client identifier given on the command line.
pub fn parse_client_id(text: &str) -> (r: Result<u128>)
    ensures
        match (r, parsed_uuid(text@)) {
            (Ok(id), Ok(parsed)) => id == parsed,
            (Err(e), Err(detail)) => e@ == ErrorView::InvalidInput("bad client-id: "@ + detail),
            _ => false,
        },
{
    match parse_uuid(text) {
        Ok(id) => Ok(id),
        Err(detail) => {
            let mut message = "bad client-id: ".to_string();
            message.append(detail.as_str());
            Err(Error::InvalidInput(message))
        },
    }
}

// Arguments.

/// An option of the command line, with its value.
pub enum Flag {
    /// The addresses of the nodes, separated by commas.
    Peers(String),
    ClientId(String),
}

pub ghost enum FlagView {
    Peers(Seq<char>),
    ClientId(Seq<char>),
}

impl View for Flag {
    type V = FlagView;

    open spec fn view(&self) -> FlagView {
        match self {
            Flag::Peers(text) => FlagView::Peers(text@),
            Flag::ClientId(text) => FlagView::ClientId(text@),
        }
    }
}

pub open spec fn flag_views(flags: Seq<Flag>) -> Seq<FlagView> {
    flags.map_values(|flag: Flag| flag@)
}

/// The options among the arguments from `at` on, and the other arguments, after
/// those that came before. An option without a value counts as a word.
pub open spec fn sorted_out(
    args: Seq<Seq<char>>,
    at: int,
    flags: Seq<FlagView>,
    words: Seq<Seq<char>>,
) -> (Seq<FlagView>, Seq<Seq<char>>)
    decreases args.len() - at,
{
    if at >= args.len() {
        (flags, words)
    } else if args[at] == "--peers"@ && at + 1 < args.len() {
        sorted_out(args, at + 2, flags.push(FlagView::Peers(args[at + 1])), words)
    } else if args[at] == "--client-id"@ && at + 1 < args.len() {
        sorted_out(args, at + 2, flags.push(FlagView::ClientId(args[at + 1])), words)
    } else {
        sorted_out(args, at + 1, flags, words.push(args[at]))
    }
}

/// Tells the options from the words of a command line.
pub fn split_flags(args: &Vec<String>) -> (r: (Vec<Flag>, Vec<String>))
    ensures
        (flag_views(r.0@), text_views(r.1@)) == sorted_out(
            text_views(args@),
            0,
            seq![],
            seq![],
        ),
{
    let mut flags: Vec<Flag> = Vec::new();
    let mut words: Vec<String> = Vec::new();
    let ghost views = text_views(args@);
    let mut i: usize = 0;
    assert(flag_views(flags@) =~= seq![]);
    assert(text_views(words@) =~= seq![]);
    while i < args.len()
        invariant
            i <= args@.len(),
            views == text_views(args@),
            sorted_out(views, 0, seq![], seq![]) == sorted_out(
                views,
                i as int,
                flag_views(flags@),
                text_views(words@),
            ),
        decreases args@.len() - i,
    {
        let ghost before = flag_views(flags@);
        let ghost said = text_views(words@);
        assert(views[i as int] == args@[i as int]@);
        if same_text(args[i].as_str(), "--peers") && i + 1 < args.len() {
            let value = args[i + 1].clone();
            assert(views[i + 1] == value@);
            flags.push(Flag::Peers(value));
            assert(flag_views(flags@) =~= before.push(FlagView::Peers(value@)));
            i = i + 2;
        } else if same_text(args[i].as_str(), "--client-id") && i + 1 < args.len() {
            let value = args[i + 1].clone();
            assert(views[i + 1] == value@);
            flags.push(Flag::ClientId(value));
            assert(flag_views(flags@) =~= before.push(FlagView::ClientId(value@)));
            i = i + 2;
        } else {
            words.push(args[i].clone());
            assert(text_views(words@) =~= said.push(views[i as int]));
            i = i + 1;
        }
    }
    (flags, words)
}

/// The addresses of a list, each with the white space around it cut off.
pub fn split_peers(text: &str) -> (r: Vec<String>)
    ensures
        text_views(r@) == pieces(text@, ',').map_values(|piece: Seq<char>| trimmed(piece)),
{
    let parts = split(text, ',');
    let ghost expected = pieces(text@, ',').map_values(|piece: Seq<char>| trimmed(piece));
    let mut out: Vec<String> = Vec::new();
    let mut i: usize = 0;
    while i < parts.len()
        invariant
            i <= parts@.len(),
            text_views(parts@) == pieces(text@, ','),
            expected == pieces(text@, ',').map_values(|piece: Seq<char>| trimmed(piece)),
            text_views(out@) =~= expected.take(i as int),
        decreases parts@.len() - i,
    {
        let ghost before = text_views(out@);
        assert(text_views(parts@)[i as int] == parts@[i as int]@);
        let piece = trim(parts[i].as_str());
        let ghost view = piece@;
        out.push(piece);
        assert(text_views(out@) =~= before.push(view));
        i = i + 1;
    }
    out
}

/// What the client is asked to do.
pub enum Task {
    Put { key: String, value: String },
    Get { key: String },
    Scan,
    Status,
    Members { voters: BTreeSet<NodeID> },
}

#[verifier::ext_equal]
pub ghost enum TaskView {
    Put { key: Seq<char>, value: Seq<char> },
    Get { key: Seq<char> },
    Scan,
    Status,
    Members { voters: Set<NodeID> },
}

impl View for Task {
    type V = TaskView;

    open spec fn view(&self) -> TaskView {
        match self {
            Task::Put { key, value } => TaskView::Put { key: key@, value: value@ },
            Task::Get { key } => TaskView::Get { key: key@ },
            Task::Scan => TaskView::Scan,
            Task::Status => TaskView::Status,
            Task::Members { voters } => TaskView::Members { voters: voters@ },
        }
    }
}

/// The identifiers of a list, or what is wrong with the first piece of it that is
/// none.
pub open spec fn listed_ids(list: Seq<Seq<char>>) -> std::result::Result<Set<NodeID>, NumberFault>
    decreases list.len(),
{
    if list.len() == 0 {
        Ok(Set::empty())
    } else {
        match listed_ids(list.drop_last()) {
            Ok(ids) => match number(trimmed(list.last()), u8::MAX as nat) {
                Some(id) => Ok(ids.insert(id as u8)),
                None => Err(number_fault(trimmed(list.last()), u8::MAX as nat)),
            },
            Err(fault) => Err(fault),
        }
    }
}

fn parse_ids(text: &str) -> (r: std::result::Result<BTreeSet<NodeID>, NumberFault>)
    ensures
        match (r, listed_ids(pieces(text@, ','))) {
            (Ok(ids), Ok(listed)) => ids@ == listed,
            (Err(fault), Err(found)) => fault == found,
            _ => false,
        },
{
    let parts = split(text, ',');
    let ghost views = pieces(text@, ',');
    let mut ids: BTreeSet<NodeID> = BTreeSet::new();
    let mut i: usize = 0;
    assert(views.take(0) =~= seq![]);
    while i < parts.len()
        invariant
            i <= parts@.len(),
            views == text_views(parts@),
            views == pieces(text@, ','),
            listed_ids(views.take(i as int)) == Ok::<Set<NodeID>, NumberFault>(ids@),
        decreases parts@.len() - i,
    {
        assert(views[i as int] == parts@[i as int]@);
        assert(views.take(i + 1).drop_last() =~= views.take(i as int));
        match parse_number(trim(parts[i].as_str()).as_str(), 255) {
            Ok(id) => {
                ids.insert(id as u8);
            },
            Err(fault) => {
                proof {
                    lemma_unlisted(views, i + 1);
                }
                return Err(fault);
            },
        }
        i = i + 1;
    }
    assert(views.take(i as int) =~= views);
    Ok(ids)
}

proof fn lemma_unlisted(list: Seq<Seq<char>>, n: int)
    requires
        0 <= n <= list.len(),
        listed_ids(list.take(n)) is Err,
    ensures
        listed_ids(list) == listed_ids(list.take(n)),
    decreases list.len(),
{
    if n == list.len() {
        assert(list.take(n) =~= list);
    } else {
        assert(list.drop_last().take(n) =~= list.take(n));
        lemma_unlisted(list.drop_last(), n);
    }
}

/// The task that the words of a command line ask for, or why they ask for none.
pub open spec fn task_of(words: Seq<Seq<char>>) -> std::result::Result<TaskView, Seq<char>> {
    if words.len() == 0 {
        Err("missing command"@)
    } else if words[0] == "put"@ {
        if words.len() < 3 {
            Err("put <key> <value>"@)
        } else {
            Ok(TaskView::Put { key: words[1], value: words[2] })
        }
    } else if words[0] == "get"@ {
        if words.len() < 2 {
            Err("get <key>"@)
        } else {
            Ok(TaskView::Get { key: words[1] })
        }
    } else if words[0] == "scan"@ {
        Ok(TaskView::Scan)
    } else if words[0] == "status"@ {
        Ok(TaskView::Status)
    } else if words[0] == "members"@ {
        if words.len() < 2 {
            Err("members <id,id,...>"@)
        } else {
            match listed_ids(pieces(words[1], ',')) {
                Ok(voters) => Ok(TaskView::Members { voters }),
                Err(fault) => Err("bad id: "@ + fault.words()),
            }
        }
    } else {
        Err("unknown command "@ + words[0])
    }
}

fn refused(text: &str) -> (r: Error)
    ensures
        r@ == ErrorView::InvalidInput(text@),
{
    Error::InvalidInput(text.to_string())
}

/// Reads the task that the words of a command line ask for.
pub fn parse_task(words: &Vec<String>) -> (r: Result<Task>)
    ensures
        match (r, task_of(text_views(words@))) {
            (Ok(task), Ok(view)) => task@ == view,
            (Err(e), Err(reason)) => e@ == ErrorView::InvalidInput(reason),
            _ => false,
        },
{
    let ghost views = text_views(words@);
    if words.len() == 0 {
        return Err(refused("missing command"));
    }
    assert(views[0] == words@[0]@);
    let name = words[0].as_str();
    if same_text(name, "put") {
        if words.len() < 3 {
            return Err(refused("put <key> <value>"));
        }
        assert(views[1] == words@[1]@ && views[2] == words@[2]@);
        Ok(Task::Put { key: words[1].clone(), value: words[2].clone() })
    } else if same_text(name, "get") {
        if words.len() < 2 {
            return Err(refused("get <key>"));
        }
        assert(views[1] == words@[1]@);
        Ok(Task::Get { key: words[1].clone() })
    } else if same_text(name, "scan") {
        Ok(Task::Scan)
    } else if same_text(name, "status") {
        Ok(Task::Status)
    } else if same_text(name, "members") {
        if words.len() < 2 {
            return Err(refused("members <id,id,...>"));
        }
        assert(views[1] == words@[1]@);
        match parse_ids(words[1].as_str()) {
            Ok(voters) => Ok(Task::Members { voters }),
            Err(fault) => {
                let mut text = "bad id: ".to_string();
                text.append(fault.text().as_str());
                Err(Error::InvalidInput(text))
            },
        }
    } else {
        let mut text = "unknown command ".to_string();
        text.append(name);
        Err(Error::InvalidInput(text))
    }
}

/// Refuses a command line without any address of a node.
pub fn check_peers(count: usize) -> (r: Result<()>)
    ensures
        match r {
            Ok(()) => count > 0,
            Err(e) => count == 0 && e@ == ErrorView::InvalidInput(usage()),
        },
{
    if count > 0 {
        return Ok(());
    }
    Err(
        refused(
            "usage: raft-cli --peers host:port[,host:port...] [--client-id UUID] <put|get|scan|status|members> ...",
        ),
    )
}

/// How the client is called.
pub open spec fn usage() -> Seq<char> {
    "usage: raft-cli --peers host:port[,host:port...] [--client-id UUID] <put|get|scan|status|members> ..."@
}

// The session file.

/// What the client keeps between its runs: who it is, and the number of its last
/// write.
#[derive(Debug, PartialEq)]
pub struct SessionStore {
    pub client_id: u128,
    pub last_seq: u64,
}

/// A line of a session file.
pub enum Line {
    ClientId(String),
    LastSeq(String),
    Other,
}

pub ghost enum LineView {
    ClientId(Seq<char>),
    LastSeq(Seq<char>),
    Other,
}

impl View for Line {
    type V = LineView;

    open spec fn view(&self) -> LineView {
        match self {
            Line::ClientId(text) => LineView::ClientId(text@),
            Line::LastSeq(text) => LineView::LastSeq(text@),
            Line::Other => LineView::Other,
        }
    }
}

/// What a line of a session file sets.
pub open spec fn line_of(line: Seq<char>) -> LineView {
    if starts_with(line, "client_id="@) {
        LineView::ClientId(trimmed(line.skip("client_id="@.len() as int)))
    } else if starts_with(line, "last_seq="@) {
        LineView::LastSeq(trimmed(line.skip("last_seq="@.len() as int)))
    } else {
        LineView::Other
    }
}

/// Reads a line of a session file.
pub fn parse_line(line: &str) -> (r: Line)
    ensures
        r@ == line_of(line@),
{
    match strip_prefix(line, "client_id=") {
        Some(rest) => Line::ClientId(trim(rest.as_str())),
        None => match strip_prefix(line, "last_seq=") {
            Some(rest) => Line::LastSeq(trim(rest.as_str())),
            None => Line::Other,
        },
    }
}

/// A session after a line, given the identifier that its text stands for. What
/// cannot be read is passed over.
pub open spec fn taking(store: SessionStore, line: LineView, id: Option<u128>) -> SessionStore {
    match line {
        LineView::ClientId(_) => match id {
            Some(client_id) => SessionStore { client_id, ..store },
            None => store,
        },
        LineView::LastSeq(text) => match number(text, u64::MAX as nat) {
            Some(last_seq) => SessionStore { last_seq: last_seq as u64, ..store },
            None => store,
        },
        LineView::Other => store,
    }
}

/// The identifier that the text of a line stands for, if it is about one.
pub open spec fn line_id(line: LineView) -> Option<u128> {
    match line {
        LineView::ClientId(text) => match parsed_uuid(text) {
            Ok(id) => Some(id),
            Err(_) => None,
        },
        _ => None,
    }
}

/// A session after some lines.
pub open spec fn taking_all(store: SessionStore, lines: Seq<Seq<char>>) -> SessionStore
    decreases lines.len(),
{
    if lines.len() == 0 {
        store
    } else {
        let line = line_of(lines.last());
        taking(taking_all(store, lines.drop_last()), line, line_id(line))
    }
}

/// The contents of a session file.
pub open spec fn session_text(store: SessionStore) -> Seq<char> {
    "client_id="@ + uuid_text(store.client_id) + "\n"@ + "last_seq="@ + decimal(
        store.last_seq as nat,
    ) + "\n"@
}

/// The session that a file with the given contents holds, if there is one. Else,
/// and for what the file does not say, it is a new one.
pub open spec fn loaded(text: Option<Seq<char>>, fresh: u128) -> SessionStore {
    let new = SessionStore { client_id: fresh, last_seq: 0 };
    match text {
        Some(text) => taking_all(new, pieces(text, '\n')),
        None => new,
    }
}

impl SessionStore {
    /// The session that a file holds. Without a file, and for what the file does
    /// not say, it is a new one: with the identifier `fresh`, before its first
    /// write.
    pub fn load(text: Option<&str>, fresh: u128) -> (r: SessionStore)
        ensures
            r == loaded(
                match text {
                    Some(text) => Some(text@),
                    None => None,
                },
                fresh,
            ),
    {
        let mut store = SessionStore { client_id: fresh, last_seq: 0 };
        let text = match text {
            Some(text) => text,
            None => return store,
        };
        let ghost new = store;
        let lines = split(text, '\n');
        let ghost views = pieces(text@, '\n');
        let mut i: usize = 0;
        assert(views.take(0) =~= seq![]);
        while i < lines.len()
            invariant
                i <= lines@.len(),
                views == text_views(lines@),
                store == taking_all(new, views.take(i as int)),
            decreases lines@.len() - i,
        {
            assert(views[i as int] == lines@[i as int]@);
            assert(views.take(i + 1).drop_last() =~= views.take(i as int));
            let line = parse_line(lines[i].as_str());
            let id = match &line {
                Line::ClientId(text) => match parse_uuid(text.as_str()) {
                    Ok(id) => Some(id),
                    Err(_) => None,
                },
                _ => None,
            };
            store.take(line, id);
            i = i + 1;
        }
        assert(views.take(i as int) =~= views);
        store
    }

    /// Takes in a line, given the identifier that its text stands for.
    pub fn take(&mut self, line: Line, id: Option<u128>)
        ensures
            *final(self) == taking(*old(self), line@, id),
    {
        match line {
            Line::ClientId(_) => match id {
                Some(client_id) => {
                    self.client_id = client_id;
                },
                None => {},
            },
            Line::LastSeq(text) => match parse_number(text.as_str(), u64::MAX) {
                Ok(last_seq) => {
                    self.last_seq = last_seq;
                },
                Err(_) => {},
            },
            Line::Other => {},
        }
    }

    /// The number of the next write. The last number is used again and again.
    pub fn next_seq(&mut self) -> (r: u64)
        ensures
            r == if old(self).last_seq < u64::MAX {
                old(self).last_seq + 1
            } else {
                u64::MAX as int
            },
            *final(self) == (SessionStore { last_seq: r, ..*old(self) }),
    {
        self.last_seq = self.last_seq.saturating_add(1);
        self.last_seq
    }

    /// The contents of the session file. Loading it gives the session back.
    #[verifier::spinoff_prover]
    pub fn text(&self) -> (r: String)
        ensures
            r@ == session_text(*self),
            forall|fresh: u128| #[trigger] loaded(Some(r@), fresh) == *self,
    {
        let mut out = "client_id=".to_string();
        let id = format_uuid(self.client_id);
        out.append(id.as_str());
        assert(out@ == "client_id="@ + uuid_text(self.client_id));
        out.append("\n");
        out.append("last_seq=");
        out.append(decimal_text(self.last_seq).as_str());
        out.append("\n");
        assert(out@ == session_text(*self));
        proof {
            let text = out@;
            assert forall|fresh: u128| #[trigger] loaded(Some(text), fresh) == *self by {
                lemma_session_kept(*self, fresh);
            }
        }
        out
    }
}

/// Hexadecimal text is made of hexadecimal digits.
proof fn lemma_hex(bytes: Seq<u8>)
    ensures
        hex_text(bytes).len() == 2 * bytes.len(),
        forall|k: int|
            0 <= k < hex_text(bytes).len() ==> {
                let c = #[trigger] hex_text(bytes)[k];
                ('0' <= c <= '9') || ('a' <= c <= 'f')
            },
    decreases bytes.len(),
{
    if bytes.len() > 0 {
        lemma_hex(bytes.drop_last());
    }
}

/// The text of an identifier is made of hexadecimal digits and hyphens, and is
/// not empty.
proof fn lemma_uuid_text(id: u128)
    ensures
        uuid_text(id).len() == 36,
        forall|k: int|
            0 <= k < 36 ==> {
                let c = #[trigger] uuid_text(id)[k];
                ('0' <= c <= '9') || ('a' <= c <= 'f') || c == '-'
            },
{
    let bytes = be_bytes(id as nat, 16);
    lemma_byte_pow();
    be_round_trip(id as nat, 16);
    lemma_hex(bytes.subrange(0, 4));
    lemma_hex(bytes.subrange(4, 6));
    lemma_hex(bytes.subrange(6, 8));
    lemma_hex(bytes.subrange(8, 10));
    lemma_hex(bytes.subrange(10, 16));
}

/// A session that was saved is loaded again.
proof fn lemma_session_kept(store: SessionStore, fresh: u128)
    requires
        parsed_uuid(uuid_text(store.client_id)) == Ok::<u128, Seq<char>>(store.client_id),
    ensures
        loaded(Some(session_text(store)), fresh) == store,
{
    let new = SessionStore { client_id: fresh, last_seq: 0 };
    let id = uuid_text(store.client_id);
    let seq = decimal(store.last_seq as nat);
    reveal_strlit("client_id=");
    reveal_strlit("last_seq=");
    reveal_strlit("\n");
    let first = "client_id="@ + id;
    let second = "last_seq="@ + seq;
    let none: Seq<char> = seq![];
    lemma_uuid_text(store.client_id);
    decimal_round_trip(store.last_seq as nat, u64::MAX as nat);
    assert(!first.contains('\n')) by {
        assert forall|k: int| 0 <= k < first.len() implies first[k] != '\n' by {
            if k >= 10 {
                assert(first[k] == id[k - 10]);
            }
        }
    }
    assert(!second.contains('\n')) by {
        assert forall|k: int| 0 <= k < second.len() implies second[k] != '\n' by {
            if k >= 9 {
                assert(second[k] == seq[k - 9]);
            }
        }
    }
    let rest = second.push('\n') + none;
    assert(session_text(store) =~= first.push('\n') + rest);
    lemma_next_piece(first, '\n', rest);
    lemma_next_piece(second, '\n', none);
    lemma_one_piece(first, '\n');
    lemma_one_piece(second, '\n');
    lemma_one_piece(none, '\n');
    let lines = seq![first, second, none];
    assert(pieces(session_text(store), '\n') =~= lines);
    assert(first.take(10) =~= "client_id="@);
    assert(first.skip(10) =~= id);
    assert(second.take(9) =~= "last_seq="@);
    assert(second.skip(9) =~= seq);
    assert(second.take(10)[0] == 'l');
    assert(id[0] == id.first() && id[35] == id.last());
    lemma_trimmed(id);
    lemma_trimmed(seq);
    reveal_with_fuel(taking_all, 4);
    assert(lines.drop_last() =~= seq![first, second]);
    assert(lines.drop_last().drop_last() =~= seq![first]);
    assert(lines.drop_last().drop_last().drop_last() =~= seq![]);
    assert(line_of(first) == LineView::ClientId(id));
    assert(line_of(second) == LineView::LastSeq(seq));
    assert(line_of(none) == LineView::Other);
}

// Requests and answers.

/// The request that a task leads to, given the client's identifier and the number
/// of its write.
pub open spec fn task_request(task: TaskView, client_id: u128, seq: u64) -> RequestView {
    match task {
        TaskView::Put { key, value } => RequestView::WriteSession {
            client_id,
            seq,
            command: kv::command_bytes(CommandView::Put { key, value }),
        },
        TaskView::Get { key } => RequestView::Read(kv::command_bytes(CommandView::Get { key })),
        TaskView::Scan => RequestView::Read(kv::command_bytes(CommandView::Scan)),
        TaskView::Status => RequestView::Status,
        TaskView::Members { voters } => RequestView::ChangeMembership { voters },
    }
}

/// Whether a task is a write, for which a number is used up.
pub fn is_write(task: &Task) -> (r: bool)
    ensures
        r == (task@ is Put),
{
    match task {
        Task::Put { .. } => true,
        _ => false,
    }
}

/// The request that a task leads to.
pub fn request_of(task: &Task, client_id: u128, seq: u64) -> (r: Request)
    ensures
        r@ == task_request(task@, client_id, seq),
{
    match task {
        Task::Put { key, value } => Request::WriteSession {
            client_id,
            seq,
            command: encode(&Command::Put { key: key.clone(), value: value.clone() }),
        },
        Task::Get { key } => Request::Read(encode(&Command::Get { key: key.clone() })),
        Task::Scan => Request::Read(encode(&Command::Scan)),
        Task::Status => Request::Status,
        Task::Members { voters } => Request::ChangeMembership { voters: unordered(voters) },
    }
}

/// The state of a cluster in two lines.
pub open spec fn status_text(status: StatusView) -> Seq<char> {
    "leader="@ + decimal(status.leader as nat) + " term="@ + decimal(status.term as nat)
        + " commit="@ + decimal(status.commit_index as nat) + " applied="@ + decimal(
        status.applied_index as nat,
    ) + " voters={"@ + ids_text(ascending(status.voters)) + "}\nmatch_index={"@ + indexes_text(
        ascending(status.match_index.dom()),
        status.match_index,
    ) + "}"@
}

fn status_string(status: &Status) -> (r: String)
    ensures
        r@ == status_text(status@),
{
    let mut out = "leader=".to_string();
    out.append(decimal_text(status.leader as u64).as_str());
    out.append(" term=");
    out.append(decimal_text(status.term).as_str());
    out.append(" commit=");
    out.append(decimal_text(status.commit_index).as_str());
    out.append(" applied=");
    out.append(decimal_text(status.applied_index).as_str());
    out.append(" voters={");
    out.append(ids_string(ids_of(&status.voters).as_slice()).as_str());
    out.append("}\nmatch_index={");
    out.append(indexes_string(&status.match_index).as_str());
    out.append("}");
    out
}

/// What to print of an answer.
pub enum Printed {
    /// This text.
    Text(String),
    /// The answer as it is: it does not fit the task.
    Raw(Response),
}

/// The response of the store that an answer carries, if it fits the task.
pub open spec fn carried(task: TaskView, response: Response) -> Option<Seq<u8>> {
    match (task, response) {
        (TaskView::Put { .. }, Response::Write(bytes)) => Some(bytes@),
        (TaskView::Get { .. }, Response::Read(bytes)) => Some(bytes@),
        (TaskView::Scan, Response::Read(bytes)) => Some(bytes@),
        _ => None,
    }
}

/// The text of an answer to a task.
pub fn render(task: &Task, response: Response) -> (r: Result<Printed>)
    ensures
        match r {
            Ok(Printed::Text(text)) => match (task@, response) {
                (TaskView::Status, Response::Status(status)) => text@ == status_text(status@),
                (TaskView::Members { .. }, Response::ChangeMembership { index }) => text@
                    == "membership proposed @ "@ + decimal(index as nat),
                _ => carried(task@, response) matches Some(bytes) && kv::read_response(
                    bytes,
                ) matches Some(answer) && text@ == kv::response_text(answer),
            },
            Ok(Printed::Raw(raw)) => raw == response && carried(task@, response) is None && !(
            task@ is Status && response is Status) && !(task@ is Members
                && response is ChangeMembership),
            Err(e) => e@ == ErrorView::InvalidData && (carried(task@, response) matches Some(bytes)
                && kv::read_response(bytes) is None),
        },
{
    match (task, response) {
        (Task::Put { .. }, Response::Write(bytes)) => store_text(bytes),
        (Task::Get { .. }, Response::Read(bytes)) => store_text(bytes),
        (Task::Scan, Response::Read(bytes)) => store_text(bytes),
        (Task::Status, Response::Status(status)) => Ok(Printed::Text(status_string(&status))),
        (Task::Members { .. }, Response::ChangeMembership { index }) => {
            let mut out = "membership proposed @ ".to_string();
            out.append(decimal_text(index).as_str());
            Ok(Printed::Text(out))
        },
        (_, response) => Ok(Printed::Raw(response)),
    }
}

fn store_text(bytes: Vec<u8>) -> (r: Result<Printed>)
    ensures
        match r {
            Ok(Printed::Text(text)) => kv::read_response(bytes@) matches Some(answer) && text@
                == kv::response_text(answer),
            Ok(Printed::Raw(_)) => false,
            Err(e) => e@ == ErrorView::InvalidData && kv::read_response(bytes@) is None,
        },
{
    match decode::<kv::Response>(bytes.as_slice()) {
        Ok(answer) => Ok(Printed::Text(answer.text())),
        Err(e) => Err(e),
    }
}

} // verus!
