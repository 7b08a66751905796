//! Client sessions: a write that a client numbers takes effect at most once.

use std::collections::BTreeMap;

use vstd::prelude::*;
use vstd::std_specs::cmp::OrdSpec;
use vstd::std_specs::iter::IteratorSpec;

use super::entry::{Entry, EntryView, Index};
use super::model::{increasing_requests, requests_in_order};
use super::order::{lemma_requests_in_order, lemma_requests_unique};
use super::state::{Outcome, State};
use crate::encoding::bincode::{
    byte_string, byte_string_round_trip, put_bytes, put_u64, read_byte_string, read_varint, varint,
    varint_round_trip, wrong_identifier, Reader,
};
use crate::encoding::bytes::{be_bytes, be_round_trip, be_value, from_be, lemma_byte_pow, to_be};
use crate::error::{ErrorView, Result};

verus! {

broadcast use vstd::std_specs::btree::group_btree_axioms;

/// A client's write as it stands in the log: the bytes `SESS`, the client's
/// identifier as a byte string, the number of the write, and the command.
pub open spec fn session_command(client_id: u128, seq: u64, command: Seq<u8>) -> Seq<u8> {
    seq![0x53u8, 0x45, 0x53, 0x53] + byte_string(be_bytes(client_id as nat, 16)) + varint(
        seq as nat,
    ) + byte_string(command)
}

/// Wraps a client's write for the log.
pub fn encode_session(client_id: u128, seq: u64, payload: Vec<u8>) -> (r: Vec<u8>)
    ensures
        r@ == session_command(client_id, seq, payload@),
{
    let mut out: Vec<u8> = vec![0x53, 0x45, 0x53, 0x53];
    assert(out@ =~= seq![0x53u8, 0x45, 0x53, 0x53]);
    put_bytes(&mut out, to_be(client_id, 16).as_slice());
    put_u64(&mut out, seq);
    put_bytes(&mut out, payload.as_slice());
    out
}

/// A client's write.
#[derive(Clone, Debug)]
pub struct SessionCommand {
    pub client_id: u128,
    /// The number that the client gave to the write.
    pub seq: u64,
    pub payload: Vec<u8>,
}

/// What contracts say of a client's write.
pub ghost struct SessionCommandView {
    pub client_id: u128,
    pub seq: u64,
    pub payload: Seq<u8>,
}

impl View for SessionCommand {
    type V = SessionCommandView;

    open spec fn view(&self) -> SessionCommandView {
        SessionCommandView { client_id: self.client_id, seq: self.seq, payload: self.payload@ }
    }
}

/// Reads a client identifier, which is a byte string of sixteen bytes.
pub open spec fn read_client(bytes: Seq<u8>) -> Option<(u128, Seq<u8>)> {
    match read_byte_string(bytes) {
        Some((id, rest)) => if id.len() == 16 {
            Some((be_value(id) as u128, rest))
        } else {
            None
        },
        None => None,
    }
}

/// Reads an identifier, a number and a byte string.
pub open spec fn read_numbered(bytes: Seq<u8>) -> Option<(u128, u64, Seq<u8>, Seq<u8>)> {
    match read_client(bytes) {
        Some((client_id, rest)) => match read_varint(rest, 8) {
            Some((seq, rest)) => match read_byte_string(rest) {
                Some((data, rest)) => Some((client_id, seq as u64, data, rest)),
                None => None,
            },
            None => None,
        },
        None => None,
    }
}

/// The client's write that `bytes` holds, if it is one.
pub open spec fn read_session(bytes: Seq<u8>) -> Option<SessionCommandView> {
    if bytes.len() >= 4 && bytes.take(4) == seq![0x53u8, 0x45, 0x53, 0x53] {
        match read_numbered(bytes.skip(4)) {
            Some((client_id, seq, payload, _)) => Some(
                SessionCommandView { client_id, seq, payload },
            ),
            None => None,
        }
    } else {
        None
    }
}

/// An identifier, a number and a byte string, one after the other.
pub open spec fn numbered(client_id: u128, seq: u64, data: Seq<u8>) -> Seq<u8> {
    byte_string(be_bytes(client_id as nat, 16)) + varint(seq as nat) + byte_string(data)
}

proof fn lemma_numbered(client_id: u128, seq: u64, data: Seq<u8>, rest: Seq<u8>)
    requires
        data.len() <= u64::MAX,
    ensures
        read_numbered(numbered(client_id, seq, data) + rest) == Some((client_id, seq, data, rest)),
{
    let id = be_bytes(client_id as nat, 16);
    lemma_byte_pow();
    be_round_trip(client_id as nat, 16);
    let last = byte_string(data) + rest;
    let more = varint(seq as nat) + last;
    byte_string_round_trip(id, more);
    varint_round_trip(seq as nat, last, 8);
    byte_string_round_trip(data, rest);
    assert(numbered(client_id, seq, data) + rest =~= byte_string(id) + more);
}

/// The write that a client wraps is the one that is read back.
pub proof fn session_round_trip(client_id: u128, seq: u64, payload: Seq<u8>)
    requires
        payload.len() <= u64::MAX,
    ensures
        read_session(session_command(client_id, seq, payload)) == Some(
            SessionCommandView { client_id, seq, payload },
        ),
{
    let mark = seq![0x53u8, 0x45, 0x53, 0x53];
    let all = session_command(client_id, seq, payload);
    let body = numbered(client_id, seq, payload);
    lemma_numbered(client_id, seq, payload, seq![]);
    assert(all =~= mark + body);
    assert(all.take(4) =~= mark);
    assert(all.skip(4) =~= body + seq![]);
}

/// Reads an identifier, a number and a byte string.
fn take_numbered(reader: &mut Reader) -> (r: Result<(u128, u64, Vec<u8>)>)
    requires
        old(reader).wf(),
    ensures
        final(reader).wf(),
        match r {
            Ok((client_id, seq, data)) => read_numbered(old(reader).rest()) == Some(
                (client_id, seq, data@, final(reader).rest()),
            ),
            Err(e) => read_numbered(old(reader).rest()) is None && e@ == ErrorView::InvalidData,
        },
{
    let id = match reader.byte_string() {
        Ok(id) => id,
        Err(e) => return Err(e),
    };
    if id.len() != 16 {
        return Err(wrong_identifier(id.len()));
    }
    let client_id = from_be(id.as_slice());
    let seq = match reader.u64() {
        Ok(seq) => seq,
        Err(e) => return Err(e),
    };
    match reader.byte_string() {
        Ok(data) => Ok((client_id, seq, data)),
        Err(e) => Err(e),
    }
}

/// Unwraps a client's write. Any other command is none.
pub fn decode_session(bytes: &[u8]) -> (r: Option<SessionCommand>)
    ensures
        match r {
            Some(command) => read_session(bytes@) == Some(command@),
            None => read_session(bytes@) is None,
        },
{
    if bytes.len() < 4 || bytes[0] != 0x53 || bytes[1] != 0x45 || bytes[2] != 0x53 || bytes[3]
        != 0x53 {
        proof {
            if bytes@.len() >= 4 && bytes@.take(4) == seq![0x53u8, 0x45, 0x53, 0x53] {
                assert(bytes@.take(4)[0] == bytes@[0] && bytes@.take(4)[1] == bytes@[1]
                    && bytes@.take(4)[2] == bytes@[2] && bytes@.take(4)[3] == bytes@[3]);
            }
        }
        return None;
    }
    assert(bytes@.take(4) =~= seq![0x53u8, 0x45, 0x53, 0x53]);
    let mut reader = Reader { bytes, at: 4 };
    match take_numbered(&mut reader) {
        Ok((client_id, seq, payload)) => Some(SessionCommand { client_id, seq, payload }),
        Err(_) => None,
    }
}

/// A state machine whose clients number their writes: a write that comes again
/// is answered as it was, and not applied again.
pub struct SessionState<S: State> {
    inner: S,
    /// The last write of each client: its number and the response to it.
    sessions: BTreeMap<u128, (u64, Vec<u8>)>,
}

/// What contracts say of a state machine with sessions.
#[verifier::ext_equal]
pub ghost struct SessionView<M> {
    pub inner: M,
    /// The last write of each client: its number and the response to it.
    pub sessions: Map<u128, (u64, Seq<u8>)>,
}

/// The sessions that a map holds.
pub open spec fn sessions_of(sessions: Map<u128, (u64, Vec<u8>)>) -> Map<u128, (u64, Seq<u8>)> {
    sessions.map_values(|last: (u64, Vec<u8>)| (last.0, last.1@))
}

// Snapshots.

/// The last writes of the given clients.
pub open spec fn last_writes(ids: Seq<u128>, sessions: Map<u128, (u64, Seq<u8>)>) -> Seq<u8>
    decreases ids.len(),
{
    if ids.len() == 0 {
        seq![]
    } else {
        numbered(ids[0], sessions[ids[0]].0, sessions[ids[0]].1) + last_writes(
            ids.skip(1),
            sessions,
        )
    }
}

/// The sessions: their number, then each client's last write, in ascending order
/// of the identifiers.
pub open spec fn sessions_bytes(sessions: Map<u128, (u64, Seq<u8>)>) -> Seq<u8> {
    let ids = requests_in_order(sessions.dom());
    varint(ids.len()) + last_writes(ids, sessions)
}

/// Reads `n` clients' last writes into `sessions`.
pub open spec fn read_last_writes(
    bytes: Seq<u8>,
    n: nat,
    sessions: Map<u128, (u64, Seq<u8>)>,
) -> Option<Map<u128, (u64, Seq<u8>)>>
    decreases n,
{
    if n == 0 {
        Some(sessions)
    } else {
        match read_numbered(bytes) {
            Some((id, seq, response, rest)) => read_last_writes(
                rest,
                (n - 1) as nat,
                sessions.insert(id, (seq, response)),
            ),
            None => None,
        }
    }
}

pub open spec fn read_sessions(bytes: Seq<u8>) -> Option<Map<u128, (u64, Seq<u8>)>> {
    match read_varint(bytes, 8) {
        Some((n, rest)) => read_last_writes(rest, n, Map::empty()),
        None => None,
    }
}

proof fn lemma_last_writes_push(
    ids: Seq<u128>,
    id: u128,
    sessions: Map<u128, (u64, Seq<u8>)>,
)
    ensures
        last_writes(ids.push(id), sessions) == last_writes(ids, sessions) + numbered(
            id,
            sessions[id].0,
            sessions[id].1,
        ),
    decreases ids.len(),
{
    reveal_with_fuel(last_writes, 2);
    let all = ids.push(id);
    let end = numbered(id, sessions[id].0, sessions[id].1);
    if ids.len() == 0 {
        assert(all.skip(1) =~= seq![]);
        assert(last_writes(all, sessions) =~= end);
        assert(last_writes(ids, sessions) + end =~= end);
    } else {
        lemma_last_writes_push(ids.skip(1), id, sessions);
        assert(all.skip(1) =~= ids.skip(1).push(id));
        assert(last_writes(all, sessions) =~= last_writes(ids, sessions) + end);
    }
}

/// `before` with the sessions of the given clients as in `sessions`.
spec fn merged(
    ids: Seq<u128>,
    sessions: Map<u128, (u64, Seq<u8>)>,
    before: Map<u128, (u64, Seq<u8>)>,
) -> Map<u128, (u64, Seq<u8>)>
    decreases ids.len(),
{
    if ids.len() == 0 {
        before
    } else {
        merged(ids.skip(1), sessions, before.insert(ids[0], sessions[ids[0]]))
    }
}

proof fn lemma_merged(
    ids: Seq<u128>,
    sessions: Map<u128, (u64, Seq<u8>)>,
    before: Map<u128, (u64, Seq<u8>)>,
    id: u128,
)
    ensures
        ({
            let after = merged(ids, sessions, before);
            if ids.contains(id) {
                after.contains_key(id) && after[id] == sessions[id]
            } else {
                after.contains_key(id) == before.contains_key(id) && after[id] == before[id]
            }
        }),
    decreases ids.len(),
{
    if ids.len() > 0 {
        let tail = ids.skip(1);
        lemma_merged(tail, sessions, before.insert(ids[0], sessions[ids[0]]), id);
        if ids.contains(id) {
            let i = choose|i: int| 0 <= i < ids.len() && ids[i] == id;
            if i > 0 {
                assert(tail[i - 1] == id);
            }
        } else {
            assert(id != ids[0]);
            if tail.contains(id) {
                let i = choose|i: int| 0 <= i < tail.len() && tail[i] == id;
                assert(ids[i + 1] == id);
            }
        }
    }
}

proof fn lemma_read_last_writes(
    ids: Seq<u128>,
    sessions: Map<u128, (u64, Seq<u8>)>,
    before: Map<u128, (u64, Seq<u8>)>,
)
    requires
        forall|i: int| 0 <= i < ids.len() ==> sessions[#[trigger] ids[i]].1.len() <= u64::MAX,
    ensures
        read_last_writes(last_writes(ids, sessions), ids.len(), before) == Some(
            merged(ids, sessions, before),
        ),
    decreases ids.len(),
{
    if ids.len() > 0 {
        let id = ids[0];
        let tail = ids.skip(1);
        lemma_numbered(id, sessions[id].0, sessions[id].1, last_writes(tail, sessions));
        assert forall|i: int| 0 <= i < tail.len() implies sessions[#[trigger] tail[i]].1.len()
            <= u64::MAX by {
            assert(tail[i] == ids[i + 1]);
        }
        assert((sessions[id].0, sessions[id].1) == sessions[id]);
        lemma_read_last_writes(tail, sessions, before.insert(id, sessions[id]));
    }
}

/// Whether the lengths in sessions fit their encoding, as they do for all
/// sessions that fit into memory.
pub open spec fn sessions_fit(sessions: Map<u128, (u64, Seq<u8>)>) -> bool {
    &&& requests_in_order(sessions.dom()).len() <= u64::MAX
    &&& forall|id: u128| #[trigger]
        sessions.contains_key(id) ==> sessions[id].1.len() <= u64::MAX
}

/// The sessions written are the ones read back.
pub proof fn sessions_round_trip(sessions: Map<u128, (u64, Seq<u8>)>)
    requires
        sessions_fit(sessions),
    ensures
        read_sessions(sessions_bytes(sessions)) == Some(sessions),
{
    let ids = requests_in_order(sessions.dom());
    lemma_requests_in_order(sessions.dom());
    varint_round_trip(ids.len(), last_writes(ids, sessions), 8);
    assert forall|i: int| 0 <= i < ids.len() implies sessions[#[trigger] ids[i]].1.len()
        <= u64::MAX by {
        assert(ids.to_set().contains(ids[i]));
        assert(sessions.contains_key(ids[i]));
    }
    lemma_read_last_writes(ids, sessions, Map::empty());
    let after = merged(ids, sessions, Map::empty());
    assert forall|id: u128| #[trigger] after.contains_key(id) == sessions.contains_key(id) && (
    after.contains_key(id) ==> after[id] == sessions[id]) by {
        lemma_merged(ids, sessions, Map::empty(), id);
        assert(ids.contains(id) == ids.to_set().contains(id));
    }
    assert(after =~= sessions);
}

/// The keys of a map are walked in ascending order.
proof fn lemma_increasing(ids: Seq<u128>)
    requires
        vstd::std_specs::btree::increasing_seq(ids),
    ensures
        increasing_requests(ids),
{
    assert forall|i: int, j: int| 0 <= i < j < ids.len() implies ids[i] < ids[j] by {
        assert(ids[i].cmp_spec(&ids[j]) is Less);
    }
}

/// Appends the sessions.
fn put_sessions(out: &mut Vec<u8>, sessions: &BTreeMap<u128, (u64, Vec<u8>)>)
    ensures
        final(out)@ == old(out)@ + sessions_bytes(sessions_of(sessions@)),
{
    let ghost start = out@;
    let ghost view = sessions_of(sessions@);
    let ghost pairs = sessions.iter().remaining();
    let ghost ids = pairs.map_values(|kv: (&u128, &(u64, Vec<u8>))| *kv.0);
    let n = sessions.len();
    put_u64(out, n as u64);
    assert(ids.take(0) =~= seq![]);
    for pair in it: sessions.iter()
        invariant
            it.seq() == pairs,
            view == sessions_of(sessions@),
            ids == pairs.map_values(|kv: (&u128, &(u64, Vec<u8>))| *kv.0),
            forall|k: int|
                0 <= k < pairs.len() ==> sessions@.contains_key(*(#[trigger] pairs[k]).0)
                    && sessions@[*pairs[k].0] == *pairs[k].1,
            out@ == start + varint(n as nat) + last_writes(ids.take(it.index()), view),
    {
        let (id, last) = pair;
        let ghost before = out@;
        put_bytes(out, to_be(*id, 16).as_slice());
        put_u64(out, last.0);
        put_bytes(out, last.1.as_slice());
        proof {
            let at = it.index();
            let done = ids.take(at);
            lemma_last_writes_push(done, ids[at], view);
            assert(ids.take(at + 1) =~= done.push(ids[at]));
            assert(sessions@.contains_key(*pairs[at].0));
            assert(view[*id] == (last.0, last.1@));
            assert(out@ =~= before + numbered(*id, last.0, last.1@));
            assert(out@ =~= start + varint(n as nat) + last_writes(ids.take(at + 1), view));
        }
    }
    proof {
        lemma_increasing(ids);
        assert forall|x: u128| #[trigger] ids.to_set().contains(x) == sessions@.dom().contains(
            x,
        ) by {
            if ids.contains(x) {
                let k = choose|k: int| 0 <= k < ids.len() && ids[k] == x;
                assert(sessions@.contains_key(*pairs[k].0));
            }
            if sessions@.contains_key(x) {
                assert(pairs.contains((&x, &sessions@[x])));
                let k = choose|k: int| 0 <= k < pairs.len() && pairs[k] == (&x, &sessions@[x]);
                assert(ids[k] == x);
            }
        }
        assert(ids.to_set() =~= sessions@.dom());
        assert(view.dom() =~= sessions@.dom());
        lemma_requests_in_order(view.dom());
        lemma_requests_unique(ids, requests_in_order(view.dom()));
        ids.unique_seq_to_set();
    }
    assert(ids.take(ids.len() as int) =~= ids);
    assert(out@ =~= start + sessions_bytes(view));
}

/// Reads the sessions.
fn take_sessions(reader: &mut Reader) -> (r: Result<BTreeMap<u128, (u64, Vec<u8>)>>)
    requires
        old(reader).wf(),
    ensures
        match r {
            Ok(sessions) => read_sessions(old(reader).rest()) == Some(sessions_of(sessions@)),
            Err(e) => read_sessions(old(reader).rest()) is None && e@ == ErrorView::InvalidData,
        },
{
    let ghost start = reader.rest();
    let n = match reader.u64() {
        Ok(n) => n,
        Err(e) => return Err(e),
    };
    let mut sessions: BTreeMap<u128, (u64, Vec<u8>)> = BTreeMap::new();
    assert(sessions_of(sessions@) =~= Map::empty());
    let mut left: u64 = n;
    while left > 0
        invariant
            reader.wf(),
            start == old(reader).rest(),
            read_sessions(start) == read_last_writes(
                reader.rest(),
                left as nat,
                sessions_of(sessions@),
            ),
        decreases left,
    {
        let ghost before = sessions_of(sessions@);
        let (id, seq, response) = match take_numbered(reader) {
            Ok(numbered) => numbered,
            Err(e) => return Err(e),
        };
        let ghost data = response@;
        sessions.insert(id, (seq, response));
        assert(sessions_of(sessions@) =~= before.insert(id, (seq, data)));
        left = left - 1;
    }
    Ok(sessions)
}

/// An entry without a command, at the place of another.
pub open spec fn blank(entry: EntryView) -> EntryView {
    EntryView { command: None, membership: None, ..entry }
}

/// The entry that applies the command of a client's write.
pub open spec fn unwrapped(entry: EntryView, payload: Seq<u8>) -> EntryView {
    EntryView { command: Some(payload), membership: None, ..entry }
}

impl<S: State> SessionState<S> {
    /// Adds sessions to a state machine.
    pub fn new(inner: S) -> (r: SessionState<S>)
        requires
            inner.wf(),
        ensures
            r.wf(),
            r.model() == (SessionView { inner: inner.model(), sessions: Map::empty() }),
    {
        let r = SessionState { inner, sessions: BTreeMap::new() };
        assert(sessions_of(r.sessions@) =~= Map::empty());
        r
    }

    /// The state machine without its sessions.
    pub fn into_inner(self) -> (r: S)
        requires
            self.wf(),
        ensures
            r.wf(),
            r.model() == self.model().inner,
    {
        self.inner
    }
}

impl<S: State> State for SessionState<S> {
    type Model = SessionView<S::Model>;

    closed spec fn model(&self) -> SessionView<S::Model> {
        SessionView { inner: self.inner.model(), sessions: sessions_of(self.sessions@) }
    }

    closed spec fn wf(&self) -> bool {
        self.inner.wf()
    }

    open spec fn applied(model: SessionView<S::Model>) -> Index {
        S::applied(model.inner)
    }

    open spec fn takes_write(command: Seq<u8>) -> bool {
        match read_session(command) {
            Some(write) => S::takes_write(write.payload),
            None => S::takes_write(command),
        }
    }

    open spec fn takes_read(command: Seq<u8>) -> bool {
        S::takes_read(command)
    }

    open spec fn applying(model: SessionView<S::Model>, entry: EntryView) -> (
        SessionView<S::Model>,
        Outcome,
    ) {
        match entry.command {
            Some(command) => match read_session(command) {
                Some(write) => if model.sessions.contains_key(write.client_id) && write.seq
                    <= model.sessions[write.client_id].0 {
                    let (last, cached) = model.sessions[write.client_id];
                    let (inner, result) = S::applying(model.inner, blank(entry));
                    (
                        SessionView { inner, ..model },
                        match result {
                            Ok(_) => if write.seq == last {
                                Ok(cached)
                            } else {
                                Ok(seq![])
                            },
                            Err(e) => Err(e),
                        },
                    )
                } else {
                    let (inner, result) = S::applying(
                        model.inner,
                        unwrapped(entry, write.payload),
                    );
                    match result {
                        Ok(response) => (
                            SessionView {
                                inner,
                                sessions: model.sessions.insert(
                                    write.client_id,
                                    (write.seq, response),
                                ),
                            },
                            result,
                        ),
                        Err(_) => (SessionView { inner, ..model }, result),
                    }
                },
                None => {
                    let (inner, result) = S::applying(model.inner, entry);
                    (SessionView { inner, ..model }, result)
                },
            },
            None => {
                let (inner, result) = S::applying(model.inner, entry);
                (SessionView { inner, ..model }, result)
            },
        }
    }

    open spec fn reading(model: SessionView<S::Model>, command: Seq<u8>) -> Outcome {
        S::reading(model.inner, command)
    }

    open spec fn snapshotting(model: SessionView<S::Model>) -> Outcome {
        match S::snapshotting(model.inner) {
            Ok(snapshot) => Ok(byte_string(snapshot) + sessions_bytes(model.sessions)),
            Err(e) => Err(e),
        }
    }

    open spec fn restoring(
        model: SessionView<S::Model>,
        snapshot: Seq<u8>,
        index: Index,
    ) -> std::result::Result<SessionView<S::Model>, ErrorView> {
        match read_byte_string(snapshot) {
            Some((inner, rest)) => match read_sessions(rest) {
                Some(sessions) => match S::restoring(model.inner, inner, index) {
                    Ok(inner) => Ok(SessionView { inner, sessions }),
                    Err(e) => Err(e),
                },
                None => Err(ErrorView::InvalidData),
            },
            None => Err(ErrorView::InvalidData),
        }
    }

    proof fn applied_in_order(model: SessionView<S::Model>, entry: EntryView) {
        S::applied_in_order(model.inner, entry);
        S::applied_in_order(model.inner, blank(entry));
        if let Some(command) = entry.command {
            if let Some(write) = read_session(command) {
                S::applied_in_order(model.inner, unwrapped(entry, write.payload));
            }
        }
    }

    fn accepts_write(command: &[u8]) -> (r: bool) {
        match decode_session(command) {
            Some(write) => S::accepts_write(write.payload.as_slice()),
            None => S::accepts_write(command),
        }
    }

    fn accepts_read(command: &[u8]) -> (r: bool) {
        S::accepts_read(command)
    }

    fn get_applied_index(&self) -> (r: Index) {
        self.inner.get_applied_index()
    }

    /// Applies a write. A client's write that was applied is answered as it was,
    /// and one before it with nothing; neither is applied again.
    fn apply(&mut self, entry: Entry) -> (r: Result<Vec<u8>>) {
        let ghost start = self.model();
        let write = match &entry.command {
            Some(command) => decode_session(command.as_slice()),
            None => None,
        };
        let write = match write {
            Some(write) => write,
            None => {
                let r = self.inner.apply(entry);
                return r;
            },
        };
        let index = entry.index;
        let term = entry.term;
        let known = match self.sessions.get(&write.client_id) {
            Some(last) => if write.seq == last.0 {
                Some(last.1.clone())
            } else if write.seq < last.0 {
                Some(Vec::new())
            } else {
                None
            },
            None => None,
        };
        assert(sessions_of(self.sessions@).dom() =~= self.sessions@.dom());
        match known {
            Some(answer) => {
                let noop = Entry { index, term, command: None, membership: None };
                assert(noop@ == blank(entry@));
                match self.inner.apply(noop) {
                    Ok(_) => Ok(answer),
                    Err(e) => Err(e),
                }
            },
            None => {
                let ghost payload = write.payload@;
                let inner = Entry {
                    index,
                    term,
                    command: Some(write.payload),
                    membership: None,
                };
                assert(inner@ == unwrapped(entry@, payload));
                match self.inner.apply(inner) {
                    Ok(response) => {
                        let kept = response.clone();
                        assert(kept@ =~= response@);
                        self.sessions.insert(write.client_id, (write.seq, kept));
                        assert(sessions_of(self.sessions@) =~= start.sessions.insert(
                            write.client_id,
                            (write.seq, response@),
                        ));
                        Ok(response)
                    },
                    Err(e) => Err(e),
                }
            },
        }
    }

    fn read(&self, command: Vec<u8>) -> (r: Result<Vec<u8>>) {
        self.inner.read(command)
    }

    fn snapshot(&self) -> (r: Result<Vec<u8>>) {
        let inner = match self.inner.snapshot() {
            Ok(inner) => inner,
            Err(e) => return Err(e),
        };
        let mut out: Vec<u8> = Vec::new();
        put_bytes(&mut out, inner.as_slice());
        put_sessions(&mut out, &self.sessions);
        assert(out@ =~= byte_string(inner@) + sessions_bytes(sessions_of(self.sessions@)));
        Ok(out)
    }

    fn restore(&mut self, snapshot: &[u8], index: Index) -> (r: Result<()>) {
        let mut reader = Reader::new(snapshot);
        let inner = match reader.byte_string() {
            Ok(inner) => inner,
            Err(e) => return Err(e),
        };
        let sessions = match take_sessions(&mut reader) {
            Ok(sessions) => sessions,
            Err(e) => return Err(e),
        };
        match self.inner.restore(inner.as_slice(), index) {
            Ok(()) => {},
            Err(e) => return Err(e),
        }
        self.sessions = sessions;
        Ok(())
    }
}

/// A client's write takes effect at most once: once it was applied, the same
/// write is answered with the same response, and to the state machine it is an
/// entry without a command.
pub proof fn writes_take_effect_once<S: State>(
    model: SessionView<S::Model>,
    first: EntryView,
    again: EntryView,
    write: SessionCommandView,
)
    requires
        first.command matches Some(command) && read_session(command) == Some(write),
        again.command matches Some(command) && read_session(command) == Some(write),
        !model.sessions.contains_key(write.client_id) || model.sessions[write.client_id].0
            < write.seq,
    ensures
        ({
            let (once, response) = SessionState::<S>::applying(model, first);
            let (twice, second) = SessionState::<S>::applying(once, again);
            let (inner, noop) = S::applying(once.inner, blank(again));
            response is Ok ==> {
                &&& once.sessions == model.sessions.insert(
                    write.client_id,
                    (write.seq, response->Ok_0),
                )
                &&& twice == (SessionView { inner, ..once })
                &&& noop is Ok ==> second == response
            }
        }),
{
}

/// A client's write that is behind its last one is answered with nothing and not
/// applied, and the response to the last one is kept.
pub proof fn late_writes_are_dropped<S: State>(
    model: SessionView<S::Model>,
    entry: EntryView,
    write: SessionCommandView,
)
    requires
        entry.command matches Some(command) && read_session(command) == Some(write),
        model.sessions.contains_key(write.client_id),
        write.seq < model.sessions[write.client_id].0,
    ensures
        ({
            let (after, response) = SessionState::<S>::applying(model, entry);
            let (inner, noop) = S::applying(model.inner, blank(entry));
            &&& after == (SessionView { inner, ..model })
            &&& noop is Ok ==> response == Ok::<Seq<u8>, ErrorView>(seq![])
        }),
{
}

/// A client's write that is its first, or has a greater number than its last one, is
/// executed: it leaves the state machine just as its command does at that place in the log,
/// and is answered as the state machine answers it. If that worked it is the client's last
/// write from then on, with that answer. The other clients' last writes stay.
pub proof fn new_writes_are_executed<S: State>(
    model: SessionView<S::Model>,
    entry: EntryView,
    client_id: u128,
    seq: u64,
    payload: Seq<u8>,
)
    requires
        entry.command matches Some(command) && read_session(command) == Some(
            SessionCommandView { client_id, seq, payload },
        ),
        model.sessions.contains_key(client_id) ==> seq > model.sessions[client_id].0,
    ensures
        ({
            let plain = EntryView {
                index: entry.index,
                term: entry.term,
                command: Some(payload),
                membership: None,
            };
            let (inner, answer) = S::applying(model.inner, plain);
            let (after, response) = SessionState::<S>::applying(model, entry);
            &&& after.inner == inner
            &&& response == answer
            &&& answer matches Ok(data) ==> {
                &&& after.sessions.contains_key(client_id)
                &&& after.sessions[client_id] == (seq, data)
            }
            &&& answer is Err ==> after.sessions == model.sessions
            &&& forall|other: u128|
                other != client_id ==> (#[trigger] after.sessions.contains_key(other)
                    == model.sessions.contains_key(other)) && after.sessions[other]
                    == model.sessions[other]
        }),
{
}

/// What a client wraps is what is executed: the command of a write that a client numbers
/// and wraps for the log has the effect and the answer of the plain command, if the client
/// is new or the number greater than its last one.
pub proof fn wrapped_writes_act_like_plain_ones<S: State>(
    model: SessionView<S::Model>,
    client_id: u128,
    seq: u64,
    payload: Seq<u8>,
    index: Index,
    term: u64,
)
    requires
        payload.len() <= u64::MAX,
        model.sessions.contains_key(client_id) ==> seq > model.sessions[client_id].0,
    ensures
        ({
            let wrapped = EntryView {
                index,
                term,
                command: Some(session_command(client_id, seq, payload)),
                membership: None,
            };
            let plain = EntryView { index, term, command: Some(payload), membership: None };
            let (after, response) = SessionState::<S>::applying(model, wrapped);
            &&& after.inner == S::applying(model.inner, plain).0
            &&& response == S::applying(model.inner, plain).1
        }),
{
    session_round_trip(client_id, seq, payload);
    let wrapped = EntryView {
        index,
        term,
        command: Some(session_command(client_id, seq, payload)),
        membership: None,
    };
    new_writes_are_executed::<S>(model, wrapped, client_id, seq, payload);
}

/// A client's write with the number of its last one is not executed again: to the state
/// machine it is an entry without a command, and it is answered with the response that is
/// kept. The sessions stay.
pub proof fn repeated_writes_are_answered_alike<S: State>(
    model: SessionView<S::Model>,
    entry: EntryView,
    client_id: u128,
    payload: Seq<u8>,
)
    requires
        model.sessions.contains_key(client_id),
        entry.command matches Some(command) && read_session(command) == Some(
            SessionCommandView { client_id, seq: model.sessions[client_id].0, payload },
        ),
    ensures
        ({
            let nothing = EntryView {
                index: entry.index,
                term: entry.term,
                command: None,
                membership: None,
            };
            let (inner, noop) = S::applying(model.inner, nothing);
            let (after, response) = SessionState::<S>::applying(model, entry);
            &&& after.inner == inner
            &&& after.sessions == model.sessions
            &&& noop is Ok ==> response == Ok::<Seq<u8>, ErrorView>(model.sessions[client_id].1)
            &&& noop is Err ==> response == noop
        }),
{
}

/// An entry that is no client's numbered write is the state machine's own affair, and so
/// is every read.
pub proof fn other_commands_pass_through<S: State>(
    model: SessionView<S::Model>,
    entry: EntryView,
    query: Seq<u8>,
)
    ensures
        entry.command is None || (entry.command matches Some(command) && (command.len() < 4
            || command[0] != 0x53 || command[1] != 0x45 || command[2] != 0x53 || command[3]
            != 0x53 || read_session(command) is None)) ==> {
            let (inner, answer) = S::applying(model.inner, entry);
            let (after, response) = SessionState::<S>::applying(model, entry);
            &&& after.inner == inner
            &&& after.sessions == model.sessions
            &&& response == answer
        },
        SessionState::<S>::reading(model, query) == S::reading(model.inner, query),
        SessionState::<S>::applied(model) == S::applied(model.inner),
{
    if let Some(command) = entry.command {
        if command.len() >= 4 && command.take(4) == seq![0x53u8, 0x45, 0x53, 0x53] {
            assert(command.take(4)[0] == command[0] && command.take(4)[1] == command[1]
                && command.take(4)[2] == command[2] && command.take(4)[3] == command[3]);
        }
    }
}

/// A snapshot restores the sessions that it was taken of, along with the state
/// machine.
pub proof fn session_snapshot_restores<S: State>(
    model: SessionView<S::Model>,
    other: SessionView<S::Model>,
    index: Index,
)
    requires
        S::snapshotting(model.inner) is Ok,
        S::snapshotting(model.inner)->Ok_0.len() <= u64::MAX,
        sessions_fit(model.sessions),
    ensures
        ({
            let inner = S::snapshotting(model.inner)->Ok_0;
            let snapshot = SessionState::<S>::snapshotting(model);
            &&& snapshot is Ok
            &&& SessionState::<S>::restoring(other, snapshot->Ok_0, index) == match S::restoring(
                other.inner,
                inner,
                index,
            ) {
                Ok(restored) => Ok(SessionView { inner: restored, sessions: model.sessions }),
                Err(e) => Err(e),
            }
        }),
{
    byte_string_round_trip(S::snapshotting(model.inner)->Ok_0, sessions_bytes(model.sessions));
    sessions_round_trip(model.sessions);
}

} // verus!
