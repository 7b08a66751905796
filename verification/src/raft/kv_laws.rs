//! What clients of the key-value store read of what clients wrote, whichever nodes of
//! the cluster took their requests.

use vstd::prelude::*;
use vstd::utf8::encode_utf8;

use super::entry::EntryView;
use super::ids::NodeID;
use super::kv::{
    lemma_listed, pairs_text, read_command, read_response, response_bytes, response_round_trip,
    snapshot_restores, CommandView, Kv, KvView, ResponseView as KvResponseView,
};
use super::message::{EnvelopeView, MessageView, RequestID, RequestView, ResponseView};
use super::model::{applying_committed, got, opened, Options, Ticks};
use super::restart::{moves_on, puts_move_the_store_on, replay};
use super::safety::{
    follows_record, is_followed, is_read_through, is_record, is_run, reads_give_what_was_committed,
    states_of, World,
};
use super::session::{session_command, session_round_trip, SessionState};
use super::state::State;
use super::table::table_fits;
use super::world_states::{asks_on, leads_back};
use crate::error::{ErrorView, Result};
use crate::storage::engine::StatusView;

verus! {

/// The value that the last of these entries that sets a key gives it.
pub open spec fn last_put(entries: Seq<EntryView>, key: Seq<char>) -> Option<Seq<char>>
    decreases entries.len(),
{
    if entries.len() == 0 {
        None
    } else {
        match entries.last().command {
            Some(command) => match read_command(command) {
                Some(CommandView::Put { key: other, value }) if other == key => Some(value),
                _ => last_put(entries.drop_last(), key),
            },
            None => last_put(entries.drop_last(), key),
        }
    }
}

/// Whether an entry sets a key.
pub open spec fn puts(entry: EntryView, key: Seq<char>) -> bool {
    entry.command matches Some(command) && read_command(command) matches Some(
        CommandView::Put { key: other, .. },
    ) && other == key
}

/// Applying entries to an empty store leaves every key with the value that was last put.
pub proof fn stores_hold_what_was_put(init: KvView, entries: Seq<EntryView>, key: Seq<char>)
    requires
        init.data == Map::<Seq<char>, Seq<char>>::empty(),
    ensures
        ({
            let data = replay::<Kv>(init, entries).data;
            last_put(entries, key) == if data.contains_key(key) {
                Some(data[key])
            } else {
                None
            }
        }),
    decreases entries.len(),
{
    if entries.len() > 0 {
        stores_hold_what_was_put(init, entries.drop_last(), key);
    }
}

/// A key that one of the entries sets has a value.
pub proof fn puts_stay(entries: Seq<EntryView>, k: int, key: Seq<char>)
    requires
        0 <= k < entries.len(),
        puts(entries[k], key),
    ensures
        last_put(entries, key) is Some,
    decreases entries.len(),
{
    if k < entries.len() - 1 {
        puts_stay(entries.drop_last(), k, key);
    }
}

/// Whether a store that can be written down as a snapshot holds this.
pub open spec fn is_stored(model: KvView) -> bool {
    exists|store: Kv| #[trigger] store.wf() && store@ == model && table_fits(model.data)
}

/// Whether a client's request, if it is a write, sets a key.
pub open spec fn asks_to_put(message: MessageView) -> bool {
    message matches MessageView::ClientRequest { request, .. } ==> match request {
        RequestView::Write(command) => read_command(command) matches Some(CommandView::Put { .. }),
        RequestView::WriteSession { client_id, seq, command } => read_command(
            session_command(client_id, seq, command),
        ) matches Some(CommandView::Put { .. }),
        _ => true,
    }
}

/// Whether only values are put into stores that can be written down, from one moment
/// to the next.
pub open spec fn only_puts(w: World<Kv>, next: World<Kv>) -> bool {
    &&& forall|
        msg: EnvelopeView,
        timeout: Ticks,
        storage: std::result::Result<StatusView, ErrorView>,
    | #[trigger]
        w.receives(next, msg, timeout, storage) ==> asks_to_put(msg.message)
    &&& forall|id: NodeID, peers: Set<NodeID>, state: KvView, opts: Options, timeout: Ticks|
        #[trigger]
        w.restarts(next, id, peers, state, opts, timeout) ==> is_stored(
            applying_committed(
                opened::<Kv>(id, peers, w.nodes[id].base().log, state, opts),
            ).state,
        )
}

/// Stores can be followed through a run in which clients only put values and get them.
pub proof fn stores_are_followed(run: Seq<World<Kv>>)
    requires
        run.len() > 0,
        run[0].init.applied == 0,
        forall|id: NodeID, state: KvView| #[trigger]
            states_of(run).contains((id, state)) ==> is_stored(state),
        forall|m: int| 0 <= m < run.len() - 1 ==> only_puts(#[trigger] run[m], run[m + 1]),
    ensures
        is_followed(run),
{
    let init = run[0].init;
    assert forall|id: NodeID, state: KvView| #[trigger]
        states_of(run).contains((id, state)) implies leads_back::<Kv>(init, state) by {
        lemma_leads_back(init, state);
    }
    assert forall|m: int| 0 <= m < run.len() - 1 implies (#[trigger] run[m]).follows(
        run[m + 1],
    ) by {
        let w = run[m];
        let next = run[m + 1];
        assert(only_puts(w, next));
        assert forall|
            msg: EnvelopeView,
            timeout: Ticks,
            storage: std::result::Result<StatusView, ErrorView>,
        | #[trigger]
            w.receives(next, msg, timeout, storage) implies asks_on::<Kv>(msg.message) by {
            assert forall|entry: EntryView|
                entry.membership is None && (entry.command matches Some(command) && read_command(
                    command,
                ) matches Some(CommandView::Put { .. })) implies #[trigger] moves_on::<Kv>(
                entry,
            ) by {
                puts_move_the_store_on(entry);
            }
        }
        assert forall|id: NodeID, peers: Set<NodeID>, state: KvView, opts: Options, timeout: Ticks|
            #[trigger]
            w.restarts(next, id, peers, state, opts, timeout) implies w.starts_back(
            id,
            peers,
            state,
            opts,
        ) by {
            let log = w.nodes[id].base().log;
            lemma_leads_back(
                w.init,
                applying_committed(opened::<Kv>(id, peers, log, state, opts)).state,
            );
        }
    }
}

proof fn lemma_leads_back(init: KvView, state: KvView)
    requires
        is_stored(state),
    ensures
        leads_back::<Kv>(init, state),
{
    let store = choose|store: Kv| #[trigger]
        store.wf() && store@ == state && table_fits(state.data);
    let data = Kv::snapshotting(state)->Ok_0;
    assert forall|index: u64| 0 < index <= Kv::applied(state) implies #[trigger] Kv::restoring(
        init,
        data,
        index,
    ) == Ok::<KvView, ErrorView>(state) by {
        snapshot_restores(store, init, index);
    }
}

/// A get from a store that entries led to gives the value that was last put.
pub proof fn gets_give_the_last_put(
    init: KvView,
    entries: Seq<EntryView>,
    command: Seq<u8>,
    key: Seq<char>,
)
    requires
        init.data == Map::<Seq<char>, Seq<char>>::empty(),
        read_command(command) == Some(CommandView::Get { key }),
    ensures
        got(Kv::reading(replay::<Kv>(init, entries), command)) == Ok::<ResponseView, ErrorView>(
            ResponseView::Read(response_bytes(KvResponseView::Get(last_put(entries, key)))),
        ),
{
    stores_hold_what_was_put(init, entries, key);
}

/// Every key that the entries set, with the value that was last put.
pub open spec fn last_puts(entries: Seq<EntryView>) -> Map<Seq<char>, Seq<char>> {
    Map::new(
        |key: Seq<char>| last_put(entries, key) is Some,
        |key: Seq<char>| last_put(entries, key)->0,
    )
}

/// A key has a value exactly if one of the entries sets it.
pub proof fn values_were_put(entries: Seq<EntryView>, key: Seq<char>)
    ensures
        last_put(entries, key) is Some <==> exists|k: int|
            0 <= k < entries.len() && puts(#[trigger] entries[k], key),
    decreases entries.len(),
{
    if entries.len() > 0 {
        values_were_put(entries.drop_last(), key);
        if last_put(entries, key) is Some && !puts(entries.last(), key) {
            let k = choose|k: int|
                0 <= k < entries.len() - 1 && puts(#[trigger] entries.drop_last()[k], key);
            assert(puts(entries[k], key));
        }
        if puts(entries.last(), key) {
            assert(puts(entries[entries.len() - 1], key));
        }
        if exists|k: int| 0 <= k < entries.len() && puts(#[trigger] entries[k], key) {
            let k = choose|k: int| 0 <= k < entries.len() && puts(#[trigger] entries[k], key);
            puts_stay(entries, k, key);
        }
    }
}

/// A scan of a store that entries led to gives every key that one of the entries set, with
/// the value that was last put, and no other, however many they are.
pub proof fn scans_give_every_put(init: KvView, entries: Seq<EntryView>, command: Seq<u8>)
    requires
        init.data == Map::<Seq<char>, Seq<char>>::empty(),
        read_command(command) == Some(CommandView::Scan),
    ensures
        got(Kv::reading(replay::<Kv>(init, entries), command)) == Ok::<ResponseView, ErrorView>(
            ResponseView::Read(response_bytes(KvResponseView::Scan(last_puts(entries)))),
        ),
        forall|key: Seq<char>| #[trigger]
            last_puts(entries).contains_key(key) <==> exists|k: int|
                0 <= k < entries.len() && puts(#[trigger] entries[k], key),
{
    let data = replay::<Kv>(init, entries).data;
    assert forall|key: Seq<char>|
        data.contains_key(key) == #[trigger] last_puts(entries).contains_key(key) && (
        data.contains_key(key) ==> data[key] == last_puts(entries)[key]) by {
        stores_hold_what_was_put(init, entries, key);
    }
    assert(data =~= last_puts(entries));
    assert forall|key: Seq<char>| #[trigger]
        last_puts(entries).contains_key(key) <==> exists|k: int|
            0 <= k < entries.len() && puts(#[trigger] entries[k], key) by {
        values_were_put(entries, key);
    }
}

/// A scan and a get agree on every key, whatever the store holds: what a client reads back
/// from a scan has a key exactly if a get of it gives a value, and with that value.
pub proof fn scans_agree_with_gets(
    store: Kv,
    scan: Vec<u8>,
    get: Vec<u8>,
    key: Seq<char>,
    all: Result<Vec<u8>>,
    one: Result<Vec<u8>>,
) -> (table: Map<Seq<char>, Seq<char>>)
    requires
        store.wf(),
        table_fits(store@.data),
        read_command(scan@) == Some(CommandView::Scan),
        read_command(get@) == Some(CommandView::Get { key }),
        store@.data.contains_key(key) ==> encode_utf8(store@.data[key]).len() <= u64::MAX,
        call_ensures(<Kv as State>::read, (&store, scan), all),
        call_ensures(<Kv as State>::read, (&store, get), one),
    ensures
        all matches Ok(bytes) && read_response(bytes@) == Some(KvResponseView::Scan(table)),
        one matches Ok(bytes) && read_response(bytes@) == Some(
            KvResponseView::Get(
                if table.contains_key(key) {
                    Some(table[key])
                } else {
                    None
                },
            ),
        ),
        table == store@.data,
{
    let data = store@.data;
    lemma_listed(store);
    let every = response_bytes(KvResponseView::Scan(data));
    response_round_trip(KvResponseView::Scan(data), seq![]);
    assert(every + seq![] =~= every);
    let value = if data.contains_key(key) {
        Some(data[key])
    } else {
        None
    };
    response_round_trip(KvResponseView::Get(value), seq![]);
    assert(response_bytes(KvResponseView::Get(value)) + seq![] =~= response_bytes(
        KvResponseView::Get(value),
    ));
    data
}

/// The text of a table has every key in it, with its value behind it, at the start or after
/// a comma.
pub proof fn texts_list_every_pair(
    keys: Seq<Seq<char>>,
    data: Map<Seq<char>, Seq<char>>,
    k: int,
) -> (at: int)
    requires
        0 <= k < keys.len(),
    ensures
        ({
            let text = pairs_text(keys, data);
            let pair = keys[k] + "="@ + data[keys[k]];
            &&& 0 <= at <= at + pair.len() <= text.len()
            &&& text.subrange(at, at + pair.len()) == pair
            &&& if k == 0 {
                at == 0
            } else {
                at > 0 && text[at - 1] == ','
            }
            &&& k == keys.len() - 1 ==> at + pair.len() == text.len()
        }),
    decreases keys.len(),
{
    reveal_strlit(",");
    let text = pairs_text(keys, data);
    let pair = keys[k] + "="@ + data[keys[k]];
    let front = if keys.len() == 1 {
        seq![]
    } else {
        pairs_text(keys.drop_last(), data) + ","@
    };
    if k == keys.len() - 1 {
        assert(text =~= front + pair);
        assert(text.subrange(front.len() as int, text.len() as int) =~= pair);
        front.len() as int
    } else {
        let at = texts_list_every_pair(keys.drop_last(), data, k);
        let before = pairs_text(keys.drop_last(), data);
        assert(keys.drop_last()[k] == keys[k]);
        assert(text.subrange(at, at + pair.len()) =~= before.subrange(at, at + pair.len()));
        assert(at > 0 ==> text[at - 1] == before[at - 1]);
        at
    }
}

/// A store takes every put as a write and every get and scan as a read, and a client's
/// numbered put as a write too.
pub proof fn stores_take_their_commands(
    command: Seq<u8>,
    key: Seq<char>,
    value: Seq<char>,
    client_id: u128,
    seq: u64,
)
    ensures
        read_command(command) == Some(CommandView::Put { key, value }) ==> Kv::takes_write(command)
            && (command.len() <= u64::MAX ==> SessionState::<Kv>::takes_write(
            session_command(client_id, seq, command),
        )),
        read_command(command) == Some(CommandView::Get { key }) || read_command(command) == Some(
            CommandView::Scan,
        ) ==> Kv::takes_read(command) && SessionState::<Kv>::takes_read(command),
{
    if command.len() <= u64::MAX {
        session_round_trip(client_id, seq, command);
    }
}

/// What is no put cannot be written, and a put cannot be read: either is answered with an
/// error, and the store is as it was.
pub proof fn wrong_commands_are_refused(model: KvView, entry: EntryView, command: Seq<u8>)
    requires
        entry.command == Some(command),
    ensures
        !(read_command(command) matches Some(CommandView::Put { .. })) ==> Kv::applying(
            model,
            entry,
        ) == (model, Err::<Seq<u8>, ErrorView>(ErrorView::InvalidData)),
        (read_command(command) is None || (read_command(command) matches Some(
            CommandView::Put { .. },
        ))) ==> Kv::reading(model, command) == Err::<Seq<u8>, ErrorView>(ErrorView::InvalidData),
{
}

/// What a node has committed is in the record.
proof fn lemma_committed_put(
    run: Seq<World<Kv>>,
    all: Seq<EntryView>,
    p: int,
    b: NodeID,
    index: int,
)
    requires
        is_record(run, all),
        0 <= p < run.len(),
        run[p].nodes.contains_key(b),
        index <= run[p].nodes[b].base().log.commit_index,
        run[p].nodes[b].base().log.holds(index),
    ensures
        index <= all.len(),
        all[index - 1] == run[p].nodes[b].base().log.at(index),
{
    assert(follows_record::<Kv>(run[0].init, run[p].nodes[b].base(), all));
}

/// What a read gives back of a write: when a leader is asked for a key that an entry
/// sets which some node had committed by then, and the read no longer waits while the
/// leader is still in office in its term, then the leader has answered with the value
/// that was last put among the first `n` entries that the cluster committed, where that
/// entry is one of these.
#[verifier::spinoff_prover]
pub proof fn gets_see_puts(
    run: Seq<World<Kv>>,
    all: Seq<EntryView>,
    p: int,
    b: NodeID,
    index: int,
    i: int,
    msg: EnvelopeView,
    id: RequestID,
    command: Seq<u8>,
    key: Seq<char>,
    j: int,
) -> (n: nat)
    requires
        is_run(run),
        is_record(run, all),
        run[0].init.data == Map::<Seq<char>, Seq<char>>::empty(),
        0 <= p <= i < run.len(),
        run[p].nodes.contains_key(b),
        ({
            let log = run[p].nodes[b].base().log;
            &&& 1 <= index <= log.commit_index
            &&& log.holds(index)
            &&& puts(log.at(index), key)
        }),
        is_read_through(run, i, msg, id, command, j),
        read_command(command) == Some(CommandView::Get { key }),
    ensures
        index <= n <= all.len(),
        all[index - 1] == run[p].nodes[b].base().log.at(index),
        last_put(all.take(n as int), key) is Some,
        run[j].sent.contains(
            EnvelopeView {
                from: msg.to,
                term: msg.term,
                to: msg.from,
                message: MessageView::ClientResponse {
                    id,
                    response: Ok(
                        ResponseView::Read(
                            response_bytes(
                                KvResponseView::Get(last_put(all.take(n as int), key)),
                            ),
                        ),
                    ),
                },
            },
        ),
{
    let n = reads_give_what_was_committed(run, all, i, msg, id, command, j);
    lemma_committed_put(run, all, p, b, index);
    puts_stay(all.take(n as int), index - 1, key);
    gets_give_the_last_put(run[0].init, all.take(n as int), command, key);
    n
}

/// What a scan gives back of a write: when a leader is asked for everything, after some node
/// had committed an entry that sets a key, and the read no longer waits while the leader is
/// still in office in its term, then the leader has answered with every key that the first
/// `n` entries that the cluster committed set, each with the value that was last put, where
/// that entry is one of these.
#[verifier::spinoff_prover]
pub proof fn scans_see_puts(
    run: Seq<World<Kv>>,
    all: Seq<EntryView>,
    p: int,
    b: NodeID,
    index: int,
    i: int,
    msg: EnvelopeView,
    id: RequestID,
    command: Seq<u8>,
    key: Seq<char>,
    j: int,
) -> (n: nat)
    requires
        is_run(run),
        is_record(run, all),
        run[0].init.data == Map::<Seq<char>, Seq<char>>::empty(),
        0 <= p <= i < run.len(),
        run[p].nodes.contains_key(b),
        ({
            let log = run[p].nodes[b].base().log;
            &&& 1 <= index <= log.commit_index
            &&& log.holds(index)
            &&& puts(log.at(index), key)
        }),
        is_read_through(run, i, msg, id, command, j),
        read_command(command) == Some(CommandView::Scan),
    ensures
        index <= n <= all.len(),
        last_puts(all.take(n as int)).contains_key(key),
        run[j].sent.contains(
            EnvelopeView {
                from: msg.to,
                term: msg.term,
                to: msg.from,
                message: MessageView::ClientResponse {
                    id,
                    response: Ok(
                        ResponseView::Read(
                            response_bytes(KvResponseView::Scan(last_puts(all.take(n as int)))),
                        ),
                    ),
                },
            },
        ),
{
    let n = reads_give_what_was_committed(run, all, i, msg, id, command, j);
    lemma_committed_put(run, all, p, b, index);
    puts_stay(all.take(n as int), index - 1, key);
    scans_give_every_put(run[0].init, all.take(n as int), command);
    n
}

} // verus!
