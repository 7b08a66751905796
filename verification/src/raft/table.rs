//! Maps from text to text, and how they are encoded.

use vstd::prelude::*;
use vstd::utf8::encode_utf8;

use crate::encoding::bincode::{
    put_text, put_u64, read_text, read_varint, text, text_round_trip, varint, varint_round_trip,
    Reader,
};
use crate::encoding::bytes::{chain2, chain3, lex_ascending_unique, lex_lt};
use crate::error::{ErrorView, Result};
use crate::storage::sorted::{Lexical, SortedMap};

verus! {

/// A map from text to text, in the order of the keys' bytes.
pub type Table = SortedMap<String, String>;

/// The value of each key.
pub open spec fn texts(table: Table) -> Map<Seq<char>, Seq<char>> {
    Map::new(
        |key: Seq<char>| table.map().contains_key(encode_utf8(key)),
        |key: Seq<char>| table.map()[encode_utf8(key)]@,
    )
}

/// Whether keys ascend by their bytes.
pub open spec fn in_key_order(keys: Seq<Seq<char>>) -> bool {
    forall|i: int, j: int|
        0 <= i < j < keys.len() ==> lex_lt(
            encode_utf8(#[trigger] keys[i]),
            encode_utf8(#[trigger] keys[j]),
        )
}

/// The keys of a map in order.
pub open spec fn listing(data: Map<Seq<char>, Seq<char>>) -> Seq<Seq<char>> {
    choose|keys: Seq<Seq<char>>| #[trigger] in_key_order(keys) && keys.to_set() == data.dom()
}

/// The keys as they stand in a table.
pub open spec fn keys_of(table: Table) -> Seq<Seq<char>> {
    table.items@.map_values(|item: (String, String)| item.0@)
}

/// Texts with the same bytes are the same.
pub proof fn lemma_same_text(a: Seq<char>, b: Seq<char>)
    requires
        encode_utf8(a) == encode_utf8(b),
    ensures
        a == b,
{
    vstd::utf8::encode_utf8_decode_utf8(a);
    vstd::utf8::encode_utf8_decode_utf8(b);
}

/// The keys of a table stand in the order of the listing, each with its value.
pub proof fn lemma_listing(table: Table)
    requires
        table.wf(),
    ensures
        listing(texts(table)) == keys_of(table),
        in_key_order(keys_of(table)),
        keys_of(table).to_set() == texts(table).dom(),
        forall|i: int|
            0 <= i < table.items@.len() ==> texts(table).contains_key(
                (#[trigger] table.items@[i]).0@,
            ) && texts(table)[table.items@[i].0@] == table.items@[i].1@,
{
    let keys = keys_of(table);
    let data = texts(table);
    assert forall|i: int| 0 <= i < table.items@.len() implies data.contains_key(
        (#[trigger] table.items@[i]).0@,
    ) && data[table.items@[i].0@] == table.items@[i].1@ by {
        table.lemma_at(i);
    }
    assert(in_key_order(keys)) by {
        assert forall|i: int, j: int| 0 <= i < j < keys.len() implies lex_lt(
            encode_utf8(#[trigger] keys[i]),
            encode_utf8(#[trigger] keys[j]),
        ) by {
            assert(lex_lt(table.key(i), table.key(j)));
        }
    }
    assert(keys.to_set() =~= data.dom()) by {
        assert forall|key: Seq<char>| #[trigger] keys.to_set().contains(key)
            == data.dom().contains(key) by {
            if keys.to_set().contains(key) {
                let i = choose|i: int| 0 <= i < keys.len() && keys[i] == key;
                assert(table.items@[i].0@ == key);
            }
            if data.dom().contains(key) {
                let i = table.at(encode_utf8(key));
                assert(table.holds(encode_utf8(key)));
                assert(table.key(i) == encode_utf8(key));
                lemma_same_text(table.items@[i].0@, key);
                assert(keys[i] == key);
            }
        }
    }
    lemma_listing_unique(listing(data), keys);
}

proof fn lemma_listing_unique(a: Seq<Seq<char>>, b: Seq<Seq<char>>)
    requires
        in_key_order(a),
        in_key_order(b),
        a.to_set() == b.to_set(),
    ensures
        a == b,
{
    let c = a.map_values(|key: Seq<char>| encode_utf8(key));
    let d = b.map_values(|key: Seq<char>| encode_utf8(key));
    assert forall|i: int, j: int| 0 <= i < j < c.len() implies lex_lt(
        #[trigger] c[i],
        #[trigger] c[j],
    ) by {
        assert(lex_lt(encode_utf8(a[i]), encode_utf8(a[j])));
    }
    assert forall|i: int, j: int| 0 <= i < j < d.len() implies lex_lt(
        #[trigger] d[i],
        #[trigger] d[j],
    ) by {
        assert(lex_lt(encode_utf8(b[i]), encode_utf8(b[j])));
    }
    assert forall|i: int| 0 <= i < c.len() implies d.contains(#[trigger] c[i]) by {
        assert(a.to_set().contains(a[i]));
        assert(b.to_set().contains(a[i]));
        let j = choose|j: int| 0 <= j < b.len() && b[j] == a[i];
        assert(d[j] == c[i]);
    }
    assert forall|i: int| 0 <= i < d.len() implies c.contains(#[trigger] d[i]) by {
        assert(b.to_set().contains(b[i]));
        assert(a.to_set().contains(b[i]));
        let j = choose|j: int| 0 <= j < a.len() && a[j] == b[i];
        assert(c[j] == d[i]);
    }
    lex_ascending_unique(c, d);
    assert forall|i: int| 0 <= i < a.len() implies a[i] == b[i] by {
        assert(c[i] == d[i]);
        lemma_same_text(a[i], b[i]);
    }
    assert(a =~= b);
}

/// Setting a key in a table sets it in its map.
pub proof fn lemma_inserted(before: Table, after: Table, key: Seq<char>, value: String)
    requires
        after.map() == before.map().insert(encode_utf8(key), value),
    ensures
        texts(after) == texts(before).insert(key, value@),
{
    assert forall|k: Seq<char>| #[trigger] texts(after).contains_key(k) == texts(before).insert(
        key,
        value@,
    ).contains_key(k) && (texts(after).contains_key(k) ==> texts(after)[k] == texts(before).insert(
        key,
        value@,
    )[k]) by {
        if encode_utf8(k) == encode_utf8(key) {
            lemma_same_text(k, key);
        }
    }
    assert(texts(after) =~= texts(before).insert(key, value@));
}

// The encoding.

/// The given keys, each followed by its value.
pub open spec fn pairs_bytes(keys: Seq<Seq<char>>, data: Map<Seq<char>, Seq<char>>) -> Seq<u8>
    decreases keys.len(),
{
    if keys.len() == 0 {
        seq![]
    } else {
        text(keys[0]) + text(data[keys[0]]) + pairs_bytes(keys.skip(1), data)
    }
}

/// A map: the number of its keys, then the keys in order with their values.
pub open spec fn table_bytes(data: Map<Seq<char>, Seq<char>>) -> Seq<u8> {
    varint(listing(data).len()) + pairs_bytes(listing(data), data)
}

/// Reads `n` keys with their values into `data`; a key read again gets the later
/// value.
pub open spec fn read_pairs(
    bytes: Seq<u8>,
    n: nat,
    data: Map<Seq<char>, Seq<char>>,
) -> Option<(Map<Seq<char>, Seq<char>>, Seq<u8>)>
    decreases n,
{
    if n == 0 {
        Some((data, bytes))
    } else {
        match read_text(bytes) {
            Some((key, rest)) => match read_text(rest) {
                Some((value, rest)) => read_pairs(
                    rest,
                    (n - 1) as nat,
                    data.insert(key, value),
                ),
                None => None,
            },
            None => None,
        }
    }
}

/// Reads a map off the front of `bytes`.
pub open spec fn read_table(bytes: Seq<u8>) -> Option<(Map<Seq<char>, Seq<char>>, Seq<u8>)> {
    match read_varint(bytes, 8) {
        Some((n, rest)) => read_pairs(rest, n, Map::empty()),
        None => None,
    }
}

proof fn lemma_pairs_push(keys: Seq<Seq<char>>, key: Seq<char>, data: Map<Seq<char>, Seq<char>>)
    ensures
        pairs_bytes(keys.push(key), data) == pairs_bytes(keys, data) + text(key) + text(data[key]),
    decreases keys.len(),
{
    let all = keys.push(key);
    reveal_with_fuel(pairs_bytes, 2);
    if keys.len() == 0 {
        assert(all.skip(1) =~= seq![]);
        assert(pairs_bytes(all, data) =~= text(key) + text(data[key]));
        assert(pairs_bytes(keys, data) + text(key) + text(data[key]) =~= text(key) + text(
            data[key],
        ));
    } else {
        lemma_pairs_push(keys.skip(1), key, data);
        assert(all.skip(1) =~= keys.skip(1).push(key));
        assert(pairs_bytes(all, data) =~= pairs_bytes(keys, data) + text(key) + text(data[key]));
    }
}

/// Whether the lengths in a map fit their encoding, as they do for every map that
/// fits into memory.
pub open spec fn table_fits(data: Map<Seq<char>, Seq<char>>) -> bool {
    &&& listing(data).len() <= u64::MAX
    &&& forall|key: Seq<char>| #[trigger]
        data.contains_key(key) ==> encode_utf8(key).len() <= u64::MAX && encode_utf8(
            data[key],
        ).len() <= u64::MAX
}

/// `before` with the given keys set as in `data`.
spec fn filled(
    keys: Seq<Seq<char>>,
    data: Map<Seq<char>, Seq<char>>,
    before: Map<Seq<char>, Seq<char>>,
) -> Map<Seq<char>, Seq<char>>
    decreases keys.len(),
{
    if keys.len() == 0 {
        before
    } else {
        filled(keys.skip(1), data, before.insert(keys[0], data[keys[0]]))
    }
}

proof fn lemma_filled(
    keys: Seq<Seq<char>>,
    data: Map<Seq<char>, Seq<char>>,
    before: Map<Seq<char>, Seq<char>>,
    key: Seq<char>,
)
    ensures
        ({
            let after = filled(keys, data, before);
            if keys.contains(key) {
                after.contains_key(key) && after[key] == data[key]
            } else {
                after.contains_key(key) == before.contains_key(key) && after[key] == before[key]
            }
        }),
    decreases keys.len(),
{
    if keys.len() > 0 {
        let tail = keys.skip(1);
        lemma_filled(tail, data, before.insert(keys[0], data[keys[0]]), key);
        if keys.contains(key) {
            let i = choose|i: int| 0 <= i < keys.len() && keys[i] == key;
            if i > 0 {
                assert(tail[i - 1] == key);
            }
        } else {
            assert(key != keys[0]);
            if tail.contains(key) {
                let i = choose|i: int| 0 <= i < tail.len() && tail[i] == key;
                assert(keys[i + 1] == key);
            }
        }
    }
}

proof fn lemma_read_pairs(
    keys: Seq<Seq<char>>,
    data: Map<Seq<char>, Seq<char>>,
    rest: Seq<u8>,
    before: Map<Seq<char>, Seq<char>>,
)
    requires
        forall|i: int|
            0 <= i < keys.len() ==> encode_utf8(#[trigger] keys[i]).len() <= u64::MAX
                && encode_utf8(data[keys[i]]).len() <= u64::MAX,
    ensures
        read_pairs(pairs_bytes(keys, data) + rest, keys.len(), before) == Some(
            (filled(keys, data, before), rest),
        ),
    decreases keys.len(),
{
    if keys.len() == 0 {
        assert(pairs_bytes(keys, data) + rest =~= rest);
    } else {
        let key = keys[0];
        let tail = keys.skip(1);
        let more = pairs_bytes(tail, data) + rest;
        text_round_trip(key, text(data[key]) + more);
        text_round_trip(data[key], more);
        chain3(text(key), text(data[key]), pairs_bytes(tail, data), rest);
        assert forall|i: int| 0 <= i < tail.len() implies encode_utf8(#[trigger] tail[i]).len()
            <= u64::MAX && encode_utf8(data[tail[i]]).len() <= u64::MAX by {
            assert(tail[i] == keys[i + 1]);
        }
        lemma_read_pairs(tail, data, rest, before.insert(key, data[key]));
    }
}

/// The map written is the one read back.
pub proof fn table_round_trip(data: Map<Seq<char>, Seq<char>>, rest: Seq<u8>)
    requires
        in_key_order(listing(data)),
        listing(data).to_set() == data.dom(),
        table_fits(data),
    ensures
        read_table(table_bytes(data) + rest) == Some((data, rest)),
{
    let keys = listing(data);
    let pairs = pairs_bytes(keys, data);
    varint_round_trip(keys.len(), pairs + rest, 8);
    chain2(varint(keys.len()), pairs, rest);
    assert forall|i: int| 0 <= i < keys.len() implies encode_utf8(#[trigger] keys[i]).len()
        <= u64::MAX && encode_utf8(data[keys[i]]).len() <= u64::MAX by {
        assert(keys.to_set().contains(keys[i]));
        assert(data.contains_key(keys[i]));
    }
    lemma_read_pairs(keys, data, rest, Map::empty());
    let after = filled(keys, data, Map::empty());
    assert forall|key: Seq<char>| #[trigger] after.contains_key(key) == data.contains_key(key) && (
    after.contains_key(key) ==> after[key] == data[key]) by {
        lemma_filled(keys, data, Map::empty(), key);
        assert(keys.contains(key) == keys.to_set().contains(key));
    }
    assert(after =~= data);
}

/// Appends a map.
pub fn put_table(out: &mut Vec<u8>, table: &Table)
    requires
        table.wf(),
    ensures
        final(out)@ == old(out)@ + table_bytes(texts(*table)),
{
    let ghost keys = keys_of(*table);
    let ghost data = texts(*table);
    let ghost start = out@;
    proof {
        lemma_listing(*table);
        assert(keys.take(0) =~= seq![]);
    }
    put_u64(out, table.items.len() as u64);
    let mut i: usize = 0;
    while i < table.items.len()
        invariant
            i <= table.items@.len(),
            keys == keys_of(*table),
            data == texts(*table),
            forall|k: int|
                0 <= k < table.items@.len() ==> data[(#[trigger] table.items@[k]).0@]
                    == table.items@[k].1@,
            out@ == start + varint(keys.len()) + pairs_bytes(keys.take(i as int), data),
        decreases table.items@.len() - i,
    {
        put_text(out, table.items[i].0.as_str());
        put_text(out, table.items[i].1.as_str());
        proof {
            let done = keys.take(i as int);
            lemma_pairs_push(done, keys[i as int], data);
            assert(keys.take(i + 1) =~= done.push(keys[i as int]));
            assert(data[table.items@[i as int].0@] == table.items@[i as int].1@);
            assert(out@ =~= start + varint(keys.len()) + pairs_bytes(keys.take(i + 1), data));
        }
        i = i + 1;
    }
    assert(keys.take(i as int) =~= keys);
    assert(out@ =~= start + table_bytes(data));
}

/// Reads a map.
pub fn take_table(reader: &mut Reader) -> (r: Result<Table>)
    requires
        old(reader).wf(),
    ensures
        final(reader).wf(),
        match r {
            Ok(table) => table.wf() && read_table(old(reader).rest()) == Some(
                (texts(table), final(reader).rest()),
            ),
            Err(e) => read_table(old(reader).rest()) is None && e@ == ErrorView::InvalidData,
        },
{
    let ghost start = reader.rest();
    let n = match reader.u64() {
        Ok(n) => n,
        Err(e) => return Err(e),
    };
    let mut table: Table = SortedMap::new();
    assert(texts(table) =~= Map::empty());
    let mut left: u64 = n;
    while left > 0
        invariant
            reader.wf(),
            table.wf(),
            start == old(reader).rest(),
            read_table(start) == read_pairs(reader.rest(), left as nat, texts(table)),
        decreases left,
    {
        let ghost before = table;
        let key = match reader.text() {
            Ok(key) => key,
            Err(e) => return Err(e),
        };
        let value = match reader.text() {
            Ok(value) => value,
            Err(e) => return Err(e),
        };
        let ghost chars = key@;
        table.insert(key, value);
        proof {
            lemma_inserted(before, table, chars, value);
        }
        left = left - 1;
    }
    Ok(table)
}

} // verus!
