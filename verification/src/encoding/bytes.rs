//! Fixed-width integers as bytes, and the lexicographic order of byte strings.

use vstd::prelude::*;

verus! {

/// The number that little-endian `bytes` stand for.
pub open spec fn le_value(bytes: Seq<u8>) -> nat
    decreases bytes.len(),
{
    if bytes.len() == 0 {
        0
    } else {
        bytes[0] as nat + 256 * le_value(bytes.skip(1))
    }
}

/// The `width` low bytes of `value`, least significant first.
pub open spec fn le_bytes(value: nat, width: nat) -> Seq<u8>
    decreases width,
{
    if width == 0 {
        seq![]
    } else {
        seq![(value % 256) as u8] + le_bytes(value / 256, (width - 1) as nat)
    }
}

/// The number that big-endian `bytes` stand for.
pub open spec fn be_value(bytes: Seq<u8>) -> nat
    decreases bytes.len(),
{
    if bytes.len() == 0 {
        0
    } else {
        be_value(bytes.drop_last()) * 256 + bytes.last() as nat
    }
}

/// The `width` low bytes of `value`, most significant first.
pub open spec fn be_bytes(value: nat, width: nat) -> Seq<u8>
    decreases width,
{
    if width == 0 {
        seq![]
    } else {
        be_bytes(value / 256, (width - 1) as nat).push((value % 256) as u8)
    }
}

/// `256` to the power `width`.
pub open spec fn byte_pow(width: nat) -> nat
    decreases width,
{
    if width == 0 {
        1
    } else {
        256 * byte_pow((width - 1) as nat)
    }
}

/// `a` comes strictly before `b` in the lexicographic order of byte strings.
pub open spec fn lex_lt(a: Seq<u8>, b: Seq<u8>) -> bool
    decreases a.len(),
{
    if b.len() == 0 {
        false
    } else if a.len() == 0 {
        true
    } else if a[0] != b[0] {
        a[0] < b[0]
    } else {
        lex_lt(a.skip(1), b.skip(1))
    }
}

/// `a` comes before `b` or equals it.
pub open spec fn lex_le(a: Seq<u8>, b: Seq<u8>) -> bool {
    a == b || lex_lt(a, b)
}

/// Reading back `width` little-endian bytes gives the number written.
pub proof fn le_round_trip(value: nat, width: nat)
    requires
        value < byte_pow(width),
    ensures
        le_bytes(value, width).len() == width,
        le_value(le_bytes(value, width)) == value,
    decreases width,
{
    if width > 0 {
        let tail = le_bytes(value / 256, (width - 1) as nat);
        assert(value / 256 < byte_pow((width - 1) as nat));
        le_round_trip(value / 256, (width - 1) as nat);
        assert(le_bytes(value, width).skip(1) =~= tail);
    }
}

/// Reading back `width` big-endian bytes gives the number written.
pub proof fn be_round_trip(value: nat, width: nat)
    requires
        value < byte_pow(width),
    ensures
        be_bytes(value, width).len() == width,
        be_value(be_bytes(value, width)) == value,
    decreases width,
{
    if width > 0 {
        let head = be_bytes(value / 256, (width - 1) as nat);
        assert(value / 256 < byte_pow((width - 1) as nat));
        be_round_trip(value / 256, (width - 1) as nat);
        assert(be_bytes(value, width).drop_last() =~= head);
    }
}

pub proof fn lemma_byte_pow()
    ensures
        byte_pow(1) == 0x100,
        byte_pow(2) == 0x1_0000,
        byte_pow(4) == 0x1_0000_0000,
        byte_pow(8) == 0x1_0000_0000_0000_0000,
        byte_pow(16) == 0x1_0000_0000_0000_0000_0000_0000_0000_0000,
{
    reveal_with_fuel(byte_pow, 17);
}

/// Comparing after a common prefix is comparing what follows it.
pub proof fn lex_common_prefix(prefix: Seq<u8>, a: Seq<u8>, b: Seq<u8>)
    ensures
        lex_lt(prefix + a, prefix + b) == lex_lt(a, b),
    decreases prefix.len(),
{
    if prefix.len() == 0 {
        assert(prefix + a =~= a);
        assert(prefix + b =~= b);
    } else {
        assert((prefix + a).skip(1) =~= prefix.skip(1) + a);
        assert((prefix + b).skip(1) =~= prefix.skip(1) + b);
        lex_common_prefix(prefix.skip(1), a, b);
    }
}

/// The lexicographic order is irreflexive.
pub proof fn lex_irreflexive(a: Seq<u8>)
    ensures
        !lex_lt(a, a),
    decreases a.len(),
{
    if a.len() > 0 {
        lex_irreflexive(a.skip(1));
    }
}

/// The lexicographic order is transitive.
pub proof fn lex_transitive(a: Seq<u8>, b: Seq<u8>, c: Seq<u8>)
    requires
        lex_lt(a, b),
        lex_lt(b, c),
    ensures
        lex_lt(a, c),
    decreases a.len(),
{
    if a.len() > 0 && a[0] == b[0] && b[0] == c[0] {
        lex_transitive(a.skip(1), b.skip(1), c.skip(1));
    }
}

/// Any two byte strings are comparable.
pub proof fn lex_total(a: Seq<u8>, b: Seq<u8>)
    ensures
        lex_lt(a, b) || a == b || lex_lt(b, a),
    decreases a.len(),
{
    if a.len() == 0 {
        if b.len() == 0 {
            assert(a =~= b);
        }
    } else if b.len() > 0 && a[0] == b[0] {
        lex_total(a.skip(1), b.skip(1));
        if a.skip(1) == b.skip(1) {
            assert(a =~= seq![a[0]] + a.skip(1));
            assert(b =~= seq![b[0]] + b.skip(1));
        }
    }
}

/// Appending one byte each to strings of equal length keeps the order of the
/// strings and breaks ties by the byte.
proof fn lex_push(a: Seq<u8>, b: Seq<u8>, x: u8, y: u8)
    requires
        a.len() == b.len(),
    ensures
        lex_lt(a.push(x), b.push(y)) == (lex_lt(a, b) || (a == b && x < y)),
    decreases a.len(),
{
    reveal_with_fuel(lex_lt, 2);
    if a.len() == 0 {
        assert(a =~= b);
        assert(a.push(x).skip(1) =~= seq![]);
        assert(b.push(y).skip(1) =~= seq![]);
    } else {
        assert(a.push(x).skip(1) =~= a.skip(1).push(x));
        assert(b.push(y).skip(1) =~= b.skip(1).push(y));
        lex_push(a.skip(1), b.skip(1), x, y);
        if a[0] == b[0] && a.skip(1) == b.skip(1) {
            assert(a =~= seq![a[0]] + a.skip(1));
            assert(b =~= seq![b[0]] + b.skip(1));
            assert(a == b);
        }
    }
}

/// Big-endian bytes of equal width sort as the numbers do.
pub proof fn be_order(a: nat, b: nat, width: nat)
    requires
        a < byte_pow(width),
        b < byte_pow(width),
    ensures
        lex_lt(be_bytes(a, width), be_bytes(b, width)) == (a < b),
        be_bytes(a, width) == be_bytes(b, width) <==> a == b,
    decreases width,
{
    be_round_trip(a, width);
    be_round_trip(b, width);
    if width > 0 {
        let w = (width - 1) as nat;
        assert(a / 256 < byte_pow(w) && b / 256 < byte_pow(w));
        be_order(a / 256, b / 256, w);
        be_round_trip(a / 256, w);
        be_round_trip(b / 256, w);
        lex_push(be_bytes(a / 256, w), be_bytes(b / 256, w), (a % 256) as u8, (b % 256) as u8);
    }
}

/// Big-endian bytes are those of the number that they stand for.
pub proof fn be_inverse(bytes: Seq<u8>)
    ensures
        be_value(bytes) < byte_pow(bytes.len()),
        be_bytes(be_value(bytes), bytes.len()) == bytes,
    decreases bytes.len(),
{
    if bytes.len() > 0 {
        let head = bytes.drop_last();
        be_inverse(head);
        let value = be_value(bytes);
        assert(value / 256 == be_value(head));
        assert(value % 256 == bytes.last());
        assert(be_bytes(value, bytes.len()) == head.push(bytes.last()));
        assert(head.push(bytes.last()) =~= bytes);
    } else {
        assert(be_bytes(0, 0) =~= bytes);
    }
}

/// Two strictly ascending sequences of the same byte strings are equal.
pub proof fn lex_ascending_unique(a: Seq<Seq<u8>>, b: Seq<Seq<u8>>)
    requires
        forall|i: int, j: int| 0 <= i < j < a.len() ==> lex_lt(#[trigger] a[i], #[trigger] a[j]),
        forall|i: int, j: int| 0 <= i < j < b.len() ==> lex_lt(#[trigger] b[i], #[trigger] b[j]),
        forall|i: int| 0 <= i < a.len() ==> b.contains(#[trigger] a[i]),
        forall|i: int| 0 <= i < b.len() ==> a.contains(#[trigger] b[i]),
    ensures
        a == b,
    decreases a.len(),
{
    if a.len() == 0 {
        if b.len() > 0 {
            assert(a.contains(b[0]));
        }
        assert(a =~= b);
    } else {
        assert(b.contains(a[0]));
        let i = choose|i: int| 0 <= i < b.len() && b[i] == a[0];
        assert(a.contains(b[0]));
        let j = choose|j: int| 0 <= j < a.len() && a[j] == b[0];
        if i > 0 && j > 0 {
            assert(lex_lt(b[0], b[i]));
            assert(lex_lt(a[0], a[j]));
            lex_transitive(a[0], b[0], a[0]);
            lex_irreflexive(a[0]);
        }
        assert(a[0] == b[0]);
        let c = a.skip(1);
        let d = b.skip(1);
        assert forall|k: int| 0 <= k < c.len() implies d.contains(#[trigger] c[k]) by {
            assert(b.contains(a[k + 1]));
            let m = choose|m: int| 0 <= m < b.len() && b[m] == a[k + 1];
            if m == 0 {
                assert(lex_lt(a[0], a[k + 1]));
                lex_irreflexive(a[0]);
            }
            assert(d[m - 1] == c[k]);
        }
        assert forall|k: int| 0 <= k < d.len() implies c.contains(#[trigger] d[k]) by {
            assert(a.contains(b[k + 1]));
            let m = choose|m: int| 0 <= m < a.len() && a[m] == b[k + 1];
            if m == 0 {
                assert(lex_lt(b[0], b[k + 1]));
                lex_irreflexive(b[0]);
            }
            assert(c[m - 1] == d[k]);
        }
        lex_ascending_unique(c, d);
        assert(a =~= seq![a[0]] + c);
        assert(b =~= seq![b[0]] + d);
    }
}

/// The `width` low bytes of `value`, most significant first.
pub fn to_be(value: u128, width: usize) -> (r: Vec<u8>)
    ensures
        r@ == be_bytes(value as nat, width as nat),
{
    let mut low: Vec<u8> = Vec::new();
    let mut rest: u128 = value;
    let mut i: usize = 0;
    while i < width
        invariant
            i <= width,
            low@.len() == i,
            be_bytes(value as nat, width as nat) == be_bytes(rest as nat, (width - i) as nat)
                + low@.reverse(),
        decreases width - i,
    {
        let ghost before = low@;
        low.push((rest % 256) as u8);
        assert(low@.reverse() =~= seq![(rest % 256) as u8] + before.reverse());
        assert(be_bytes(rest as nat, (width - i) as nat) + before.reverse() =~= be_bytes(
            (rest / 256) as nat,
            (width - i - 1) as nat,
        ) + low@.reverse());
        rest = rest / 256;
        i = i + 1;
    }
    assert(be_bytes(rest as nat, 0) =~= seq![]);
    let mut out: Vec<u8> = Vec::new();
    let mut j: usize = width;
    while j > 0
        invariant
            j <= width,
            low@.len() == width,
            out@ =~= low@.reverse().take(width - j),
        decreases j,
    {
        j = j - 1;
        out.push(low[j]);
    }
    assert(out@ =~= low@.reverse());
    out
}

/// `value` as eight big-endian bytes.
pub fn u64_to_be(value: u64) -> (r: Vec<u8>)
    ensures
        r@ == be_bytes(value as nat, 8),
{
    to_be(value as u128, 8)
}

/// The number that at most sixteen big-endian bytes stand for.
pub fn from_be(bytes: &[u8]) -> (r: u128)
    requires
        bytes@.len() <= 16,
    ensures
        r == be_value(bytes@),
{
    let mut value: u128 = 0;
    let mut i: usize = 0;
    assert(bytes@.take(0) =~= seq![]);
    while i < bytes.len()
        invariant
            i <= bytes@.len() <= 16,
            value == be_value(bytes@.take(i as int)),
        decreases bytes@.len() - i,
    {
        assert(bytes@.take(i + 1).drop_last() =~= bytes@.take(i as int));
        proof {
            be_inverse(bytes@.take(i + 1));
            lemma_byte_pow();
            lemma_byte_pow_monotone((i + 1) as nat, 16);
        }
        value = value * 256 + bytes[i] as u128;
        i = i + 1;
    }
    assert(bytes@.take(i as int) =~= bytes@);
    value
}

proof fn lemma_byte_pow_monotone(a: nat, b: nat)
    requires
        a <= b,
    ensures
        byte_pow(a) <= byte_pow(b),
    decreases b - a,
{
    if a < b {
        lemma_byte_pow_monotone(a + 1, b);
        assert(byte_pow(a + 1) == 256 * byte_pow(a));
    }
}

/// The `width` low bytes of `value`, least significant first.
pub fn to_le(value: u64, width: usize) -> (r: Vec<u8>)
    requires
        width <= 8,
    ensures
        r@ == le_bytes(value as nat, width as nat),
{
    let mut out: Vec<u8> = Vec::new();
    let mut left: u64 = value;
    let mut i: usize = 0;
    assert(out@ + le_bytes(value as nat, width as nat) =~= le_bytes(value as nat, width as nat));
    while i < width
        invariant
            i <= width,
            out@ + le_bytes(left as nat, (width - i) as nat) == le_bytes(
                value as nat,
                width as nat,
            ),
        decreases width - i,
    {
        let ghost before = out@;
        let ghost tail = le_bytes(left as nat / 256, (width - i - 1) as nat);
        out.push((left % 256) as u8);
        assert(out@ + tail =~= before + le_bytes(left as nat, (width - i) as nat));
        left = left / 256;
        i = i + 1;
    }
    assert(out@ =~= le_bytes(value as nat, width as nat));
    out
}

/// The number that at most eight little-endian bytes stand for.
pub fn from_le(bytes: &[u8]) -> (r: u64)
    requires
        bytes@.len() <= 8,
    ensures
        r == le_value(bytes@),
{
    let mut value: u64 = 0;
    let mut i: usize = bytes.len();
    assert(bytes@.skip(i as int) =~= seq![]);
    while i > 0
        invariant
            i <= bytes@.len() <= 8,
            value == le_value(bytes@.skip(i as int)),
        decreases i,
    {
        i = i - 1;
        assert(bytes@.skip(i as int).skip(1) =~= bytes@.skip(i + 1));
        proof {
            lemma_le_bound(bytes@.skip(i as int));
            lemma_byte_pow();
            lemma_byte_pow_monotone((bytes@.len() - i) as nat, 8);
        }
        value = value * 256 + bytes[i] as u64;
    }
    assert(bytes@.skip(0) =~= bytes@);
    value
}

proof fn lemma_le_bound(bytes: Seq<u8>)
    ensures
        le_value(bytes) < byte_pow(bytes.len()),
    decreases bytes.len(),
{
    if bytes.len() > 0 {
        lemma_le_bound(bytes.skip(1));
    }
}

/// Concatenation is associative.
pub proof fn chain2(a: Seq<u8>, b: Seq<u8>, c: Seq<u8>)
    ensures
        a + b + c == a + (b + c),
{
    assert(a + b + c =~= a + (b + c));
}

/// The same for four byte strings.
pub proof fn chain3(a: Seq<u8>, b: Seq<u8>, c: Seq<u8>, d: Seq<u8>)
    ensures
        a + b + c + d == a + (b + (c + d)),
{
    assert(a + b + c + d =~= a + (b + (c + d)));
}

/// The same for five byte strings.
pub proof fn chain4(a: Seq<u8>, b: Seq<u8>, c: Seq<u8>, d: Seq<u8>, e: Seq<u8>)
    ensures
        a + b + c + d + e == a + (b + (c + (d + e))),
{
    assert(a + b + c + d + e =~= a + (b + (c + (d + e))));
}

} // verus!
