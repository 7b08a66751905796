//! An order-preserving encoding of keys: encoded keys compare as the keys do.
//!
//! - A `bool` is `0x00` or `0x01`.
//! - A `u64` is big-endian.
//! - An `i64` is big-endian with its sign bit flipped.
//! - An `f64` is big-endian with its sign bit flipped, and with the other bits
//!   flipped too if it is negative. It is given and taken as its bits.
//! - Bytes have `0x00` escaped as `0x00ff`, and end with `0x0000`.
//! - A text is its UTF-8 bytes.
//! - An enum is the index of its variant in one byte, followed by its contents.
//! - A sequence is its elements, one after the other.
//!
//! What is encoded does not say its type.

use vstd::prelude::*;
use vstd::slice::slice_subrange;
use vstd::utf8::{decode_utf8, encode_utf8, valid_utf8};

use super::bytes::{
    be_bytes, be_inverse, be_order, be_round_trip, be_value, from_be, lemma_byte_pow,
    lex_common_prefix, lex_lt, u64_to_be,
};
use crate::error::{Error, ErrorView, Result};

pub use crate::storage::engine::prefix_range;

verus! {

/// The encoding of a `bool`.
pub open spec fn bool_bytes(value: bool) -> Seq<u8> {
    seq![
        if value {
            1u8
        } else {
            0u8
        },
    ]
}

/// The encoding of a `u64`.
pub open spec fn u64_bytes(value: u64) -> Seq<u8> {
    be_bytes(value as nat, 8)
}

/// The encoding of an `i64`: flipping the sign bit adds half of the range.
pub open spec fn i64_bytes(value: i64) -> Seq<u8> {
    be_bytes((value + 0x8000_0000_0000_0000) as nat, 8)
}

/// The bits of an `f64`, flipped so that they compare as numbers do.
pub open spec fn float_rank(bits: u64) -> int {
    if bits < 0x8000_0000_0000_0000 {
        bits + 0x8000_0000_0000_0000
    } else {
        u64::MAX - bits
    }
}

/// The encoding of an `f64`, given its bits.
pub open spec fn f64_bytes(bits: u64) -> Seq<u8> {
    be_bytes(float_rank(bits) as nat, 8)
}

/// The encoding of bytes.
pub open spec fn escaped(data: Seq<u8>) -> Seq<u8>
    decreases data.len(),
{
    if data.len() == 0 {
        seq![0u8, 0]
    } else if data[0] == 0 {
        seq![0u8, 0xff] + escaped(data.skip(1))
    } else {
        seq![data[0]] + escaped(data.skip(1))
    }
}

/// Reads bytes off the front of an encoding.
pub open spec fn read_escaped(bytes: Seq<u8>) -> Option<(Seq<u8>, Seq<u8>)>
    decreases bytes.len(),
{
    if bytes.len() == 0 {
        None
    } else if bytes[0] != 0 {
        match read_escaped(bytes.skip(1)) {
            Some((data, rest)) => Some((seq![bytes[0]] + data, rest)),
            None => None,
        }
    } else if bytes.len() >= 2 && bytes[1] == 0 {
        Some((seq![], bytes.skip(2)))
    } else if bytes.len() >= 2 && bytes[1] == 0xff {
        match read_escaped(bytes.skip(2)) {
            Some((data, rest)) => Some((seq![0u8] + data, rest)),
            None => None,
        }
    } else {
        None
    }
}

/// The bytes written are the ones read back.
pub proof fn escaped_round_trip(data: Seq<u8>, rest: Seq<u8>)
    ensures
        read_escaped(escaped(data) + rest) == Some((data, rest)),
    decreases data.len(),
{
    let all = escaped(data) + rest;
    if data.len() == 0 {
        assert(all.skip(2) =~= rest);
        assert(data =~= seq![]);
    } else {
        let tail = data.skip(1);
        escaped_round_trip(tail, rest);
        assert(seq![data[0]] + tail =~= data);
        if data[0] == 0 {
            assert(all.skip(2) =~= escaped(tail) + rest);
        } else {
            assert(all.skip(1) =~= escaped(tail) + rest);
        }
    }
}

/// Encoded bytes compare as the bytes do, whatever follows them.
pub proof fn escaped_order(a: Seq<u8>, b: Seq<u8>, x: Seq<u8>, y: Seq<u8>)
    requires
        lex_lt(a, b),
    ensures
        lex_lt(escaped(a) + x, escaped(b) + y),
    decreases a.len(),
{
    let left = escaped(a) + x;
    let right = escaped(b) + y;
    reveal_with_fuel(lex_lt, 2);
    if a.len() == 0 {
        if b[0] == 0 {
            assert(left.skip(1)[0] == 0);
            assert(right.skip(1)[0] == 0xff);
        }
    } else if a[0] == b[0] {
        let c = escaped(a.skip(1)) + x;
        let d = escaped(b.skip(1)) + y;
        escaped_order(a.skip(1), b.skip(1), x, y);
        let prefix = if a[0] == 0 {
            seq![0u8, 0xff]
        } else {
            seq![a[0]]
        };
        lex_common_prefix(prefix, c, d);
        assert(left =~= prefix + c);
        assert(right =~= prefix + d);
    }
}

/// Encodings of one length compare the same, whatever follows them.
proof fn lemma_order_extends(a: Seq<u8>, b: Seq<u8>, x: Seq<u8>, y: Seq<u8>)
    requires
        a.len() == b.len(),
        lex_lt(a, b),
    ensures
        lex_lt(a + x, b + y),
    decreases a.len(),
{
    if a[0] == b[0] {
        lemma_order_extends(a.skip(1), b.skip(1), x, y);
        assert((a + x).skip(1) =~= a.skip(1) + x);
        assert((b + y).skip(1) =~= b.skip(1) + y);
    }
}

/// Encoded numbers compare as the numbers do, whatever follows them.
pub proof fn u64_order(a: u64, b: u64, x: Seq<u8>, y: Seq<u8>)
    requires
        a < b,
    ensures
        lex_lt(u64_bytes(a) + x, u64_bytes(b) + y),
{
    lemma_byte_pow();
    be_order(a as nat, b as nat, 8);
    be_round_trip(a as nat, 8);
    be_round_trip(b as nat, 8);
    lemma_order_extends(u64_bytes(a), u64_bytes(b), x, y);
}

/// Encoded signed numbers compare as the numbers do, negative ones included.
pub proof fn i64_order(a: i64, b: i64, x: Seq<u8>, y: Seq<u8>)
    requires
        a < b,
    ensures
        lex_lt(i64_bytes(a) + x, i64_bytes(b) + y),
{
    u64_order(
        (a + 0x8000_0000_0000_0000) as u64,
        (b + 0x8000_0000_0000_0000) as u64,
        x,
        y,
    );
}

/// Encoded floating-point numbers compare as their bits are ranked: negative ones
/// first, from the largest magnitude down, then the others by magnitude.
pub proof fn f64_order(a: u64, b: u64, x: Seq<u8>, y: Seq<u8>)
    requires
        float_rank(a) < float_rank(b),
    ensures
        lex_lt(f64_bytes(a) + x, f64_bytes(b) + y),
{
    u64_order(float_rank(a) as u64, float_rank(b) as u64, x, y);
}

/// Encoded floating-point numbers compare by their sign and magnitude: a negative one comes
/// before every other, of two negative ones the one of greater magnitude comes first, and of
/// two others the one of smaller magnitude. The bits below the sign are the magnitude.
pub proof fn f64_order_by_sign(a: u64, b: u64, x: Seq<u8>, y: Seq<u8>)
    requires
        a >= 0x8000_0000_0000_0000 ==> b < a,
        a < 0x8000_0000_0000_0000 ==> a < b < 0x8000_0000_0000_0000,
    ensures
        lex_lt(f64_bytes(a) + x, f64_bytes(b) + y),
{
    f64_order(a, b, x, y);
}

/// `false` comes before `true`.
pub proof fn bool_order(x: Seq<u8>, y: Seq<u8>)
    ensures
        lex_lt(bool_bytes(false) + x, bool_bytes(true) + y),
{
}

/// `String::from_utf8`: the text that the bytes encode, or nothing where they are
/// not UTF-8.
#[verifier::external_body]
fn text_of(bytes: Vec<u8>) -> (r: Option<String>)
    ensures
        match r {
            Some(text) => valid_utf8(bytes@) && text@ == decode_utf8(bytes@),
            None => !valid_utf8(bytes@),
        },
{
    String::from_utf8(bytes).ok()
}

/// Encodes keys.
pub struct Serializer {
    pub output: Vec<u8>,
}

impl Serializer {
    pub fn new() -> (r: Serializer)
        ensures
            r.output@ == Seq::<u8>::empty(),
    {
        Serializer { output: Vec::new() }
    }

    pub fn serialize_bool(&mut self, value: bool)
        ensures
            final(self).output@ == old(self).output@ + bool_bytes(value),
    {
        self.output.push(
            if value {
                1
            } else {
                0
            },
        );
        assert(self.output@ =~= old(self).output@ + bool_bytes(value));
    }

    pub fn serialize_i64(&mut self, value: i64)
        ensures
            final(self).output@ == old(self).output@ + i64_bytes(value),
    {
        let mut bytes = u64_to_be((value as i128 + 0x8000_0000_0000_0000) as u64);
        self.output.append(&mut bytes);
    }

    pub fn serialize_u64(&mut self, value: u64)
        ensures
            final(self).output@ == old(self).output@ + u64_bytes(value),
    {
        let mut bytes = u64_to_be(value);
        self.output.append(&mut bytes);
    }

    /// Appends an `f64`, given its bits.
    pub fn serialize_f64(&mut self, bits: u64)
        ensures
            final(self).output@ == old(self).output@ + f64_bytes(bits),
    {
        let rank = if bits < 0x8000_0000_0000_0000 {
            bits + 0x8000_0000_0000_0000
        } else {
            u64::MAX - bits
        };
        let mut bytes = u64_to_be(rank);
        self.output.append(&mut bytes);
    }

    pub fn serialize_str(&mut self, value: &str)
        ensures
            final(self).output@ == old(self).output@ + escaped(encode_utf8(value@)),
    {
        self.serialize_bytes(value.as_bytes());
    }

    pub fn serialize_bytes(&mut self, value: &[u8])
        ensures
            final(self).output@ == old(self).output@ + escaped(value@),
    {
        let mut i: usize = 0;
        assert(value@.skip(0) =~= value@);
        while i < value.len()
            invariant
                i <= value@.len(),
                self.output@ + escaped(value@.skip(i as int)) == old(self).output@ + escaped(
                    value@,
                ),
            decreases value@.len() - i,
        {
            let ghost before = self.output@;
            let ghost data = value@.skip(i as int);
            assert(data.skip(1) =~= value@.skip(i + 1));
            if value[i] == 0 {
                self.output.push(0);
                self.output.push(0xff);
            } else {
                self.output.push(value[i]);
            }
            assert(self.output@ + escaped(data.skip(1)) =~= before + escaped(data));
            i = i + 1;
        }
        let ghost before = self.output@;
        self.output.push(0);
        self.output.push(0);
        assert(self.output@ =~= before + escaped(value@.skip(i as int)));
    }

    /// Appends the index of an enum's variant, which has to fit into a byte.
    pub fn serialize_variant(&mut self, index: u32) -> (r: Result<()>)
        ensures
            match r {
                Ok(()) => index <= u8::MAX && final(self).output@ == old(self).output@.push(
                    index as u8,
                ),
                Err(e) => index > u8::MAX && e@ == ErrorView::InvalidData && *final(self) == *old(self),
            },
    {
        if index > 255 {
            return Err(Error::InvalidData("variant index out of range".to_string()));
        }
        self.output.push(index as u8);
        Ok(())
    }
}

/// Decodes keys.
pub struct Deserializer<'de> {
    pub input: &'de [u8],
}

impl<'de> Deserializer<'de> {
    pub fn from_bytes(input: &'de [u8]) -> (r: Deserializer<'de>)
        ensures
            r.input@ == input@,
    {
        Deserializer { input }
    }

    /// Takes the next `len` bytes.
    pub fn take_bytes(&mut self, len: usize) -> (r: Result<&'de [u8]>)
        ensures
            match r {
                Ok(bytes) => {
                    &&& len <= old(self).input@.len()
                    &&& bytes@ == old(self).input@.take(len as int)
                    &&& final(self).input@ == old(self).input@.skip(len as int)
                },
                Err(e) => {
                    &&& len > old(self).input@.len()
                    &&& e@ == ErrorView::InvalidData
                    &&& final(self).input@ == old(self).input@
                },
            },
    {
        let input = self.input;
        if input.len() < len {
            return Err(Error::InvalidData("insufficient bytes".to_string()));
        }
        let bytes = slice_subrange(input, 0, len);
        self.input = slice_subrange(input, len, input.len());
        assert(bytes@ =~= input@.take(len as int));
        assert(self.input@ =~= input@.skip(len as int));
        Ok(bytes)
    }

    /// Takes the next bytes, decoded.
    pub fn decode_next_bytes(&mut self) -> (r: Result<Vec<u8>>)
        ensures
            match r {
                Ok(data) => read_escaped(old(self).input@) == Some((data@, final(self).input@)),
                Err(e) => read_escaped(old(self).input@) is None && e@ == ErrorView::InvalidData
                    && final(self).input@ == old(self).input@,
            },
    {
        let input = self.input;
        let mut decoded: Vec<u8> = Vec::new();
        let mut i: usize = 0;
        assert(input@.skip(0) =~= input@);
        assert(following(decoded@, read_escaped(input@)) == read_escaped(input@)) by {
            if let Some((data, rest)) = read_escaped(input@) {
                assert(decoded@ + data =~= data);
            }
        }
        loop
            invariant
                i <= input@.len(),
                self.input == input,
                input == old(self).input,
                read_escaped(input@) == following(decoded@, read_escaped(input@.skip(i as int))),
            decreases input@.len() - i,
        {
            let ghost before = decoded@;
            let ghost left = input@.skip(i as int);
            if i >= input.len() {
                return Err(Error::InvalidData("unexpected end of input".to_string()));
            }
            if input[i] != 0 {
                decoded.push(input[i]);
                assert(left.skip(1) =~= input@.skip(i + 1));
                proof {
                    lemma_following(before, left[0], read_escaped(left.skip(1)));
                }
                i = i + 1;
            } else if i + 1 < input.len() && input[i + 1] == 0 {
                assert(left.skip(2) =~= input@.skip(i + 2));
                assert(before + seq![] =~= decoded@);
                self.input = slice_subrange(input, i + 2, input.len());
                return Ok(decoded);
            } else if i + 1 < input.len() && input[i + 1] == 0xff {
                decoded.push(0);
                assert(left.skip(2) =~= input@.skip(i + 2));
                proof {
                    lemma_following(before, 0, read_escaped(left.skip(2)));
                }
                i = i + 2;
            } else {
                return Err(Error::InvalidData("invalid escape sequence".to_string()));
            }
        }
    }

    pub fn deserialize_bool(&mut self) -> (r: Result<bool>)
        ensures
            match r {
                Ok(value) => old(self).input@.len() > 0 && old(self).input@[0] == bool_bytes(
                    value,
                )[0] && final(self).input@ == old(self).input@.skip(1),
                Err(e) => (old(self).input@.len() == 0 || old(self).input@[0] > 1) && e@
                    == ErrorView::InvalidData,
            },
    {
        match self.take_bytes(1) {
            Ok(bytes) => if bytes[0] == 0 {
                Ok(false)
            } else if bytes[0] == 1 {
                Ok(true)
            } else {
                Err(Error::InvalidData("invalid boolean value".to_string()))
            },
            Err(e) => Err(e),
        }
    }

    pub fn deserialize_u64(&mut self) -> (r: Result<u64>)
        ensures
            match r {
                Ok(value) => old(self).input@.len() >= 8 && old(self).input@.take(8) == u64_bytes(
                    value,
                ) && final(self).input@ == old(self).input@.skip(8),
                Err(e) => old(self).input@.len() < 8 && e@ == ErrorView::InvalidData,
            },
    {
        match self.take_bytes(8) {
            Ok(bytes) => {
                proof {
                    be_inverse(bytes@);
                    lemma_byte_pow();
                }
                Ok(from_be(bytes) as u64)
            },
            Err(e) => Err(e),
        }
    }

    pub fn deserialize_i64(&mut self) -> (r: Result<i64>)
        ensures
            match r {
                Ok(value) => old(self).input@.len() >= 8 && old(self).input@.take(8) == i64_bytes(
                    value,
                ) && final(self).input@ == old(self).input@.skip(8),
                Err(e) => old(self).input@.len() < 8 && e@ == ErrorView::InvalidData,
            },
    {
        match self.deserialize_u64() {
            Ok(shifted) => Ok((shifted as i128 - 0x8000_0000_0000_0000) as i64),
            Err(e) => Err(e),
        }
    }

    /// Reads an `f64` as its bits.
    pub fn deserialize_f64(&mut self) -> (r: Result<u64>)
        ensures
            match r {
                Ok(bits) => old(self).input@.len() >= 8 && old(self).input@.take(8) == f64_bytes(
                    bits,
                ) && final(self).input@ == old(self).input@.skip(8),
                Err(e) => old(self).input@.len() < 8 && e@ == ErrorView::InvalidData,
            },
    {
        match self.deserialize_u64() {
            Ok(rank) => Ok(
                if rank < 0x8000_0000_0000_0000 {
                    u64::MAX - rank
                } else {
                    rank - 0x8000_0000_0000_0000
                },
            ),
            Err(e) => Err(e),
        }
    }

    pub fn deserialize_bytes(&mut self) -> (r: Result<Vec<u8>>)
        ensures
            match r {
                Ok(data) => read_escaped(old(self).input@) == Some((data@, final(self).input@)),
                Err(e) => read_escaped(old(self).input@) is None && e@ == ErrorView::InvalidData,
            },
    {
        self.decode_next_bytes()
    }

    pub fn deserialize_string(&mut self) -> (r: Result<String>)
        ensures
            match r {
                Ok(text) => read_string(old(self).input@) == Some((text@, final(self).input@)),
                Err(e) => read_string(old(self).input@) is None && e@ == ErrorView::InvalidData,
            },
    {
        match self.decode_next_bytes() {
            Ok(bytes) => match text_of(bytes) {
                Some(text) => Ok(text),
                None => Err(Error::InvalidData("invalid utf-8 sequence".to_string())),
            },
            Err(e) => Err(e),
        }
    }

    /// Reads the index of an enum's variant.
    pub fn deserialize_variant(&mut self) -> (r: Result<u32>)
        ensures
            match r {
                Ok(index) => old(self).input@.len() > 0 && index == old(self).input@[0]
                    && final(self).input@ == old(self).input@.skip(1),
                Err(e) => old(self).input@.len() == 0 && e@ == ErrorView::InvalidData,
            },
    {
        match self.take_bytes(1) {
            Ok(bytes) => Ok(bytes[0] as u32),
            Err(e) => Err(e),
        }
    }

    /// Ends a key: nothing may follow it.
    pub fn finish(&self) -> (r: Result<()>)
        ensures
            match r {
                Ok(()) => self.input@.len() == 0,
                Err(e) => self.input@.len() > 0 && e@ == ErrorView::InvalidData,
            },
    {
        if self.input.len() == 0 {
            Ok(())
        } else {
            Err(Error::InvalidData("unexpected trailing bytes at end of key".to_string()))
        }
    }
}

/// Reads a text off the front of an encoding.
pub open spec fn read_string(bytes: Seq<u8>) -> Option<(Seq<char>, Seq<u8>)> {
    match read_escaped(bytes) {
        Some((data, rest)) => if valid_utf8(data) {
            Some((decode_utf8(data), rest))
        } else {
            None
        },
        None => None,
    }
}

/// The text written is the one read back.
pub proof fn string_round_trip(text: Seq<char>, rest: Seq<u8>)
    ensures
        read_string(escaped(encode_utf8(text)) + rest) == Some((text, rest)),
{
    escaped_round_trip(encode_utf8(text), rest);
    vstd::utf8::encode_utf8_valid_utf8(text);
    vstd::utf8::encode_utf8_decode_utf8(text);
}

/// What is read with `decoded` before it.
spec fn following(decoded: Seq<u8>, read: Option<(Seq<u8>, Seq<u8>)>) -> Option<
    (Seq<u8>, Seq<u8>),
> {
    match read {
        Some((data, rest)) => Some((decoded + data, rest)),
        None => None,
    }
}

proof fn lemma_following(decoded: Seq<u8>, byte: u8, read: Option<(Seq<u8>, Seq<u8>)>)
    ensures
        following(decoded.push(byte), read) == following(
            decoded,
            match read {
                Some((data, rest)) => Some((seq![byte] + data, rest)),
                None => None,
            },
        ),
{
    if let Some((data, rest)) = read {
        assert(decoded.push(byte) + data =~= decoded + (seq![byte] + data));
    }
}

/// A type of keys: it says how a key is encoded and read.
///
/// A composite key encodes its parts one after the other, an enum after the index
/// of its variant.
pub trait Key: View + Sized {
    /// The encoding of a key.
    spec fn coded(key: Self::V) -> Seq<u8>;

    /// The key at the front of an encoding and what follows it.
    spec fn reading(bytes: Seq<u8>) -> Option<(Self::V, Seq<u8>)>;

    /// The key written is the one read back.
    proof fn round_trip(key: Self::V, rest: Seq<u8>)
        ensures
            Self::reading(Self::coded(key) + rest) == Some((key, rest)),
    ;

    fn put(&self, out: &mut Serializer)
        ensures
            final(out).output@ == old(out).output@ + Self::coded(self@),
    ;

    fn take(input: &mut Deserializer) -> (r: Result<Self>)
        ensures
            match r {
                Ok(key) => Self::reading(old(input).input@) == Some((key@, final(input).input@)),
                Err(e) => Self::reading(old(input).input@) is None && e@ == ErrorView::InvalidData,
            },
    ;

    /// Encodes the key.
    fn encode(&self) -> (r: Vec<u8>)
        ensures
            r@ == Self::coded(self@),
    {
        let mut out = Serializer::new();
        self.put(&mut out);
        assert(out.output@ =~= Self::coded(self@));
        out.output
    }

    /// Decodes a key. Nothing may follow it.
    fn decode(bytes: &[u8]) -> (r: Result<Self>)
        ensures
            match r {
                Ok(key) => Self::reading(bytes@) == Some((key@, Seq::<u8>::empty())),
                Err(e) => e@ == ErrorView::InvalidData && !(Self::reading(bytes@) matches Some(
                    (_, rest),
                ) && rest.len() == 0),
            },
    {
        let mut deserializer = Deserializer::from_bytes(bytes);
        let key = match Self::take(&mut deserializer) {
            Ok(key) => key,
            Err(e) => return Err(e),
        };
        match deserializer.finish() {
            Ok(()) => {
                assert(deserializer.input@ =~= Seq::<u8>::empty());
                Ok(key)
            },
            Err(e) => Err(e),
        }
    }
}

/// Encodes a key.
pub fn serialize<T: Key>(key: &T) -> (r: Vec<u8>)
    ensures
        r@ == T::coded(key@),
{
    key.encode()
}

/// Decodes a key. Nothing may follow it.
pub fn deserialize<T: Key>(input: &[u8]) -> (r: Result<T>)
    ensures
        match r {
            Ok(key) => T::reading(input@) == Some((key@, Seq::<u8>::empty())),
            Err(e) => e@ == ErrorView::InvalidData && !(T::reading(input@) matches Some((_, rest))
                && rest.len() == 0),
        },
{
    T::decode(input)
}

impl Key for bool {
    open spec fn coded(key: bool) -> Seq<u8> {
        bool_bytes(key)
    }

    open spec fn reading(bytes: Seq<u8>) -> Option<(bool, Seq<u8>)> {
        if bytes.len() > 0 && bytes[0] <= 1 {
            Some((bytes[0] == 1, bytes.skip(1)))
        } else {
            None
        }
    }

    proof fn round_trip(key: bool, rest: Seq<u8>) {
        assert((bool_bytes(key) + rest).skip(1) =~= rest);
    }

    fn put(&self, out: &mut Serializer) {
        out.serialize_bool(*self);
    }

    fn take(input: &mut Deserializer) -> (r: Result<bool>) {
        input.deserialize_bool()
    }
}

impl Key for u64 {
    open spec fn coded(key: u64) -> Seq<u8> {
        u64_bytes(key)
    }

    open spec fn reading(bytes: Seq<u8>) -> Option<(u64, Seq<u8>)> {
        if bytes.len() >= 8 {
            Some((be_value(bytes.take(8)) as u64, bytes.skip(8)))
        } else {
            None
        }
    }

    proof fn round_trip(key: u64, rest: Seq<u8>) {
        lemma_byte_pow();
        be_round_trip(key as nat, 8);
        assert((u64_bytes(key) + rest).take(8) =~= u64_bytes(key));
        assert((u64_bytes(key) + rest).skip(8) =~= rest);
    }

    fn put(&self, out: &mut Serializer) {
        out.serialize_u64(*self);
    }

    fn take(input: &mut Deserializer) -> (r: Result<u64>) {
        let r = input.deserialize_u64();
        proof {
            if let Ok(key) = r {
                lemma_byte_pow();
                be_round_trip(key as nat, 8);
            }
        }
        r
    }
}

impl Key for i64 {
    open spec fn coded(key: i64) -> Seq<u8> {
        i64_bytes(key)
    }

    open spec fn reading(bytes: Seq<u8>) -> Option<(i64, Seq<u8>)> {
        if bytes.len() >= 8 {
            Some(((be_value(bytes.take(8)) - 0x8000_0000_0000_0000) as i64, bytes.skip(8)))
        } else {
            None
        }
    }

    proof fn round_trip(key: i64, rest: Seq<u8>) {
        let shifted = (key + 0x8000_0000_0000_0000) as u64;
        <u64 as Key>::round_trip(shifted, rest);
        assert(i64_bytes(key) == u64_bytes(shifted));
        lemma_byte_pow();
        be_round_trip(shifted as nat, 8);
        assert((u64_bytes(shifted) + rest).take(8) =~= u64_bytes(shifted));
    }

    fn put(&self, out: &mut Serializer) {
        out.serialize_i64(*self);
    }

    fn take(input: &mut Deserializer) -> (r: Result<i64>) {
        let r = input.deserialize_i64();
        proof {
            if let Ok(key) = r {
                lemma_byte_pow();
                be_round_trip((key + 0x8000_0000_0000_0000) as nat, 8);
            }
        }
        r
    }
}

impl Key for Vec<u8> {
    open spec fn coded(key: Seq<u8>) -> Seq<u8> {
        escaped(key)
    }

    open spec fn reading(bytes: Seq<u8>) -> Option<(Seq<u8>, Seq<u8>)> {
        read_escaped(bytes)
    }

    proof fn round_trip(key: Seq<u8>, rest: Seq<u8>) {
        escaped_round_trip(key, rest);
    }

    fn put(&self, out: &mut Serializer) {
        out.serialize_bytes(self.as_slice());
    }

    fn take(input: &mut Deserializer) -> (r: Result<Vec<u8>>) {
        input.deserialize_bytes()
    }
}

impl Key for String {
    open spec fn coded(key: Seq<char>) -> Seq<u8> {
        escaped(encode_utf8(key))
    }

    open spec fn reading(bytes: Seq<u8>) -> Option<(Seq<char>, Seq<u8>)> {
        read_string(bytes)
    }

    proof fn round_trip(key: Seq<char>, rest: Seq<u8>) {
        string_round_trip(key, rest);
    }

    fn put(&self, out: &mut Serializer) {
        out.serialize_str(self.as_str());
    }

    fn take(input: &mut Deserializer) -> (r: Result<String>) {
        input.deserialize_string()
    }
}

} // verus!
