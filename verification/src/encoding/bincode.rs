//! Values in the `bincode` encoding with its standard configuration.
//!
//! Integers wider than a byte are variable-length: up to 250 they are the byte
//! itself, above that a marker byte 251, 252 or 253 followed by two, four or
//! eight little-endian bytes. A byte string or a text is its length followed by
//! its bytes. Composite values are the concatenation of their parts.

use vstd::prelude::*;
use vstd::slice::slice_subrange;
use vstd::utf8::{decode_utf8, encode_utf8, valid_utf8};

use super::bytes::{le_bytes, le_round_trip, le_value, lemma_byte_pow};
use crate::error::{Error, ErrorView, Result};
use crate::text::{decimal, decimal_text};

verus! {

/// The decoder's own error type.
#[verifier::external_type_specification]
#[verifier::external_body]
pub struct ExDecodeError(bincode::error::DecodeError);

/// The variable-length encoding of an unsigned integer of at most 64 bits.
pub open spec fn varint(value: nat) -> Seq<u8> {
    if value <= 250 {
        seq![value as u8]
    } else if value <= 0xffff {
        seq![251u8] + le_bytes(value, 2)
    } else if value <= 0xffff_ffff {
        seq![252u8] + le_bytes(value, 4)
    } else {
        seq![253u8] + le_bytes(value, 8)
    }
}

/// Reads a variable-length integer of at most `width` bytes off the front of
/// `bytes`: the value and what follows it, or nothing where `bytes` is too short
/// or starts with a marker that the width does not admit.
pub open spec fn read_varint(bytes: Seq<u8>, width: nat) -> Option<(nat, Seq<u8>)> {
    if bytes.len() == 0 {
        None
    } else if bytes[0] <= 250 {
        Some((bytes[0] as nat, bytes.skip(1)))
    } else if bytes[0] == 251 && bytes.len() >= 3 {
        Some((le_value(bytes.subrange(1, 3)), bytes.skip(3)))
    } else if bytes[0] == 252 && bytes.len() >= 5 {
        Some((le_value(bytes.subrange(1, 5)), bytes.skip(5)))
    } else if bytes[0] == 253 && width >= 8 && bytes.len() >= 9 {
        Some((le_value(bytes.subrange(1, 9)), bytes.skip(9)))
    } else {
        None
    }
}

/// A byte string: its length, then its bytes.
pub open spec fn byte_string(data: Seq<u8>) -> Seq<u8> {
    varint(data.len()) + data
}

/// Reads a byte string off the front of `bytes`.
pub open spec fn read_byte_string(bytes: Seq<u8>) -> Option<(Seq<u8>, Seq<u8>)> {
    match read_varint(bytes, 8) {
        Some((len, rest)) => if len <= rest.len() {
            Some((rest.take(len as int), rest.skip(len as int)))
        } else {
            None
        },
        None => None,
    }
}

/// A text: the length of its UTF-8 bytes, then those bytes.
pub open spec fn text(chars: Seq<char>) -> Seq<u8> {
    byte_string(encode_utf8(chars))
}

/// Reads a text off the front of `bytes`.
pub open spec fn read_text(bytes: Seq<u8>) -> Option<(Seq<char>, Seq<u8>)> {
    match read_byte_string(bytes) {
        Some((data, rest)) => if valid_utf8(data) {
            Some((decode_utf8(data), rest))
        } else {
            None
        },
        None => None,
    }
}

/// `bincode::serde::encode_to_vec` on a `u64` with the standard configuration:
/// the variable-length encoding of the value. Writing an integer to a vector
/// cannot fail.
#[verifier::external_body]
fn encode_u64(value: u64) -> (r: Vec<u8>)
    ensures
        r@ == varint(value as nat),
{
    bincode::serde::encode_to_vec(value, bincode::config::standard()).expect("integers encode")
}

/// `bincode::serde::decode_from_slice` to a `u64` with the standard
/// configuration: the value at the front of the slice and the number of bytes
/// that it takes, or an error where none is there.
#[verifier::external_body]
fn decode_u64(bytes: &[u8]) -> (r: std::result::Result<(u64, usize), bincode::error::DecodeError>)
    ensures
        match r {
            Ok((value, used)) => used <= bytes@.len() && read_varint(bytes@, 8) == Some(
                (value as nat, bytes@.skip(used as int)),
            ),
            Err(_) => read_varint(bytes@, 8) is None,
        },
{
    bincode::serde::decode_from_slice(bytes, bincode::config::standard())
}

/// `bincode::serde::decode_from_slice` to a `u32` with the standard
/// configuration, the type of an enum's variant index: as for a `u64`, but with
/// at most four bytes.
#[verifier::external_body]
fn decode_u32(bytes: &[u8]) -> (r: std::result::Result<(u32, usize), bincode::error::DecodeError>)
    ensures
        match r {
            Ok((value, used)) => used <= bytes@.len() && read_varint(bytes@, 4) == Some(
                (value as nat, bytes@.skip(used as int)),
            ),
            Err(_) => read_varint(bytes@, 4) is None,
        },
{
    bincode::serde::decode_from_slice(bytes, bincode::config::standard())
}

/// `bincode::serde::encode_to_vec` on a slice of bytes with the standard
/// configuration: the length, then the bytes. Writing to a vector cannot fail.
#[verifier::external_body]
fn encode_bytes(data: &[u8]) -> (r: Vec<u8>)
    ensures
        r@ == byte_string(data@),
{
    bincode::serde::encode_to_vec(data, bincode::config::standard()).expect("bytes encode")
}

/// `bincode::serde::borrow_decode_from_slice` to a slice of bytes with the
/// standard configuration: the byte string at the front of the slice and the
/// number of bytes that it takes, or an error where none is there.
#[verifier::external_body]
fn decode_bytes(bytes: &[u8]) -> (r: std::result::Result<
    (Vec<u8>, usize),
    bincode::error::DecodeError,
>)
    ensures
        match r {
            Ok((data, used)) => used <= bytes@.len() && read_byte_string(bytes@) == Some(
                (data@, bytes@.skip(used as int)),
            ),
            Err(_) => read_byte_string(bytes@) is None,
        },
{
    let (data, used): (&[u8], usize) = bincode::serde::borrow_decode_from_slice(
        bytes,
        bincode::config::standard(),
    )?;
    Ok((data.to_vec(), used))
}

/// `bincode::serde::encode_to_vec` on a text with the standard configuration:
/// the length of its UTF-8 bytes, then those bytes. Writing to a vector cannot
/// fail.
#[verifier::external_body]
fn encode_text(chars: &str) -> (r: Vec<u8>)
    ensures
        r@ == text(chars@),
{
    bincode::serde::encode_to_vec(chars, bincode::config::standard()).expect("texts encode")
}

/// `bincode::serde::borrow_decode_from_slice` to a text with the standard
/// configuration: the text at the front of the slice and the number of bytes
/// that it takes, or an error where no byte string is there or its bytes are not
/// UTF-8.
#[verifier::external_body]
fn decode_text(bytes: &[u8]) -> (r: std::result::Result<
    (String, usize),
    bincode::error::DecodeError,
>)
    ensures
        match r {
            Ok((chars, used)) => used <= bytes@.len() && read_text(bytes@) == Some(
                (chars@, bytes@.skip(used as int)),
            ),
            Err(_) => read_text(bytes@) is None,
        },
{
    let (chars, used): (&str, usize) = bincode::serde::borrow_decode_from_slice(
        bytes,
        bincode::config::standard(),
    )?;
    Ok((chars.to_string(), used))
}

/// The text of a `bincode::error::DecodeError`, which is for people to read:
/// nothing is claimed of it.
#[verifier::external_body]
fn decode_error_text(error: &bincode::error::DecodeError) -> (r: String) {
    error.to_string()
}

/// A decoding failure as an error of the library.
fn undecodable(error: bincode::error::DecodeError) -> (r: Error)
    ensures
        r@ == ErrorView::InvalidData,
{
    Error::InvalidData(decode_error_text(&error))
}

/// The error of an enum's index that is none of its `count` variants.
pub fn unknown_variant(found: u32, count: u64) -> (r: Error)
    ensures
        r matches Error::InvalidData(text) && text@ == "OtherString(\"invalid value: integer `"@
            + decimal(found as nat) + "`, expected variant index 0 <= i < "@ + decimal(count as nat)
            + "\")"@,
{
    let mut text = "OtherString(\"invalid value: integer `".to_string();
    text.append(decimal_text(found as u64).as_str());
    text.append("`, expected variant index 0 <= i < ");
    text.append(decimal_text(count).as_str());
    text.append("\")");
    Error::InvalidData(text)
}

/// The error of an index that is neither that of a result nor that of an error.
pub fn unknown_result(found: u32) -> (r: Error)
    ensures
        r matches Error::InvalidData(text) && text@ == "OtherString(\"invalid value: integer `"@
            + decimal(found as nat) + "`, expected `Ok` or `Err`\")"@,
{
    let mut text = "OtherString(\"invalid value: integer `".to_string();
    text.append(decimal_text(found as u64).as_str());
    text.append("`, expected `Ok` or `Err`\")");
    Error::InvalidData(text)
}

/// The error of a byte that tells neither that a value is there nor that it is not.
pub fn unknown_option(found: u8) -> (r: Error)
    ensures
        r matches Error::InvalidData(text) && text@
            == "UnexpectedVariant { type_name: \"Option<T>\", allowed: Range { min: 0, max: 1 }, found: "@
            + decimal(found as nat) + " }"@,
{
    let mut text =
        "UnexpectedVariant { type_name: \"Option<T>\", allowed: Range { min: 0, max: 1 }, found: ".to_string();
    text.append(decimal_text(found as u64).as_str());
    text.append(" }");
    Error::InvalidData(text)
}

/// The error of a byte that is no flag.
pub fn unknown_flag(found: u8) -> (r: Error)
    ensures
        r matches Error::InvalidData(text) && text@ == "InvalidBooleanValue("@ + decimal(
            found as nat,
        ) + ")"@,
{
    let mut text = "InvalidBooleanValue(".to_string();
    text.append(decimal_text(found as u64).as_str());
    text.append(")");
    Error::InvalidData(text)
}

/// The error of an identifier that has not its length.
pub fn wrong_identifier(length: usize) -> (r: Error)
    ensures
        r matches Error::InvalidData(text) && text@
            == "OtherString(\"UUID parsing failed: invalid length: expected 16 bytes, found "@
            + decimal(length as nat) + "\")"@,
{
    let mut text =
        "OtherString(\"UUID parsing failed: invalid length: expected 16 bytes, found ".to_string();
    text.append(decimal_text(length as u64).as_str());
    text.append("\")");
    Error::InvalidData(text)
}

/// Appends an unsigned integer.
pub fn put_u64(out: &mut Vec<u8>, value: u64)
    ensures
        final(out)@ == old(out)@ + varint(value as nat),
{
    let mut part = encode_u64(value);
    out.append(&mut part);
}

/// Appends a byte string.
pub fn put_bytes(out: &mut Vec<u8>, data: &[u8])
    ensures
        final(out)@ == old(out)@ + byte_string(data@),
{
    let mut part = encode_bytes(data);
    out.append(&mut part);
}

/// Appends a text.
pub fn put_text(out: &mut Vec<u8>, chars: &str)
    ensures
        final(out)@ == old(out)@ + text(chars@),
{
    let mut part = encode_text(chars);
    out.append(&mut part);
}

/// The integer written is the one read back, and what follows it is left.
pub proof fn varint_round_trip(value: nat, rest: Seq<u8>, width: nat)
    requires
        width >= 8 || value <= 0xffff_ffff,
        value <= 0xffff_ffff_ffff_ffff,
    ensures
        varint(value).len() >= 1,
        read_varint(varint(value) + rest, width) == Some((value, rest)),
{
    lemma_byte_pow();
    let all = varint(value) + rest;
    if value <= 250 {
        assert(all.skip(1) =~= rest);
    } else if value <= 0xffff {
        le_round_trip(value, 2);
        assert(all.subrange(1, 3) =~= le_bytes(value, 2));
        assert(all.skip(3) =~= rest);
    } else if value <= 0xffff_ffff {
        le_round_trip(value, 4);
        assert(all.subrange(1, 5) =~= le_bytes(value, 4));
        assert(all.skip(5) =~= rest);
    } else {
        le_round_trip(value, 8);
        assert(all.subrange(1, 9) =~= le_bytes(value, 8));
        assert(all.skip(9) =~= rest);
    }
}

/// The byte string written is the one read back.
pub proof fn byte_string_round_trip(data: Seq<u8>, rest: Seq<u8>)
    requires
        data.len() <= 0xffff_ffff_ffff_ffff,
    ensures
        read_byte_string(byte_string(data) + rest) == Some((data, rest)),
{
    varint_round_trip(data.len(), data + rest, 8);
    assert(byte_string(data) + rest =~= varint(data.len()) + (data + rest));
    assert((data + rest).take(data.len() as int) =~= data);
    assert((data + rest).skip(data.len() as int) =~= rest);
}

/// The text written is the one read back.
pub proof fn text_round_trip(chars: Seq<char>, rest: Seq<u8>)
    requires
        encode_utf8(chars).len() <= 0xffff_ffff_ffff_ffff,
    ensures
        read_text(text(chars) + rest) == Some((chars, rest)),
{
    byte_string_round_trip(encode_utf8(chars), rest);
    vstd::utf8::encode_utf8_valid_utf8(chars);
    vstd::utf8::encode_utf8_decode_utf8(chars);
}

/// A cursor over encoded bytes.
pub struct Reader<'a> {
    pub bytes: &'a [u8],
    pub at: usize,
}

impl<'a> Reader<'a> {
    pub open spec fn wf(&self) -> bool {
        self.at <= self.bytes@.len()
    }

    /// The bytes still to be read.
    pub open spec fn rest(&self) -> Seq<u8> {
        self.bytes@.skip(self.at as int)
    }

    pub fn new(bytes: &'a [u8]) -> (r: Reader<'a>)
        ensures
            r.wf(),
            r.rest() == bytes@,
    {
        let r = Reader { bytes, at: 0 };
        assert(r.rest() =~= bytes@);
        r
    }

    /// Reads one byte.
    pub fn byte(&mut self) -> (r: Result<u8>)
        requires
            old(self).wf(),
        ensures
            final(self).wf(),
            match r {
                Ok(value) => old(self).rest().len() > 0 && value == old(self).rest()[0]
                    && final(self).rest() == old(self).rest().skip(1),
                Err(e) => old(self).rest().len() == 0 && e@ == ErrorView::InvalidData,
            },
    {
        if self.at < self.bytes.len() {
            let value = self.bytes[self.at];
            self.at = self.at + 1;
            assert(self.rest() =~= old(self).rest().skip(1));
            Ok(value)
        } else {
            Err(Error::InvalidData("UnexpectedEnd { additional: 1 }".to_string()))
        }
    }

    /// Reads an integer of at most eight bytes.
    pub fn u64(&mut self) -> (r: Result<u64>)
        requires
            old(self).wf(),
        ensures
            final(self).wf(),
            match r {
                Ok(value) => read_varint(old(self).rest(), 8) == Some(
                    (value as nat, final(self).rest()),
                ),
                Err(e) => read_varint(old(self).rest(), 8) is None && e@ == ErrorView::InvalidData,
            },
    {
        match decode_u64(slice_subrange(self.bytes, self.at, self.bytes.len())) {
            Ok((value, used)) => {
                self.at = self.at + used;
                assert(self.rest() =~= old(self).rest().skip(used as int));
                Ok(value)
            },
            Err(error) => Err(undecodable(error)),
        }
    }

    /// Reads the index of an enum's variant.
    pub fn variant(&mut self) -> (r: Result<u32>)
        requires
            old(self).wf(),
        ensures
            final(self).wf(),
            match r {
                Ok(value) => read_varint(old(self).rest(), 4) == Some(
                    (value as nat, final(self).rest()),
                ),
                Err(e) => read_varint(old(self).rest(), 4) is None && e@ == ErrorView::InvalidData,
            },
    {
        match decode_u32(slice_subrange(self.bytes, self.at, self.bytes.len())) {
            Ok((value, used)) => {
                self.at = self.at + used;
                assert(self.rest() =~= old(self).rest().skip(used as int));
                Ok(value)
            },
            Err(error) => Err(undecodable(error)),
        }
    }

    /// Reads a byte string.
    pub fn byte_string(&mut self) -> (r: Result<Vec<u8>>)
        requires
            old(self).wf(),
        ensures
            final(self).wf(),
            match r {
                Ok(data) => read_byte_string(old(self).rest()) == Some((data@, final(self).rest())),
                Err(e) => read_byte_string(old(self).rest()) is None && e@
                    == ErrorView::InvalidData,
            },
    {
        match decode_bytes(slice_subrange(self.bytes, self.at, self.bytes.len())) {
            Ok((data, used)) => {
                self.at = self.at + used;
                assert(self.rest() =~= old(self).rest().skip(used as int));
                Ok(data)
            },
            Err(error) => Err(undecodable(error)),
        }
    }

    /// Reads a text.
    pub fn text(&mut self) -> (r: Result<String>)
        requires
            old(self).wf(),
        ensures
            final(self).wf(),
            match r {
                Ok(chars) => read_text(old(self).rest()) == Some((chars@, final(self).rest())),
                Err(e) => read_text(old(self).rest()) is None && e@ == ErrorView::InvalidData,
            },
    {
        match decode_text(slice_subrange(self.bytes, self.at, self.bytes.len())) {
            Ok((chars, used)) => {
                self.at = self.at + used;
                assert(self.rest() =~= old(self).rest().skip(used as int));
                Ok(chars)
            },
            Err(error) => Err(undecodable(error)),
        }
    }
}

} // verus!
