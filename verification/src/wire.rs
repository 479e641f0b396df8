//! The Protocol Buffers wire format, as far as the certificate bundle needs
//! it: variable-length integers, field keys, length-delimited fields, and
//! fields of other kinds, which are stepped over. The bytes are read and
//! written by the `prost` crate; this file says what it reads and writes.

use vstd::prelude::*;

verus! {

/// Wire type of a length-delimited field.
pub const LENGTH_DELIMITED: u8 = 2;

/// Largest field number there is.
pub const MAX_TAG: u32 = 0x1fff_ffff;

/// `prost::DecodeError`, carried through unopened.
#[verifier::external_type_specification]
#[verifier::external_body]
pub struct ExDecodeError(prost::DecodeError);

/// The bytes of a variable-length integer: seven bits at a time, lowest
/// first, each byte but the last with its top bit set.
pub open spec fn varint_bytes(v: nat) -> Seq<u8>
    decreases v,
{
    if v < 128 {
        seq![v as u8]
    } else {
        seq![(v % 128 + 128) as u8] + varint_bytes(v / 128)
    }
}

/// Reads a variable-length integer whose first byte is the byte number
/// `count` of it: the value, and the bytes that follow. There is none
/// where the bytes end before a byte without top bit, where ten bytes do
/// not end it, or where the tenth byte carries more than one bit.
pub open spec fn varint_from(b: Seq<u8>, count: nat) -> Option<(nat, Seq<u8>)>
    decreases b.len(),
{
    if b.len() == 0 || count >= 10 {
        None
    } else if b[0] < 128 {
        if count == 9 && b[0] >= 2 {
            None
        } else {
            Some((b[0] as nat, b.skip(1)))
        }
    } else {
        match varint_from(b.skip(1), count + 1) {
            Some((high, rest)) => Some((((b[0] - 128) + 128 * high) as nat, rest)),
            None => None,
        }
    }
}

/// Reads a variable-length integer from the start of `b`.
pub open spec fn parse_varint(b: Seq<u8>) -> Option<(nat, Seq<u8>)> {
    varint_from(b, 0)
}

/// The bytes of the key of a field: its number and its wire type in one
/// variable-length integer.
pub open spec fn key_bytes_of(tag: u32, wire: u8) -> Seq<u8> {
    varint_bytes((tag * 8 + wire) as nat)
}

/// Reads the key of a field: its number, its wire type, and the bytes
/// that follow. There is none where the integer is none, exceeds 32 bits,
/// names a wire type above 5, or gives the field number 0.
pub open spec fn parse_key(b: Seq<u8>) -> Option<(u32, u8, Seq<u8>)> {
    match parse_varint(b) {
        Some((key, rest)) => if key > u32::MAX || key % 8 > 5 || key / 8 == 0 {
            None
        } else {
            Some(((key / 8) as u32, (key % 8) as u8, rest))
        },
        None => None,
    }
}

/// The bytes of a length-delimited field: key, length, content.
pub open spec fn bytes_field(tag: u32, value: Seq<u8>) -> Seq<u8> {
    key_bytes_of(tag, LENGTH_DELIMITED) + varint_bytes(value.len()) + value
}

/// Reads the length and content of a length-delimited field: the content,
/// and the bytes that follow. There is none where the wire type is
/// another, the length is none, or fewer bytes follow than it says.
pub open spec fn parse_bytes(wire: u8, b: Seq<u8>) -> Option<(Seq<u8>, Seq<u8>)> {
    if wire != LENGTH_DELIMITED {
        None
    } else {
        match parse_varint(b) {
            Some((len, rest)) => if len > rest.len() {
                None
            } else {
                Some((rest.take(len as int), rest.skip(len as int)))
            },
            None => None,
        }
    }
}

/// What is left of `b` after `prost` has stepped over one field with the
/// wire type `wire` and the number `tag`, whose key has been read: none
/// where it refuses the field.
pub uninterp spec fn skipped(wire: u8, tag: u32, b: Seq<u8>) -> Option<Seq<u8>>;

/// `prost::encoding::bytes::encode`: appends to `buf` the key of the
/// field `tag` with the wire type for length-delimited fields, the length
/// of `value` as a variable-length integer, and `value`.
#[verifier::external_body]
pub(crate) fn put_bytes_field(tag: u32, value: &Vec<u8>, buf: &mut Vec<u8>)
    requires
        1 <= tag <= MAX_TAG,
    ensures
        final(buf)@ == old(buf)@ + bytes_field(tag, value@),
{
    prost::encoding::bytes::encode(tag, value, buf);
}

/// `prost::encoding::decode_key`: reads a field's key from the start of
/// `buf` and hands back the field number, the wire type as its number,
/// and the rest of `buf`, or fails on the inputs that [`parse_key`]
/// names.
#[verifier::external_body]
pub(crate) fn read_key(buf: &[u8]) -> (r: Result<(u32, u8, &[u8]), prost::DecodeError>)
    ensures
        match r {
            Ok((tag, wire, rest)) => parse_key(buf@) == Some((tag, wire, rest@)),
            Err(_) => parse_key(buf@) is None,
        },
{
    let mut rest = buf;
    let (tag, wire_type) = prost::encoding::decode_key(&mut rest)?;
    Ok((tag, wire_type as u8, rest))
}

/// `prost::encoding::bytes::merge` on an empty value: reads length and
/// content of a length-delimited field from the start of `buf` and hands
/// back the content and the rest of `buf`, or fails on the inputs that
/// [`parse_bytes`] names. (`WireType::try_from` turns the number into
/// `prost`'s wire type and fails above 5.)
#[verifier::external_body]
pub(crate) fn read_bytes(wire: u8, buf: &[u8]) -> (r: Result<(Vec<u8>, &[u8]), prost::DecodeError>)
    ensures
        match r {
            Ok((value, rest)) => parse_bytes(wire, buf@) == Some((value@, rest@)),
            Err(_) => parse_bytes(wire, buf@) is None,
        },
{
    let mut rest = buf;
    let mut value: Vec<u8> = Vec::new();
    let wire_type = prost::encoding::WireType::try_from(u64::from(wire))?;
    let ctx = prost::encoding::DecodeContext::default();
    prost::encoding::bytes::merge(wire_type, &mut value, &mut rest, ctx)?;
    Ok((value, rest))
}

/// `prost::encoding::skip_field`: steps over one field whose key has been
/// read and hands back the rest of `buf`, or fails. What it accepts is
/// `prost`'s to say and goes by the name [`skipped`]; it only ever moves
/// forward, so the rest is never longer than `buf`.
/// (`WireType::try_from` turns the number into `prost`'s wire type and
/// fails above 5.)
#[verifier::external_body]
pub(crate) fn skip_unknown(wire: u8, tag: u32, buf: &[u8]) -> (r: Result<&[u8], prost::DecodeError>)
    ensures
        match r {
            Ok(rest) => skipped(wire, tag, buf@) == Some(rest@) && rest@.len() <= buf@.len(),
            Err(_) => skipped(wire, tag, buf@) is None,
        },
{
    let mut rest = buf;
    let wire_type = prost::encoding::WireType::try_from(u64::from(wire))?;
    let ctx = prost::encoding::DecodeContext::default();
    prost::encoding::skip_field(wire_type, tag, &mut rest, ctx)?;
    Ok(rest)
}

/// Reading a variable-length integer uses up at least one byte and leaves
/// an end piece of the input.
pub proof fn lemma_varint_rest(b: Seq<u8>, count: nat)
    requires
        varint_from(b, count) is Some,
    ensures
        varint_from(b, count)->Some_0.1.len() < b.len(),
        varint_from(b, count)->Some_0.1 == b.skip(b.len() - varint_from(b, count)->Some_0.1.len()),
    decreases b.len(),
{
    if b[0] >= 128 {
        lemma_varint_rest(b.skip(1), count + 1);
        let rest = varint_from(b, count)->Some_0.1;
        assert(b.skip(1).skip(b.skip(1).len() - rest.len()) =~= b.skip(b.len() - rest.len()));
    }
}

/// The largest value, and one more, that a variable-length integer can
/// have from its byte number `count` on.
pub open spec fn varint_bound(count: nat) -> nat
    decreases 9 - count,
{
    if count >= 9 {
        2
    } else {
        128 * varint_bound(count + 1)
    }
}

/// Every 64-bit value is within the bound of a whole integer.
pub proof fn lemma_varint_bound_u64()
    ensures
        varint_bound(0) == 0x1_0000_0000_0000_0000,
{
    reveal_with_fuel(varint_bound, 11);
}

/// What was written as a variable-length integer is read back, whatever
/// follows it.
pub proof fn lemma_varint_round_trip(v: nat, count: nat, rest: Seq<u8>)
    requires
        count <= 9,
        v < varint_bound(count),
    ensures
        varint_from(varint_bytes(v) + rest, count) == Some((v, rest)),
    decreases v,
{
    let b = varint_bytes(v) + rest;
    if v < 128 {
        assert(b[0] == v as u8);
        assert(b.skip(1) =~= rest);
    } else {
        assert(count < 9);
        assert(v / 128 < varint_bound(count + 1)) by {
            assert(varint_bound(count) == 128 * varint_bound(count + 1));
        }
        lemma_varint_round_trip(v / 128, count + 1, rest);
        assert(b[0] == (v % 128 + 128) as u8);
        assert(b.skip(1) =~= varint_bytes(v / 128) + rest);
        assert((b[0] - 128) + 128 * (v / 128) == v);
    }
}

/// A field that was written as length-delimited is read back, whatever
/// follows it.
pub proof fn lemma_bytes_field_round_trip(tag: u32, value: Seq<u8>, rest: Seq<u8>)
    requires
        1 <= tag <= MAX_TAG,
        value.len() <= u64::MAX,
    ensures
        parse_key(bytes_field(tag, value) + rest) == Some(
            (tag, LENGTH_DELIMITED, varint_bytes(value.len()) + value + rest),
        ),
        parse_bytes(LENGTH_DELIMITED, varint_bytes(value.len()) + value + rest) == Some((value, rest)),
{
    lemma_varint_bound_u64();
    let key = (tag * 8 + LENGTH_DELIMITED) as nat;
    let tail = varint_bytes(value.len()) + value + rest;
    lemma_varint_round_trip(key, 0, tail);
    assert(bytes_field(tag, value) + rest =~= varint_bytes(key) + tail);
    assert(key / 8 == tag && key % 8 == 2);
    lemma_varint_round_trip(value.len(), 0, value + rest);
    assert(tail =~= varint_bytes(value.len()) + (value + rest));
    assert((value + rest).take(value.len() as int) =~= value);
    assert((value + rest).skip(value.len() as int) =~= rest);
}

} // verus!
