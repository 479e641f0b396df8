//! Hexadecimal text, as the keys of the store carry identifiers. The text
//! is written and read by the `hex` crate; this file says what it writes
//! and what it accepts.

use vstd::prelude::*;
use vstd::utf8::is_ascii_chars;
use crate::order::{key_bytes, lemma_char_bytes, lemma_char_code};

verus! {

/// `hex::FromHexError`, carried through unopened.
#[verifier::external_type_specification]
#[verifier::external_body]
pub struct ExFromHexError(hex::FromHexError);

/// The lower-case digit for a number below 16.
pub open spec fn lower_digit(n: int) -> char {
    seq!['0', '1', '2', '3', '4', '5', '6', '7', '8', '9', 'a', 'b', 'c', 'd', 'e', 'f'][n]
}

/// The text of `data`: two lower-case digits for each byte, the high half
/// first.
pub open spec fn hex_text(data: Seq<u8>) -> Seq<char> {
    Seq::new(
        2 * data.len(),
        |i: int|
            if i % 2 == 0 {
                lower_digit(data[i / 2] as int / 16)
            } else {
                lower_digit(data[i / 2] as int % 16)
            },
    )
}

/// The number that the character `c` stands for as a digit, in either
/// case.
pub open spec fn digit_of(c: char) -> Option<int> {
    if '0' <= c <= '9' {
        Some(c as int - 0x30)
    } else if 'a' <= c <= 'f' {
        Some(c as int - 0x61 + 10)
    } else if 'A' <= c <= 'F' {
        Some(c as int - 0x41 + 10)
    } else {
        None
    }
}

/// `text` is hexadecimal: an even number of characters, each a digit.
pub open spec fn is_hex(text: Seq<char>) -> bool {
    text.len() % 2 == 0 && forall|i: int| 0 <= i < text.len() ==> (#[trigger] digit_of(text[i])) is Some
}

/// The bytes that the hexadecimal `text` stands for.
pub open spec fn hex_value(text: Seq<char>) -> Seq<u8> {
    Seq::new(
        text.len() / 2,
        |i: int| (digit_of(text[2 * i])->Some_0 * 16 + digit_of(text[2 * i + 1])->Some_0) as u8,
    )
}

/// The number that the byte `c` stands for as a digit, in either case.
pub open spec fn digit_value(c: u8) -> Option<int> {
    if 0x30 <= c <= 0x39 {
        Some(c - 0x30)
    } else if 0x61 <= c <= 0x66 {
        Some(c - 0x61 + 10)
    } else if 0x41 <= c <= 0x46 {
        Some(c - 0x41 + 10)
    } else {
        None
    }
}

/// The bytes `text` are hexadecimal: an even number of bytes, each a
/// digit.
pub open spec fn is_hex_bytes(text: Seq<u8>) -> bool {
    text.len() % 2 == 0 && forall|i: int| 0 <= i < text.len() ==> (#[trigger] digit_value(text[i])) is Some
}

/// The bytes that the hexadecimal bytes `text` stand for.
pub open spec fn hex_value_bytes(text: Seq<u8>) -> Seq<u8> {
    Seq::new(
        text.len() / 2,
        |i: int| (digit_value(text[2 * i])->Some_0 * 16 + digit_value(text[2 * i + 1])->Some_0) as u8,
    )
}

/// `hex::encode`: the text of `data` in lower-case digits.
#[verifier::external_body]
fn hex_encode(data: &[u8]) -> (text: String)
    ensures
        text@ == hex_text(data@),
{
    hex::encode(data)
}

/// `hex::decode`: the bytes that `text` stands for. It fails where the
/// number of bytes is odd or one of them is no digit, and nowhere else.
#[verifier::external_body]
fn hex_decode(text: &[u8]) -> (r: Result<Vec<u8>, hex::FromHexError>)
    ensures
        match r {
            Ok(data) => is_hex_bytes(text@) && data@ == hex_value_bytes(text@),
            Err(_) => !is_hex_bytes(text@),
        },
{
    hex::decode(text)
}

/// A text whose bytes are all digits is ASCII.
proof fn lemma_digits_are_ascii(text: Seq<char>)
    requires
        forall|i: int| 0 <= i < key_bytes(text).len() ==> (#[trigger] digit_value(key_bytes(text)[i])) is Some,
    ensures
        is_ascii_chars(text),
    decreases text.len(),
{
    if text.len() > 0 {
        let rest = text.drop_first();
        let b = key_bytes(text);
        lemma_char_bytes(text[0]);
        let first = key_bytes(seq![text[0]]);
        assert(b == first + key_bytes(rest));
        assert(b[0] == first[0]);
        assert(digit_value(b[0]) is Some);
        assert((text[0] as u32) < 0x80);
        assert forall|i: int| 0 <= i < key_bytes(rest).len() implies (#[trigger] digit_value(
            key_bytes(rest)[i],
        )) is Some by {
            assert(b[i + 1] == key_bytes(rest)[i]);
        }
        lemma_digits_are_ascii(rest);
        assert forall|i: int| 0 <= i < text.len() implies '\0' <= #[trigger] text[i] <= '\u{7f}' by {
            lemma_char_code(text[i]);
            if i > 0 {
                assert(text[i] == rest[i - 1]);
                assert('\0' <= rest[i - 1] <= '\u{7f}');
            }
        }
    }
}

/// A text is hexadecimal exactly when its bytes are, and then both stand
/// for the same bytes.
pub proof fn lemma_hex_bytes(text: Seq<char>)
    ensures
        is_hex_bytes(key_bytes(text)) == is_hex(text),
        is_hex(text) ==> hex_value_bytes(key_bytes(text)) == hex_value(text),
{
    let b = key_bytes(text);
    if is_hex_bytes(b) {
        lemma_digits_are_ascii(text);
    }
    if is_hex(text) {
        assert forall|i: int| 0 <= i < text.len() implies '\0' <= #[trigger] text[i] <= '\u{7f}' by {
            assert(digit_of(text[i]) is Some);
            lemma_char_code(text[i]);
        }
    }
    if is_ascii_chars(text) {
        vstd::utf8::is_ascii_chars_encode_utf8(text);
        assert forall|i: int| 0 <= i < text.len() implies digit_value(#[trigger] b[i]) == digit_of(
            text[i],
        ) by {
            assert(text[i] as u8 == b[i]);
            lemma_char_code(text[i]);
        }
        if is_hex(text) {
            assert forall|i: int| 0 <= i < b.len() implies (#[trigger] digit_value(b[i])) is Some by {
                assert(digit_of(text[i]) is Some);
            }
            assert(hex_value_bytes(b) =~= hex_value(text));
        }
        if is_hex_bytes(b) {
            assert forall|i: int| 0 <= i < text.len() implies (#[trigger] digit_of(text[i])) is Some by {
                assert(digit_value(b[i]) is Some);
            }
        }
    }
}

/// The text of `data` in lower-case hexadecimal.
pub fn encode(data: &[u8]) -> (text: String)
    ensures
        text@ == hex_text(data@),
{
    hex_encode(data)
}

/// The bytes that the text with the bytes `bytes` stands for, if it is
/// hexadecimal.
pub(crate) fn decode_bytes(bytes: &[u8], Ghost(text): Ghost<Seq<char>>) -> (r: Option<Vec<u8>>)
    requires
        bytes@ == key_bytes(text),
    ensures
        match r {
            Some(data) => is_hex(text) && data@ == hex_value(text),
            None => !is_hex(text),
        },
{
    proof {
        lemma_hex_bytes(text);
    }
    match hex_decode(bytes) {
        Ok(data) => Some(data),
        Err(_) => None,
    }
}

/// The bytes that `text` stands for, if it is hexadecimal.
pub fn decode(text: &str) -> (r: Option<Vec<u8>>)
    ensures
        match r {
            Some(data) => is_hex(text@) && data@ == hex_value(text@),
            None => !is_hex(text@),
        },
{
    decode_bytes(text.as_bytes(), Ghost(text@))
}

/// What was written as hexadecimal text is read back as it was.
pub proof fn lemma_hex_round_trip(data: Seq<u8>)
    ensures
        is_hex(hex_text(data)),
        hex_value(hex_text(data)) == data,
{
    let text = hex_text(data);
    assert forall|n: int| 0 <= n < 16 implies digit_of(#[trigger] lower_digit(n)) == Some(n) by {
        let table = seq!['0', '1', '2', '3', '4', '5', '6', '7', '8', '9', 'a', 'b', 'c', 'd', 'e', 'f'];
        assert(table[0] == '0' && table[1] == '1' && table[2] == '2' && table[3] == '3');
        assert(table[4] == '4' && table[5] == '5' && table[6] == '6' && table[7] == '7');
        assert(table[8] == '8' && table[9] == '9' && table[10] == 'a' && table[11] == 'b');
        assert(table[12] == 'c' && table[13] == 'd' && table[14] == 'e' && table[15] == 'f');
    }
    assert forall|i: int| 0 <= i < text.len() implies (#[trigger] digit_of(text[i])) is Some by {
        if i % 2 == 0 {
            assert(digit_of(lower_digit(data[i / 2] as int / 16)) is Some);
        } else {
            assert(digit_of(lower_digit(data[i / 2] as int % 16)) is Some);
        }
    }
    assert forall|i: int| 0 <= i < data.len() implies hex_value(text)[i] == data[i] by {
        assert(text[2 * i] == lower_digit(data[i] as int / 16));
        assert(text[2 * i + 1] == lower_digit(data[i] as int % 16));
        assert(digit_of(lower_digit(data[i] as int / 16)) == Some(data[i] as int / 16));
        assert(digit_of(lower_digit(data[i] as int % 16)) == Some(data[i] as int % 16));
    }
    assert(hex_value(text) =~= data);
}

} // verus!
