//! Percent-decoding of one path segment.

use vstd::prelude::*;
use vstd::string::*;
use vstd::utf8::*;

verus! {

/// The value of an ASCII hexadecimal digit, of either case.
pub open spec fn hex_digit(byte: u8) -> Option<u8> {
    if 0x30 <= byte <= 0x39 {
        Some((byte - 0x30) as u8)
    } else if 0x41 <= byte <= 0x46 {
        Some((byte - 0x41 + 10) as u8)
    } else if 0x61 <= byte <= 0x66 {
        Some((byte - 0x61 + 10) as u8)
    } else {
        None
    }
}

/// Whether the bytes start with an escape: `%` and two hexadecimal digits.
pub open spec fn starts_with_escape(bytes: Seq<u8>) -> bool {
    &&& bytes.len() >= 3
    &&& bytes[0] == 0x25
    &&& hex_digit(bytes[1]).is_some()
    &&& hex_digit(bytes[2]).is_some()
}

/// The bytes with every escape replaced by the byte it stands for. A `%` that
/// starts no escape stays as it is.
pub open spec fn unescaped(bytes: Seq<u8>) -> Seq<u8>
    decreases bytes.len(),
{
    if bytes.len() == 0 {
        Seq::empty()
    } else if starts_with_escape(bytes) {
        seq![(hex_digit(bytes[1]).unwrap() * 16 + hex_digit(bytes[2]).unwrap()) as u8] + unescaped(
            bytes.skip(3),
        )
    } else {
        seq![bytes[0]] + unescaped(bytes.skip(1))
    }
}

/// The text that the unescaped UTF-8 bytes of `text` spell, if they are
/// well-formed UTF-8.
pub open spec fn percent_decoded(text: Seq<char>) -> Option<Seq<char>> {
    let raw = unescaped(encode_utf8(text));
    if valid_utf8(raw) {
        Some(decode_utf8(raw))
    } else {
        None
    }
}

/// The value a parameter takes from a segment: its percent-decoded text, or
/// the segment as it stands where that is not well-formed UTF-8.
pub open spec fn segment_value(segment: Seq<char>) -> Seq<char> {
    match percent_decoded(segment) {
        Some(text) => text,
        None => segment,
    }
}

/// The UTF-8 encoding of one character holds the byte `%` only where the
/// character is `%`.
pub proof fn lemma_scalar_bytes(c: char)
    requires
        c != '%',
    ensures
        encode_scalar(c as u32).len() >= 1,
        forall|i: int| 0 <= i < encode_scalar(c as u32).len() ==> #[trigger] encode_scalar(c as u32)[i] != 0x25,
{
    let v = c as u32;
    assert(v != 0x25) by {
        vstd::utf8::char_u32_cast(c, v);
        vstd::utf8::char_u32_cast('%', 0x25u32);
    }
    assert(has_width_1_encoding(v) ==> (v & 0x7F) as u8 != 0x25) by (bit_vector)
        requires
            v != 0x25,
    ;
    assert((0xC0 | ((v >> 6) & 0x1F) as u8) != 0x25) by (bit_vector);
    assert((0xE0 | ((v >> 12) & 0x0F) as u8) != 0x25) by (bit_vector);
    assert((0xF0 | ((v >> 18) & 0x7) as u8) != 0x25) by (bit_vector);
    assert((0x80 | (v & 0x3F) as u8) != 0x25) by (bit_vector);
    assert((0x80 | ((v >> 6) & 0x3F) as u8) != 0x25) by (bit_vector);
    assert((0x80 | ((v >> 12) & 0x3F) as u8) != 0x25) by (bit_vector);
}

/// The UTF-8 encoding of a text without `%` holds no byte `%`.
pub proof fn lemma_encoding_without_percent(text: Seq<char>)
    requires
        !text.contains('%'),
    ensures
        forall|i: int| 0 <= i < encode_utf8(text).len() ==> #[trigger] encode_utf8(text)[i] != 0x25,
    decreases text.len(),
{
    if text.len() > 0 {
        let rest = text.drop_first();
        assert(!rest.contains('%')) by {
            if rest.contains('%') {
                let j = choose|j: int| 0 <= j < rest.len() && rest[j] == '%';
                assert(text[j + 1] == '%');
            }
        }
        assert(text[0] != '%');
        lemma_scalar_bytes(text[0]);
        lemma_encoding_without_percent(rest);
        let head = encode_scalar(text[0] as u32);
        let tail = encode_utf8(rest);
        assert forall|i: int| 0 <= i < encode_utf8(text).len() implies #[trigger] encode_utf8(
            text,
        )[i] != 0x25 by {
            if i < head.len() {
                assert(encode_utf8(text)[i] == head[i]);
            } else {
                assert(encode_utf8(text)[i] == tail[i - head.len()]);
            }
        }
    }
}

/// Bytes without `%` hold no escape and stay as they are.
pub proof fn lemma_unescaped_without_percent(bytes: Seq<u8>)
    requires
        forall|i: int| 0 <= i < bytes.len() ==> #[trigger] bytes[i] != 0x25,
    ensures
        unescaped(bytes) == bytes,
    decreases bytes.len(),
{
    if bytes.len() > 0 {
        assert(bytes[0] != 0x25);
        let rest = bytes.skip(1);
        assert forall|i: int| 0 <= i < rest.len() implies #[trigger] rest[i] != 0x25 by {
            assert(rest[i] == bytes[i + 1]);
        }
        lemma_unescaped_without_percent(rest);
        assert(seq![bytes[0]] + rest =~= bytes);
    } else {
        assert(unescaped(bytes) =~= bytes);
    }
}

/// A segment without `%` is its own value.
pub proof fn lemma_plain_segment_value(segment: Seq<char>)
    requires
        !segment.contains('%'),
    ensures
        percent_decoded(segment) == Some(segment),
        segment_value(segment) == segment,
{
    lemma_encoding_without_percent(segment);
    lemma_unescaped_without_percent(encode_utf8(segment));
    vstd::utf8::encode_utf8_valid_utf8(segment);
    vstd::utf8::encode_utf8_decode_utf8(segment);
}

/// A segment that is not empty has a value that is not empty.
pub proof fn lemma_value_not_empty(segment: Seq<char>)
    requires
        segment.len() > 0,
    ensures
        segment_value(segment).len() > 0,
{
    let bytes = encode_utf8(segment);
    assert(encode_scalar(segment[0] as u32).len() >= 1);
    assert(bytes.len() >= 1);
    let raw = unescaped(bytes);
    assert(raw.len() >= 1);
    if valid_utf8(raw) {
        assert(decode_utf8(raw).len() >= 1);
    }
}

/// Calls `percent_encoding::percent_decode` on the bytes of the segment and
/// `PercentDecode::decode_utf8` on what it returns. The first replaces each
/// `%` that two hexadecimal digits follow by the byte they denote; the second
/// returns the bytes as text, or an error where they are not well-formed
/// UTF-8. The contract says so over [`unescaped`] and vstd's model of UTF-8.
#[verifier::external_body]
fn percent_decode_utf8(segment: &str) -> (decoded: Option<String>)
    ensures
        decoded.is_some() == percent_decoded(segment@).is_some(),
        decoded matches Some(text) ==> percent_decoded(segment@) == Some(text@),
{
    match percent_encoding::percent_decode(segment.as_bytes()).decode_utf8() {
        Ok(text) => Some(text.into_owned()),
        Err(_) => None,
    }
}

/// The value a parameter takes from a segment.
pub fn decode_segment(segment: &str) -> (value: String)
    ensures
        value@ == segment_value(segment@),
{
    match percent_decode_utf8(segment) {
        Some(text) => text,
        None => segment.to_owned(),
    }
}

} // verus!
