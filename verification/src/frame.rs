//! Framing codec: every wire message is a fixed-size byte buffer that
//! carries a UTF-8 payload, left-aligned, right-padded with zero bytes
//! and optionally terminated early by a delimiter byte.

use vstd::prelude::*;
use vstd::string::StrSliceExecFns;
use vstd::string::StringSliceAdditionalSpecFns;
use vstd::utf8::{decode_utf8, encode_utf8, valid_utf8};
use vstd::utf8::{char_is_scalar, char_u32_cast};
use vstd::utf8::{encode_utf8_decode_utf8, encode_utf8_valid_utf8};
use vstd::utf8::{
    has_width_1_encoding, has_width_2_encoding, has_width_3_encoding, encode_scalar,
};
use vstd::slice::{slice_subrange, slice_to_vec};

verus! {

/// Number of bytes in every wire frame.
pub const FRAME_SIZE: usize = 32;

/// Byte that may terminate a payload before the zero padding: ASCII `;`.
pub const DELIMITER: u8 = 59;

/// A byte ends the payload when it is the zero pad byte or the delimiter.
pub open spec fn is_terminator(b: u8) -> bool {
    b == 0 || b == DELIMITER
}

/// `i` is the position where the payload of `bytes` ends: no byte before
/// `i` is a terminator, and `i` is either the end of the buffer or the
/// position of a terminator.
pub open spec fn is_payload_end(bytes: Seq<u8>, i: int) -> bool {
    &&& 0 <= i <= bytes.len()
    &&& forall|j: int| 0 <= j < i ==> !is_terminator(bytes[j])
    &&& i < bytes.len() ==> is_terminator(bytes[i])
}

/// The position where the payload of `bytes` ends.
pub open spec fn payload_end(bytes: Seq<u8>) -> int {
    choose|i: int| is_payload_end(bytes, i)
}

/// The payload of a buffer: all bytes up to (but not including) the first
/// zero or delimiter byte, or the whole buffer if it has neither.
pub open spec fn payload_of(bytes: Seq<u8>) -> Seq<u8> {
    bytes.take(payload_end(bytes))
}

pub proof fn lemma_payload_end_unique(bytes: Seq<u8>, i1: int, i2: int)
    requires
        is_payload_end(bytes, i1),
        is_payload_end(bytes, i2),
    ensures
        i1 == i2,
{
    if i1 < i2 {
        assert(is_terminator(bytes[i1]));
    }
    if i2 < i1 {
        assert(is_terminator(bytes[i2]));
    }
}

/// Finds where the payload of `bytes` ends.
pub fn scan_payload_end(bytes: &[u8]) -> (i: usize)
    ensures
        i as int == payload_end(bytes@),
        is_payload_end(bytes@, i as int),
{
    let n = bytes.len();
    let mut i: usize = 0;
    while i < n
        invariant
            0 <= i <= n == bytes@.len(),
            forall|j: int| 0 <= j < i ==> !is_terminator(bytes@[j]),
        decreases n - i,
    {
        let b = bytes[i];
        if b == 0 || b == DELIMITER {
            proof {
                assert(is_payload_end(bytes@, i as int));
                lemma_payload_end_unique(bytes@, i as int, payload_end(bytes@));
            }
            return i;
        }
        i = i + 1;
    }
    proof {
        assert(is_payload_end(bytes@, i as int));
        lemma_payload_end_unique(bytes@, i as int, payload_end(bytes@));
    }
    i
}

/// Decoding a buffer succeeds exactly when its payload is valid UTF-8.
pub open spec fn decode_ok(bytes: Seq<u8>) -> bool {
    valid_utf8(payload_of(bytes))
}

/// The text carried by a buffer: the characters encoded by its payload.
pub open spec fn decoded(bytes: Seq<u8>) -> Seq<char>
    recommends
        decode_ok(bytes),
{
    decode_utf8(payload_of(bytes))
}

/// Decoding failure: the payload bytes are not valid UTF-8.
#[derive(Clone, Copy, Debug, PartialEq, Eq, Structural)]
pub enum DecodeError {
    MalformedUtf8,
}

/// Relies on `String::from_utf8`: it succeeds exactly when the input is
/// valid UTF-8, and then returns the string whose characters that input
/// encodes.
#[verifier::external_body]
fn string_from_utf8(bytes: Vec<u8>) -> (r: Option<String>)
    ensures
        r is Some <==> valid_utf8(bytes@),
        r matches Some(s) ==> s@ == decode_utf8(bytes@),
{
    String::from_utf8(bytes).ok()
}

/// Extracts the text of one received buffer: every byte up to the first
/// zero or delimiter byte, read as UTF-8. Total over arbitrary input.
pub fn decode(bytes: &[u8]) -> (r: Result<String, DecodeError>)
    ensures
        r is Ok <==> decode_ok(bytes@),
        r matches Ok(s) ==> s@ == decoded(bytes@),
{
    let end = scan_payload_end(bytes);
    let payload = slice_to_vec(slice_subrange(bytes, 0, end));
    proof {
        assert(payload@ =~= payload_of(bytes@));
    }
    match string_from_utf8(payload) {
        Some(s) => Ok(s),
        None => Err(DecodeError::MalformedUtf8),
    }
}

/// Encoding failure: the text does not fit in one frame.
#[derive(Clone, Copy, Debug, PartialEq, Eq, Structural)]
pub enum EncodeError {
    TooLong,
}

/// The frame that carries `t`: the UTF-8 bytes of `t`, zero-padded to the
/// frame size.
pub open spec fn spec_encode(t: Seq<char>) -> Seq<u8>
    recommends
        encode_utf8(t).len() <= FRAME_SIZE,
{
    encode_utf8(t) + Seq::new((FRAME_SIZE - encode_utf8(t).len()) as nat, |i: int| 0u8)
}

/// Builds the frame that carries `text`, failing when the UTF-8 bytes of
/// `text` exceed the frame size.
pub fn encode(text: &str) -> (r: Result<Vec<u8>, EncodeError>)
    ensures
        r is Ok <==> encode_utf8(text@).len() <= FRAME_SIZE,
        r matches Ok(f) ==> f@ == spec_encode(text@) && f@.len() == FRAME_SIZE,
{
    let mut buf = text.as_bytes_vec();
    if buf.len() > FRAME_SIZE {
        return Err(EncodeError::TooLong);
    }
    proof {
        assert(buf@ =~= encode_utf8(text@) + Seq::new(
            (buf@.len() - encode_utf8(text@).len()) as nat,
            |i: int| 0u8,
        ));
    }
    while buf.len() < FRAME_SIZE
        invariant
            encode_utf8(text@).len() <= buf@.len() <= FRAME_SIZE,
            buf@ == encode_utf8(text@) + Seq::new(
                (buf@.len() - encode_utf8(text@).len()) as nat,
                |i: int| 0u8,
            ),
        decreases FRAME_SIZE - buf@.len(),
    {
        buf.push(0);
        proof {
            assert(buf@ =~= encode_utf8(text@) + Seq::new(
                (buf@.len() - encode_utf8(text@).len()) as nat,
                |i: int| 0u8,
            ));
        }
    }
    proof {
        assert(buf@ =~= spec_encode(text@));
    }
    Ok(buf)
}

/// A character whose single-byte encoding would end the payload early.
pub open spec fn is_terminator_char(c: char) -> bool {
    c == '\0' || c == ';'
}

proof fn lemma_encode_scalar_no_terminator(c: char)
    requires
        !is_terminator_char(c),
    ensures
        forall|j: int|
            0 <= j < encode_scalar(c as u32).len() ==> !is_terminator(
                #[trigger] encode_scalar(c as u32)[j],
            ),
{
    let v = c as u32;
    char_is_scalar(c);
    assert('\0' as u32 == 0);
    assert(';' as u32 == 59);
    if v == 0 {
        char_u32_cast(c, v);
        char_u32_cast('\0', 0);
        assert(false);
    }
    if v == 59 {
        char_u32_cast(c, v);
        char_u32_cast(';', 59);
        assert(false);
    }
    if has_width_1_encoding(v) {
        assert((v & 0x7F) as u8 != 0 && (v & 0x7F) as u8 != 59) by (bit_vector)
            requires
                v <= 0x7F && v != 0 && v != 59,
        ;
    } else if has_width_2_encoding(v) {
        assert((0xC0u8 | ((v >> 6) & 0x1F) as u8) >= 0xC0) by (bit_vector);
        assert((0x80u8 | (v & 0x3F) as u8) >= 0x80) by (bit_vector);
    } else if has_width_3_encoding(v) {
        assert((0xE0u8 | ((v >> 12) & 0x0F) as u8) >= 0xE0) by (bit_vector);
        assert((0x80u8 | ((v >> 6) & 0x3F) as u8) >= 0x80) by (bit_vector);
        assert((0x80u8 | (v & 0x3F) as u8) >= 0x80) by (bit_vector);
    } else {
        assert((0xF0u8 | ((v >> 18) & 0x7) as u8) >= 0xF0) by (bit_vector);
        assert((0x80u8 | ((v >> 12) & 0x3F) as u8) >= 0x80) by (bit_vector);
        assert((0x80u8 | ((v >> 6) & 0x3F) as u8) >= 0x80) by (bit_vector);
        assert((0x80u8 | (v & 0x3F) as u8) >= 0x80) by (bit_vector);
    }
}

/// The UTF-8 bytes of `t` contain no pad or delimiter byte when no
/// character of `t` is the NUL or `;` character.
pub proof fn lemma_encode_utf8_no_terminator(t: Seq<char>)
    requires
        forall|i: int| 0 <= i < t.len() ==> !is_terminator_char(#[trigger] t[i]),
    ensures
        forall|j: int|
            0 <= j < encode_utf8(t).len() ==> !is_terminator(#[trigger] encode_utf8(t)[j]),
    decreases t.len(),
{
    if t.len() > 0 {
        lemma_encode_scalar_no_terminator(t[0]);
        assert(forall|i: int|
            0 <= i < t.drop_first().len() ==> !is_terminator_char(#[trigger] t.drop_first()[i]));
        lemma_encode_utf8_no_terminator(t.drop_first());
        let head = encode_scalar(t[0] as u32);
        let tail = encode_utf8(t.drop_first());
        assert(encode_utf8(t) == head + tail);
        assert forall|j: int| 0 <= j < encode_utf8(t).len() implies !is_terminator(
            #[trigger] encode_utf8(t)[j],
        ) by {
            if j < head.len() {
                assert(encode_utf8(t)[j] == head[j]);
            } else {
                assert(encode_utf8(t)[j] == tail[j - head.len()]);
            }
        }
    }
}

/// Framing round trip: a text shorter than the frame, with no NUL or
/// delimiter character, is decoded back exactly from its encoded frame.
pub proof fn lemma_encode_decode_roundtrip(t: Seq<char>)
    requires
        encode_utf8(t).len() < FRAME_SIZE,
        forall|i: int| 0 <= i < t.len() ==> !is_terminator_char(#[trigger] t[i]),
    ensures
        decode_ok(spec_encode(t)),
        decoded(spec_encode(t)) == t,
{
    let n = encode_utf8(t).len() as int;
    let f = spec_encode(t);
    lemma_encode_utf8_no_terminator(t);
    assert(f[n] == 0);
    assert forall|j: int| 0 <= j < n implies !is_terminator(f[j]) by {
        assert(f[j] == encode_utf8(t)[j]);
    }
    assert(is_payload_end(f, n));
    lemma_payload_end_unique(f, n, payload_end(f));
    assert(payload_of(f) =~= encode_utf8(t));
    encode_utf8_valid_utf8(t);
    encode_utf8_decode_utf8(t);
}

/// Delimiter precedence: whatever bytes follow a delimiter, decode returns
/// exactly the text encoded before the delimiter.
pub proof fn lemma_delimiter_precedence(t: Seq<char>, k: int, junk: Seq<u8>)
    requires
        0 <= k < t.len(),
        forall|i: int| 0 <= i < t.len() ==> !is_terminator_char(#[trigger] t[i]),
    ensures
        decode_ok(encode_utf8(t.take(k)) + seq![DELIMITER] + junk),
        decoded(encode_utf8(t.take(k)) + seq![DELIMITER] + junk) == t.take(k),
{
    let p = encode_utf8(t.take(k));
    assert(forall|i: int|
        0 <= i < t.take(k).len() ==> !is_terminator_char(#[trigger] t.take(k)[i]));
    lemma_encode_utf8_no_terminator(t.take(k));
    let f = p + seq![DELIMITER] + junk;
    assert(f[p.len() as int] == DELIMITER);
    assert forall|j: int| 0 <= j < p.len() implies !is_terminator(f[j]) by {
        assert(f[j] == p[j]);
    }
    assert(is_payload_end(f, p.len() as int));
    lemma_payload_end_unique(f, p.len() as int, payload_end(f));
    assert(payload_of(f) =~= p);
    encode_utf8_valid_utf8(t.take(k));
    encode_utf8_decode_utf8(t.take(k));
}

} // verus!
