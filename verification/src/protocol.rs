use std::string::FromUtf8Error;
use vstd::prelude::*;
use vstd::utf8::{
    encode_utf8, encode_utf8_decode_utf8, is_ascii_chars, is_ascii_chars_encode_utf8, valid_utf8,
};

use crate::text::{chars_of, lemma_chars_le_bytes};

verus! {

/// The largest message, header included, that may be sent.
pub const MAX_MSG_SIZE: usize = 128;

/// Why a message cannot be framed or read.
#[derive(PartialEq, Eq, Debug)]
pub enum ProtocolError {
    /// The framed message would hold no byte.
    EmptyMessage,
    /// The framed message would exceed `MAX_MSG_SIZE` bytes.
    MessageTooLarge,
    /// The content bytes received are not UTF-8; the error of
    /// `String::from_utf8` tells where.
    InvalidUtf8(FromUtf8Error),
}

impl ProtocolError {
    /// The text that describes a framing error; an `InvalidUtf8` error is
    /// described by the error it carries.
    pub fn description(&self) -> (r: Option<&'static str>)
        ensures
            *self is EmptyMessage ==> (r matches Some(m) && m@ == "cannot send empty message"@),
            *self is MessageTooLarge ==> (r matches Some(m) && m@ == "message content too large"@),
            *self is InvalidUtf8 ==> r is None,
    {
        match self {
            ProtocolError::EmptyMessage => Some("cannot send empty message"),
            ProtocolError::MessageTooLarge => Some("message content too large"),
            ProtocolError::InvalidUtf8(_) => None,
        }
    }
}

/// The number whose little-endian bytes are `b0, b1, b2, b3`.
pub open spec fn le_value(b0: u8, b1: u8, b2: u8, b3: u8) -> int {
    b0 + b1 * 0x100 + b2 * 0x1_0000 + b3 * 0x100_0000
}

/// The four little-endian bytes of `n`.
pub open spec fn le_bytes(n: u32) -> Seq<u8> {
    seq![
        (n % 0x100) as u8,
        ((n / 0x100) % 0x100) as u8,
        ((n / 0x1_0000) % 0x100) as u8,
        ((n / 0x100_0000) % 0x100) as u8,
    ]
}

/// Reads a little-endian `u32` out of four bytes.
pub fn u8_to_u32(arr: [u8; 4]) -> (n: u32)
    ensures
        n == le_value(arr[0], arr[1], arr[2], arr[3]),
{
    let b0 = arr[0] as u32;
    let b1 = arr[1] as u32;
    let b2 = arr[2] as u32;
    let b3 = arr[3] as u32;
    assert(b1 << 8 == b1 * 0x100) by (bit_vector)
        requires
            b1 < 256,
    ;
    assert(b2 << 16 == b2 * 0x1_0000) by (bit_vector)
        requires
            b2 < 256,
    ;
    assert(b3 << 24 == b3 * 0x100_0000) by (bit_vector)
        requires
            b3 < 256,
    ;
    b0 + (b1 << 8) + (b2 << 16) + (b3 << 24)
}

/// Writes a `u32` as four little-endian bytes.
pub fn u32_to_u8(n: u32) -> (arr: [u8; 4])
    ensures
        arr@ == le_bytes(n),
{
    let mut arr: [u8; 4] = [0; 4];
    assert(n & 0xff == n % 0x100) by (bit_vector);
    assert((n >> 8) & 0xff == (n / 0x100) % 0x100) by (bit_vector);
    assert((n >> 16) & 0xff == (n / 0x1_0000) % 0x100) by (bit_vector);
    assert((n >> 24) & 0xff == (n / 0x100_0000) % 0x100) by (bit_vector);
    arr[0] = (n & 0xff) as u8;
    arr[1] = ((n >> 8) & 0xff) as u8;
    arr[2] = ((n >> 16) & 0xff) as u8;
    arr[3] = ((n >> 24) & 0xff) as u8;
    assert(arr@ =~= le_bytes(n));
    arr
}

/// Reading back the bytes of a number gives the number.
pub proof fn lemma_u32_bytes_roundtrip(n: u32)
    ensures
        le_value(le_bytes(n)[0], le_bytes(n)[1], le_bytes(n)[2], le_bytes(n)[3]) == n,
{
    assert(n % 0x100 + ((n / 0x100) % 0x100) * 0x100 + ((n / 0x1_0000) % 0x100) * 0x1_0000 + ((n
        / 0x100_0000) % 0x100) * 0x100_0000 == n) by (bit_vector);
}

/// Writing back the number of four bytes gives the bytes.
pub proof fn lemma_bytes_u32_roundtrip(b0: u8, b1: u8, b2: u8, b3: u8)
    ensures
        0 <= le_value(b0, b1, b2, b3) <= u32::MAX,
        le_bytes(le_value(b0, b1, b2, b3) as u32) == seq![b0, b1, b2, b3],
{
    let v = le_value(b0, b1, b2, b3);
    assert(0 <= v <= u32::MAX) by (nonlinear_arith)
        requires
            v == b0 + b1 * 0x100 + b2 * 0x1_0000 + b3 * 0x100_0000,
            b0 < 256,
            b1 < 256,
            b2 < 256,
            b3 < 256,
    ;
    let x = v as u32;
    let (c0, c1, c2, c3) = (b0 as u32, b1 as u32, b2 as u32, b3 as u32);
    assert(x == c0 + c1 * 0x100 + c2 * 0x1_0000 + c3 * 0x100_0000);
    assert(x % 0x100 == c0 && (x / 0x100) % 0x100 == c1 && (x / 0x1_0000) % 0x100 == c2 && (x
        / 0x100_0000) % 0x100 == c3) by (bit_vector)
        requires
            x == c0 + c1 * 0x100 + c2 * 0x1_0000 + c3 * 0x100_0000,
            c0 < 256,
            c1 < 256,
            c2 < 256,
            c3 < 256,
    ;
    assert(le_bytes(x) =~= seq![b0, b1, b2, b3]);
}

/// The message that carries `content`: four little-endian bytes that count
/// the characters of `content` (cut to 32 bits), then its UTF-8 bytes.
pub open spec fn spec_frame(content: Seq<char>) -> Seq<u8> {
    le_bytes(content.len() as u32) + encode_utf8(content)
}

/// The error of `String::from_utf8`.
#[verifier::external_type_specification]
#[verifier::external_body]
pub struct ExFromUtf8Error(FromUtf8Error);

/// `String::from_utf8`: the string whose UTF-8 encoding the bytes are, when
/// they are valid UTF-8, and an error otherwise. What the error holds (where
/// the invalid bytes start) is not stated.
#[verifier::external_body]
fn string_from_utf8(bytes: Vec<u8>) -> (r: Result<String, FromUtf8Error>)
    ensures
        match r {
            Ok(s) => valid_utf8(bytes@) && encode_utf8(s@) == bytes@,
            Err(_) => !valid_utf8(bytes@),
        },
{
    String::from_utf8(bytes)
}

/// The bytes to send for `content`: its framed message, unless that would
/// be empty or longer than `MAX_MSG_SIZE` bytes.
pub fn frame_message(content: &String) -> (r: Result<Vec<u8>, ProtocolError>)
    ensures
        match r {
            Ok(m) => m@ == spec_frame(content@) && m@.len() <= MAX_MSG_SIZE,
            Err(e) => e is MessageTooLarge && spec_frame(content@).len() > MAX_MSG_SIZE,
        },
{
    let bytes = content.as_str().as_bytes();
    let content_len = bytes.len();
    if content_len > MAX_MSG_SIZE - 4 {
        return Err(ProtocolError::MessageTooLarge);
    }
    let count = chars_of(content.as_str()).len();
    proof {
        lemma_chars_le_bytes(content@);
    }
    let header = u32_to_u8(count as u32);
    let mut message: Vec<u8> = Vec::new();
    message.push(header[0]);
    message.push(header[1]);
    message.push(header[2]);
    message.push(header[3]);
    assert(message@ =~= le_bytes(count as u32));
    let mut i: usize = 0;
    while i < content_len
        invariant
            content_len == bytes@.len(),
            bytes@ == encode_utf8(content@),
            i <= content_len,
            message@ == le_bytes(count as u32) + bytes@.take(i as int),
        decreases content_len - i,
    {
        message.push(bytes[i]);
        i = i + 1;
        assert(message@ =~= le_bytes(count as u32) + bytes@.take(i as int));
    }
    assert(bytes@.take(i as int) =~= bytes@);
    if message.len() == 0 {
        return Err(ProtocolError::EmptyMessage);
    }
    Ok(message)
}

/// The content of a received message: the string whose UTF-8 encoding the
/// bytes are, or `InvalidUtf8` with the error of `String::from_utf8` when
/// they are not valid UTF-8.
pub fn decode_content(bytes: Vec<u8>) -> (r: Result<String, ProtocolError>)
    ensures
        match r {
            Ok(s) => valid_utf8(bytes@) && encode_utf8(s@) == bytes@,
            Err(e) => e is InvalidUtf8 && !valid_utf8(bytes@),
        },
{
    match string_from_utf8(bytes) {
        Ok(s) => Ok(s),
        Err(e) => Err(ProtocolError::InvalidUtf8(e)),
    }
}

/// What a reader gets back of a message framed for ASCII content: the
/// header gives the number of bytes that follow, and the only string those
/// bytes encode is the content.
pub proof fn law_frame_then_read(content: Seq<char>, received: Seq<char>)
    requires
        is_ascii_chars(content),
        spec_frame(content).len() <= MAX_MSG_SIZE,
    ensures
        ({
            let m = spec_frame(content);
            &&& le_value(m[0], m[1], m[2], m[3]) == m.len() - 4
            &&& (encode_utf8(received) == m.skip(4) ==> received == content)
        }),
{
    let m = spec_frame(content);
    is_ascii_chars_encode_utf8(content);
    lemma_u32_bytes_roundtrip(content.len() as u32);
    assert(m.skip(4) =~= encode_utf8(content));
    if encode_utf8(received) == m.skip(4) {
        encode_utf8_decode_utf8(received);
        encode_utf8_decode_utf8(content);
    }
}

} // verus!
