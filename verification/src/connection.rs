//! What a connection decides about the bytes it has read and the bytes it
//! writes: where a request prefix ends, how a reply is laid out, and what
//! an early end of the stream is reported as.
use vstd::prelude::*;
use crate::message::{message_at, Error, Message};
use crate::wire::{
    be_u16_at, be_u32_at, i16_be, i32_be, lemma_i16_roundtrip, lemma_i32_roundtrip, push_i16_be, push_i32_be,
    signed16, signed32, ByteCursor,
};

verus! {

/// Reads the request prefix at the front of the bytes received so far;
/// gives it with the number of bytes it took, or `Incomplete` when more
/// bytes are needed.
pub fn parse_buffered(buffer: &[u8]) -> (r: Result<(Message, usize), Error>)
    ensures
        r is Ok <==> buffer@.len() >= 12,
        r matches Ok((m, n)) ==> m == message_at(buffer@, 0) && n == 12,
        r matches Err(e) ==> e is Incomplete,
{
    let mut cursor = ByteCursor::new(buffer);
    match Message::parse_message(&mut cursor) {
        Ok(message) => {
            let len = cursor.position() as usize;
            Ok((message, len))
        },
        Err(err) => Err(err),
    }
}

/// The reply to a prefix on the wire: its size, its correlation id and the
/// error code, each big-endian.
pub open spec fn reply_bytes(m: Message) -> Seq<u8> {
    i32_be(m.message_size as int) + i32_be(m.request_header.correlation_id as int) + i16_be(
        m.body.error_code as int,
    )
}

/// The reply decodes back to the prefix's size, correlation id and error
/// code.
pub proof fn law_reply_decodes(m: Message)
    ensures
        ({
            let out = reply_bytes(m);
            &&& out.len() == 10
            &&& signed32(be_u32_at(out, 0)) == m.message_size
            &&& signed32(be_u32_at(out, 4)) == m.request_header.correlation_id
            &&& signed16(be_u16_at(out, 8)) == m.body.error_code
        }),
{
    lemma_i32_roundtrip(m.message_size);
    lemma_i32_roundtrip(m.request_header.correlation_id);
    lemma_i16_roundtrip(m.body.error_code);
    let a = i32_be(m.message_size as int);
    let b = i32_be(m.request_header.correlation_id as int);
    let c = i16_be(m.body.error_code as int);
    let out = reply_bytes(m);
    assert(out[4] == b[0] && out[5] == b[1] && out[6] == b[2] && out[7] == b[3]);
    assert(out[8] == c[0] && out[9] == c[1]);
    assert(out[0] == a[0] && out[1] == a[1] && out[2] == a[2] && out[3] == a[3]);
}

/// The bytes of the reply to a prefix.
pub fn encode_reply(message: &Message) -> (out: Vec<u8>)
    ensures
        out@ == reply_bytes(*message),
{
    let mut out: Vec<u8> = Vec::new();
    push_i32_be(&mut out, message.message_size);
    push_i32_be(&mut out, message.request_header.correlation_id);
    push_i16_be(&mut out, message.body.error_code);
    out
}

/// What a stream that ended before a whole request arrived is reported as:
/// an empty message when nothing was received, a reset connection
/// otherwise.
pub fn end_of_stream_error(buffered: usize) -> (s: String)
    ensures
        buffered == 0 ==> s@ == "empty message"@,
        buffered != 0 ==> s@ == "connection reset by peer"@,
{
    if buffered == 0 {
        String::from_str("empty message")
    } else {
        String::from_str("connection reset by peer")
    }
}

} // verus!
