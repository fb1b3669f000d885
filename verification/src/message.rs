//! The fixed twelve-byte request prefix read by the first version of the
//! broker: size, API key, API version and correlation id.
use vstd::prelude::*;
use crate::wire::{be_u16_at, be_u32_at, fits, signed16, signed32, ByteCursor, Fault};

verus! {

/// The header fields that follow the size of a request.
#[derive(Debug, Clone, Copy, PartialEq, Eq)]
pub struct RequestHeader {
    pub request_api_key: i16,
    pub request_api_version: i16,
    pub correlation_id: i32,
}

/// A request prefix together with the error code of the reply to it.
#[derive(Debug, Clone, Copy, PartialEq, Eq)]
pub struct Message {
    pub message_size: i32,
    pub request_header: RequestHeader,
    pub body: Body,
}

/// The body of the reply: its error code.
#[derive(Debug, Clone, Copy, PartialEq, Eq)]
pub struct Body {
    pub error_code: i16,
}

/// Why a prefix could not be read.
#[derive(Debug, Clone, PartialEq, Eq)]
pub enum Error {
    /// Fewer bytes than the prefix needs.
    Incomplete,
    /// Any other failure, described in words.
    Other(String),
}

impl View for Error {
    type V = Fault;

    open spec fn view(&self) -> Fault {
        match self {
            Error::Incomplete => Fault::Incomplete,
            Error::Other(m) => Fault::Message(m@),
        }
    }
}

impl Error {
    /// The text the error is shown with.
    pub fn message(&self) -> (s: String)
        ensures
            self is Incomplete ==> s@ == "stream ended early"@,
            self matches Error::Other(m) ==> s@ == m@,
    {
        match self {
            Error::Incomplete => String::from_str("stream ended early"),
            Error::Other(m) => m.clone(),
        }
    }
}

/// The error code for an API version: `35` (UNSUPPORTED_VERSION) above
/// version 4, `0` otherwise.
pub open spec fn version_error_code(version: int) -> i16 {
    if version > 4 { 35 } else { 0 }
}

/// The prefix held by the twelve bytes at `p`.
pub open spec fn message_at(d: Seq<u8>, p: int) -> Message {
    let version = signed16(be_u16_at(d, p + 6));
    Message {
        message_size: signed32(be_u32_at(d, p)) as i32,
        request_header: RequestHeader {
            request_api_key: signed16(be_u16_at(d, p + 4)) as i16,
            request_api_version: version as i16,
            correlation_id: signed32(be_u32_at(d, p + 8)) as i32,
        },
        body: Body { error_code: version_error_code(version) },
    }
}

/// Where reading a prefix at `p` stops: after the last field that was
/// complete.
pub open spec fn message_stop(d: Seq<u8>, p: int) -> int {
    if !fits(d, p, 4) {
        p
    } else if !fits(d, p, 6) {
        p + 4
    } else if !fits(d, p, 8) {
        p + 6
    } else if !fits(d, p, 12) {
        p + 8
    } else {
        p + 12
    }
}

impl Message {
    /// Reads a request prefix at the cursor and decides the error code of
    /// the reply to it.
    pub fn parse_message(src: &mut ByteCursor) -> (r: Result<Message, Error>)
        ensures
            final(src).data == old(src).data,
            final(src).pos == message_stop(old(src).data@, old(src).pos as int),
            r is Ok <==> fits(old(src).data@, old(src).pos as int, 12),
            r matches Ok(m) ==> m == message_at(old(src).data@, old(src).pos as int),
            r matches Err(e) ==> e is Incomplete,
    {
        let message_size = get_i32(src)?;
        let request_api_key = get_i16(src)?;
        let request_api_version = get_i16(src)?;
        let correlation_id = get_i32(src)?;

        let request_header = RequestHeader { request_api_key, request_api_version, correlation_id };

        let mut error_code: i16 = 0;
        if request_api_version > 4 {
            error_code = 35;
        }

        let body = Body { error_code };

        Ok(Message { message_size, request_header, body })
    }
}

fn get_i16(src: &mut ByteCursor) -> (r: Result<i16, Error>)
    ensures
        final(src).data == old(src).data,
        match r {
            Ok(v) => fits(old(src).data@, old(src).pos as int, 2)
                && v == signed16(be_u16_at(old(src).data@, old(src).pos as int))
                && final(src).pos == old(src).pos + 2,
            Err(e) => !fits(old(src).data@, old(src).pos as int, 2)
                && e is Incomplete
                && final(src).pos == old(src).pos,
        },
{
    match src.read_i16() {
        Some(v) => Ok(v),
        None => Err(Error::Incomplete),
    }
}

fn get_i32(src: &mut ByteCursor) -> (r: Result<i32, Error>)
    ensures
        final(src).data == old(src).data,
        match r {
            Ok(v) => fits(old(src).data@, old(src).pos as int, 4)
                && v == signed32(be_u32_at(old(src).data@, old(src).pos as int))
                && final(src).pos == old(src).pos + 4,
            Err(e) => !fits(old(src).data@, old(src).pos as int, 4)
                && e is Incomplete
                && final(src).pos == old(src).pos,
        },
{
    match src.read_i32() {
        Some(v) => Ok(v),
        None => Err(Error::Incomplete),
    }
}

/// Moves the cursor `n` bytes forward, or reports `Incomplete` when fewer
/// are left.
pub fn skip(src: &mut ByteCursor, n: usize) -> (r: Result<(), Error>)
    ensures
        final(src).data == old(src).data,
        r is Ok <==> n <= old(src).left(),
        r is Ok ==> final(src).pos == old(src).pos + n,
        r matches Err(e) ==> e is Incomplete && final(src).pos == old(src).pos,
{
    if src.remaining() < n {
        return Err(Error::Incomplete);
    }
    src.advance(n);
    Ok(())
}

} // verus!
