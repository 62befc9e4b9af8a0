//! An in-memory key-value cache spoken to over a stream of length-prefixed
//! binary frames.
//!
//! The heart of the crate is the connection framing: requests arrive over a
//! reliable byte stream, are buffered in a re-used, bounded, growable
//! buffer, decoded incrementally, applied to a string-to-string store, and
//! answered in order. The [`wire`] module gives the byte-exact model of the
//! protocol, [`server`] the framing state machine and its laws, [`db`] the
//! store, and [`client`] the reply side; the caller that owns the sockets
//! drives these with plain reads and writes.

use vstd::prelude::*;

pub mod client;
pub mod db;
pub mod error;
pub mod serialization;
pub mod server;
pub mod wire;

pub use crate::client::{receive_response, ResponseReader};
pub use crate::db::{Database, DB};
pub use crate::error::{ClientError, DatabaseError, Error, ParsingError, ServerError};
pub use crate::serialization::{serialize_request, serialize_response};
pub use crate::server::{apply_request, handle_connection, Framer, ServerBuilder};

verus! {

use crate::wire::{
    be32_decode, spec_parse_request, spec_parse_response, spec_read_element, ElemStep, ParseStep,
    RequestView, RespParseStep, ResponseView,
};
use vstd::string::StringSliceAdditionalSpecFns;
use vstd::utf8::valid_utf8;

/// A request received from a client, with its string fields borrowed from
/// the connection buffer.
pub enum Request<'a> {
    Get(&'a str),
    Put { key: &'a str, value: &'a str },
    Delete(&'a str),
    Flush,
}

/// A reply from the server.
#[derive(Debug, PartialEq)]
pub enum Response {
    Get(Option<String>),
    Put,
    Delete,
    Flush,
}

impl<'a> View for Request<'a> {
    type V = RequestView;

    open spec fn view(&self) -> RequestView {
        match self {
            Request::Get(key) => RequestView::Get { key: key@ },
            Request::Put { key, value } => RequestView::Put { key: key@, value: value@ },
            Request::Delete(key) => RequestView::Delete { key: key@ },
            Request::Flush => RequestView::Flush,
        }
    }
}

impl View for Response {
    type V = ResponseView;

    open spec fn view(&self) -> ResponseView {
        match self {
            Response::Get(Some(value)) => ResponseView::Get { value: Some(value@) },
            Response::Get(None) => ResponseView::Get { value: None },
            Response::Put => ResponseView::Put,
            Response::Delete => ResponseView::Delete,
            Response::Flush => ResponseView::Flush,
        }
    }
}

/// Relies on core::str::from_utf8: it succeeds exactly on valid UTF-8 input
/// and returns a string slice whose bytes are the input bytes.
#[verifier::external_body]
fn utf8_from_bytes(bytes: &[u8]) -> (r: Option<&str>)
    ensures
        r is Some <==> valid_utf8(bytes@),
        r matches Some(s) ==> s.spec_bytes() == bytes@,
{
    match core::str::from_utf8(bytes) {
        Ok(s) => Some(s),
        Err(_) => None,
    }
}

/// Reads an element (key or value) from the buffer and advances the cursor
/// past it; the cursor moves only when a whole valid element is present.
fn read_element<'a>(input: &'a [u8], cursor: &mut usize) -> (r: Result<Option<&'a str>, Error>)
    requires
        *old(cursor) <= input@.len(),
    ensures
        spec_read_element(input@, *old(cursor) as int) is NeedMore ==> (r matches Ok(ro)
            && ro is None && *final(cursor) == *old(cursor)),
        spec_read_element(input@, *old(cursor) as int) is Bad ==> r == Err::<Option<&'a str>,
            Error>(Error::Parsing(ParsingError::Utf8Error)),
        spec_read_element(input@, *old(cursor) as int) matches ElemStep::Elem { data, end }
            ==> (r matches Ok(Some(s)) && s@ == data && *final(cursor) == end),
{
    let pos = *cursor;
    // The element's length is serialized with 4 bytes.
    if input.len() - pos < 4 {
        return Ok(None);
    }
    let b0 = input[pos];
    let b1 = input[pos + 1];
    let b2 = input[pos + 2];
    let b3 = input[pos + 3];
    let size: u32 = (b0 as u32) * 0x1000000 + (b1 as u32) * 0x10000 + (b2 as u32) * 0x100
        + (b3 as u32);
    proof {
        assert(input@.subrange(pos as int, pos + 4)[0] == b0);
        assert(input@.subrange(pos as int, pos + 4)[1] == b1);
        assert(input@.subrange(pos as int, pos + 4)[2] == b2);
        assert(input@.subrange(pos as int, pos + 4)[3] == b3);
        assert(be32_decode(input@.subrange(pos as int, pos + 4)) == size);
    }
    if size == 0 {
        return Ok(None);
    }
    let start = pos + 4;
    if input.len() - start < size as usize {
        return Ok(None);
    }
    let end = start + size as usize;
    let bytes = vstd::slice::slice_subrange(input, start, end);
    match utf8_from_bytes(bytes) {
        Some(s) => {
            proof {
                vstd::utf8::encode_utf8_decode_utf8(s@);
            }
            *cursor = end;
            Ok(Some(s))
        },
        None => Err(Error::Parsing(ParsingError::Utf8Error)),
    }
}

/// Decodes a request from the start of `input`.
///
/// Returns `Ok(None)` when no complete frame is present yet (including a
/// zero opcode, an opcode above 4, and a zero-length field: the server runs
/// this parser over the zero-filled tail of a partially filled buffer, so
/// those read as "no frame yet"). Returns the request and the number of
/// bytes it occupies otherwise, and an error when a string field of a
/// complete frame is not valid UTF-8.
pub fn parse_request<'a>(input: &'a [u8]) -> (r: Result<Option<(Request<'a>, usize)>, Error>)
    ensures
        spec_parse_request(input@) is Incomplete ==> (r matches Ok(ro) && ro is None),
        spec_parse_request(input@) is Malformed ==> r == Err::<Option<(Request<'a>, usize)>,
            Error>(Error::Parsing(ParsingError::Utf8Error)),
        spec_parse_request(input@) matches ParseStep::Frame { req, n } ==> (r matches Ok(
            Some((rq, m)),
        ) && rq@ == req && m == n),
{
    if input.len() == 0 {
        return Ok(None);
    }
    let op = input[0];
    let mut cursor: usize = 1;
    // Opcode 0 is reserved: the buffer is zero-initialised, so a zero opcode
    // means "not yet filled", never a protocol error.
    match op {
        1u8 => match read_element(input, &mut cursor) {
            Err(e) => Err(e),
            Ok(None) => Ok(None),
            Ok(Some(key)) => Ok(Some((Request::Get(key), cursor))),
        },
        2u8 => match read_element(input, &mut cursor) {
            Err(e) => Err(e),
            Ok(None) => Ok(None),
            Ok(Some(key)) => match read_element(input, &mut cursor) {
                Err(e) => Err(e),
                Ok(None) => Ok(None),
                Ok(Some(value)) => Ok(Some((Request::Put { key, value }, cursor))),
            },
        },
        3u8 => match read_element(input, &mut cursor) {
            Err(e) => Err(e),
            Ok(None) => Ok(None),
            Ok(Some(key)) => Ok(Some((Request::Delete(key), cursor))),
        },
        4u8 => Ok(Some((Request::Flush, 1))),
        _ => Ok(None),
    }
}

/// Decodes a response from the start of `input`.
///
/// A bare opcode 1 is a value-less GET reply; opcode 1 followed by a length
/// and a truncated value is an incomplete frame (`Ok(None)`).
pub fn parse_response(input: &[u8]) -> (r: Result<Option<Response>, Error>)
    ensures
        spec_parse_response(input@) is Incomplete ==> (r matches Ok(ro) && ro is None),
        spec_parse_response(input@) is Malformed ==> r == Err::<Option<Response>, Error>(
            Error::Parsing(ParsingError::Utf8Error),
        ),
        spec_parse_response(input@) matches RespParseStep::Frame { resp, n } ==> (r matches Ok(
            Some(rp),
        ) && rp@ == resp),
{
    if input.len() == 0 {
        return Ok(None);
    }
    let op = input[0];
    match op {
        1u8 => {
            if input.len() < 5 {
                return Ok(Some(Response::Get(None)));
            }
            let b0 = input[1];
            let b1 = input[2];
            let b2 = input[3];
            let b3 = input[4];
            let size: u32 = (b0 as u32) * 0x1000000 + (b1 as u32) * 0x10000 + (b2 as u32)
                * 0x100 + (b3 as u32);
            proof {
                assert(input@.subrange(1, 5)[0] == b0);
                assert(input@.subrange(1, 5)[1] == b1);
                assert(input@.subrange(1, 5)[2] == b2);
                assert(input@.subrange(1, 5)[3] == b3);
                assert(be32_decode(input@.subrange(1, 5)) == size);
            }
            if size == 0 {
                return Ok(Some(Response::Get(None)));
            }
            if input.len() - 5 < size as usize {
                return Ok(None);
            }
            let end = 5 + size as usize;
            let bytes = vstd::slice::slice_subrange(input, 5, end);
            match utf8_from_bytes(bytes) {
                Some(s) => {
                    proof {
                        vstd::utf8::encode_utf8_decode_utf8(s@);
                    }
                    Ok(Some(Response::Get(Some(s.to_owned()))))
                },
                None => Err(Error::Parsing(ParsingError::Utf8Error)),
            }
        },
        2u8 => Ok(Some(Response::Put)),
        3u8 => Ok(Some(Response::Delete)),
        4u8 => Ok(Some(Response::Flush)),
        _ => Ok(None),
    }
}

} // verus!
