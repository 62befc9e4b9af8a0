use vstd::prelude::*;

verus! {

use crate::wire::{
    be32_encode, elem_bytes, request_serializable, response_serializable, spec_encode_request,
    spec_encode_response, RequestView, ResponseView,
};
use crate::{Request, Response};
use vstd::string::StringSliceAdditionalSpecFns;

/// Appends the four big-endian bytes of `n`.
fn push_be32(data: &mut Vec<u8>, n: u32)
    ensures
        final(data)@ == old(data)@ + be32_encode(n),
{
    proof {
        vstd::arithmetic::div_mod::lemma_div_is_ordered(n as int, 0xFFFFFFFF, 0x1000000);
        vstd::arithmetic::div_mod::lemma_div_pos_is_pos(n as int, 0x1000000);
    }
    data.push((n / 0x1000000) as u8);
    data.push(((n / 0x10000) % 0x100) as u8);
    data.push(((n / 0x100) % 0x100) as u8);
    data.push((n % 0x100) as u8);
    proof {
        assert(final(data)@ =~= old(data)@ + be32_encode(n));
    }
}

/// Appends the bytes of `s` as one length-prefixed element.
fn push_element(data: &mut Vec<u8>, s: &str)
    requires
        s.spec_bytes().len() <= u32::MAX,
    ensures
        final(data)@ == old(data)@ + elem_bytes(s@),
{
    let bytes = s.as_bytes();
    push_be32(data, bytes.len() as u32);
    let ghost mid = data@;
    let mut i: usize = 0;
    while i < bytes.len()
        invariant
            i <= bytes@.len(),
            data@ == mid + bytes@.take(i as int),
        decreases bytes@.len() - i,
    {
        data.push(bytes[i]);
        proof {
            assert(data@ =~= mid + bytes@.take(i + 1));
        }
        i = i + 1;
    }
    proof {
        assert(bytes@.take(bytes@.len() as int) =~= bytes@);
        assert(final(data)@ =~= old(data)@ + elem_bytes(s@));
    }
}

/// Encodes a request into its wire bytes: an opcode, then each string field
/// as a length-prefixed element.
pub fn serialize_request(request: Request<'_>) -> (data: Vec<u8>)
    requires
        request_serializable(request@),
    ensures
        data@ == spec_encode_request(request@),
{
    match request {
        Request::Get(key) => {
            let mut data = Vec::new();
            data.push(1);
            push_element(&mut data, key);
            proof {
                assert(data@ =~= spec_encode_request(RequestView::Get { key: key@ }));
            }
            data
        },
        Request::Put { key, value } => {
            let mut data = Vec::new();
            data.push(2);
            push_element(&mut data, key);
            push_element(&mut data, value);
            proof {
                assert(data@ =~= spec_encode_request(
                    RequestView::Put { key: key@, value: value@ },
                ));
            }
            data
        },
        Request::Delete(key) => {
            let mut data = Vec::new();
            data.push(3);
            push_element(&mut data, key);
            proof {
                assert(data@ =~= spec_encode_request(RequestView::Delete { key: key@ }));
            }
            data
        },
        Request::Flush => {
            let mut data = Vec::new();
            data.push(4);
            proof {
                assert(data@ =~= spec_encode_request(RequestView::Flush));
            }
            data
        },
    }
}

/// Encodes a response into its wire bytes: a bare opcode, except that a
/// GET reply carrying a value appends it as one length-prefixed element.
pub fn serialize_response(response: &Response) -> (data: Vec<u8>)
    requires
        response_serializable(response@),
    ensures
        data@ == spec_encode_response(response@),
{
    match response {
        Response::Get(Some(value)) => {
            let mut data = Vec::new();
            data.push(1);
            push_element(&mut data, value.as_str());
            proof {
                assert(data@ =~= spec_encode_response(
                    ResponseView::Get { value: Some(value@) },
                ));
            }
            data
        },
        Response::Get(None) => {
            let mut data = Vec::new();
            data.push(1);
            proof {
                assert(data@ =~= spec_encode_response(ResponseView::Get { value: None }));
            }
            data
        },
        Response::Put => {
            let mut data = Vec::new();
            data.push(2);
            proof {
                assert(data@ =~= spec_encode_response(ResponseView::Put));
            }
            data
        },
        Response::Delete => {
            let mut data = Vec::new();
            data.push(3);
            proof {
                assert(data@ =~= spec_encode_response(ResponseView::Delete));
            }
            data
        },
        Response::Flush => {
            let mut data = Vec::new();
            data.push(4);
            proof {
                assert(data@ =~= spec_encode_response(ResponseView::Flush));
            }
            data
        },
    }
}

} // verus!
