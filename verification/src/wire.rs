use vstd::prelude::*;
use vstd::utf8::{decode_utf8, encode_utf8, valid_utf8};

verus! {

// ---------------------------------------------------------------------------
// Mathematical models of the wire values.
//
// A request or response is modelled with its string fields as character
// sequences; the wire carries each field as UTF-8 bytes behind a big-endian
// 32-bit length.
// ---------------------------------------------------------------------------

/// Model of a request.
pub enum RequestView {
    Get { key: Seq<char> },
    Put { key: Seq<char>, value: Seq<char> },
    Delete { key: Seq<char> },
    Flush,
}

/// Model of a response.
pub enum ResponseView {
    Get { value: Option<Seq<char>> },
    Put,
    Delete,
    Flush,
}

/// Outcome of reading one length-prefixed element at a position.
pub enum ElemStep {
    /// Not enough bytes, or a zero length (reserved as "no frame yet").
    NeedMore,
    /// The element is fully present but its bytes are not valid UTF-8.
    Bad,
    /// The element's characters, and the position just past it.
    Elem { data: Seq<char>, end: int },
}

/// Outcome of decoding a request from a byte sequence.
pub enum ParseStep {
    Incomplete,
    Malformed,
    Frame { req: RequestView, n: int },
}

/// Outcome of decoding a response from a byte sequence.
pub enum RespParseStep {
    Incomplete,
    Malformed,
    Frame { resp: ResponseView, n: int },
}

// ---------------------------------------------------------------------------
// Big-endian 32-bit lengths.
// ---------------------------------------------------------------------------

/// The four big-endian bytes of `n`.
pub open spec fn be32_encode(n: u32) -> Seq<u8> {
    seq![
        (n / 0x1000000) as u8,
        ((n / 0x10000) % 0x100) as u8,
        ((n / 0x100) % 0x100) as u8,
        (n % 0x100) as u8,
    ]
}

/// The value of four big-endian bytes.
pub open spec fn be32_decode(s: Seq<u8>) -> u32
    recommends
        s.len() == 4,
{
    ((s[0] as int) * 0x1000000 + (s[1] as int) * 0x10000 + (s[2] as int) * 0x100 + (s[3] as int)) as u32
}

pub proof fn lemma_be32_round_trip(n: u32)
    ensures
        be32_decode(be32_encode(n)) == n,
{
    let x = n as int;
    let q1 = x / 0x100;
    let q2 = x / 0x10000;
    let q3 = x / 0x1000000;
    vstd::arithmetic::div_mod::lemma_fundamental_div_mod(x, 0x100);
    vstd::arithmetic::div_mod::lemma_fundamental_div_mod(q1, 0x100);
    vstd::arithmetic::div_mod::lemma_fundamental_div_mod(q2, 0x100);
    vstd::arithmetic::div_mod::lemma_div_denominator(x, 0x100, 0x100);
    assert(0x100 * 0x100 == 0x10000);
    vstd::arithmetic::div_mod::lemma_div_denominator(x, 0x10000, 0x100);
    assert(0x10000 * 0x100 == 0x1000000);
    assert(q1 / 0x100 == q2);
    assert(q2 / 0x100 == q3);
    vstd::arithmetic::div_mod::lemma_div_is_ordered(x, 0xFFFFFFFF, 0x1000000);
    assert(q3 <= 0xFF);
    vstd::arithmetic::div_mod::lemma_div_pos_is_pos(x, 0x1000000);
    assert(x == 0x100 * (0x100 * (0x100 * q3 + q2 % 0x100) + q1 % 0x100) + x % 0x100);
}

// ---------------------------------------------------------------------------
// Elements: a u32 length followed by that many UTF-8 bytes.
// ---------------------------------------------------------------------------

/// Wire bytes of one element.
pub open spec fn elem_bytes(s: Seq<char>) -> Seq<u8> {
    be32_encode(encode_utf8(s).len() as u32) + encode_utf8(s)
}

/// An element can be carried on the wire: it is non-empty (a zero length is
/// reserved as "no frame yet") and its length fits in a u32.
pub open spec fn elem_wf(s: Seq<char>) -> bool {
    1 <= encode_utf8(s).len() <= u32::MAX
}

/// The position just past the element that starts at `pos`, going by the
/// length bytes alone.
pub open spec fn elem_end(s: Seq<u8>, pos: int) -> int {
    pos + 4 + be32_decode(s.subrange(pos, pos + 4)) as int
}

/// Reads the element that starts at `pos`: four length bytes, then that many
/// bytes of UTF-8.
pub open spec fn spec_read_element(s: Seq<u8>, pos: int) -> ElemStep
    recommends
        0 <= pos <= s.len(),
{
    if s.len() < pos + 4 {
        ElemStep::NeedMore
    } else {
        let size = be32_decode(s.subrange(pos, pos + 4)) as int;
        if size == 0 {
            ElemStep::NeedMore
        } else if s.len() < pos + 4 + size {
            ElemStep::NeedMore
        } else {
            let bytes = s.subrange(pos + 4, pos + 4 + size);
            if valid_utf8(bytes) {
                ElemStep::Elem { data: decode_utf8(bytes), end: pos + 4 + size }
            } else {
                ElemStep::Bad
            }
        }
    }
}

// ---------------------------------------------------------------------------
// Requests on the wire.
// ---------------------------------------------------------------------------

/// Decodes a request from the start of `s`.
///
/// Opcode 0 is reserved: the server parses prefixes of a zero-filled buffer,
/// so a zero opcode, like any opcode above 4, reads as "no frame yet".
pub open spec fn spec_parse_request(s: Seq<u8>) -> ParseStep {
    if s.len() == 0 {
        ParseStep::Incomplete
    } else if s[0] == 1 {
        match spec_read_element(s, 1) {
            ElemStep::NeedMore => ParseStep::Incomplete,
            ElemStep::Bad => ParseStep::Malformed,
            ElemStep::Elem { data, end } => ParseStep::Frame {
                req: RequestView::Get { key: data },
                n: end,
            },
        }
    } else if s[0] == 2 {
        match spec_read_element(s, 1) {
            ElemStep::NeedMore => ParseStep::Incomplete,
            ElemStep::Bad => ParseStep::Malformed,
            ElemStep::Elem { data: key, end: key_end } => match spec_read_element(s, key_end) {
                ElemStep::NeedMore => ParseStep::Incomplete,
                ElemStep::Bad => ParseStep::Malformed,
                ElemStep::Elem { data: value, end } => ParseStep::Frame {
                    req: RequestView::Put { key, value },
                    n: end,
                },
            },
        }
    } else if s[0] == 3 {
        match spec_read_element(s, 1) {
            ElemStep::NeedMore => ParseStep::Incomplete,
            ElemStep::Bad => ParseStep::Malformed,
            ElemStep::Elem { data, end } => ParseStep::Frame {
                req: RequestView::Delete { key: data },
                n: end,
            },
        }
    } else if s[0] == 4 {
        ParseStep::Frame { req: RequestView::Flush, n: 1 }
    } else {
        ParseStep::Incomplete
    }
}

/// Wire bytes of a request.
pub open spec fn spec_encode_request(r: RequestView) -> Seq<u8> {
    match r {
        RequestView::Get { key } => seq![1u8] + elem_bytes(key),
        RequestView::Put { key, value } => seq![2u8] + elem_bytes(key) + elem_bytes(value),
        RequestView::Delete { key } => seq![3u8] + elem_bytes(key),
        RequestView::Flush => seq![4u8],
    }
}

/// A request can be carried on the wire: each field is a wire-carriable
/// element.
pub open spec fn request_wf(r: RequestView) -> bool {
    match r {
        RequestView::Get { key } => elem_wf(key),
        RequestView::Put { key, value } => elem_wf(key) && elem_wf(value),
        RequestView::Delete { key } => elem_wf(key),
        RequestView::Flush => true,
    }
}

// ---------------------------------------------------------------------------
// Responses on the wire.
// ---------------------------------------------------------------------------

/// Decodes a response from the start of `s`.
///
/// A value-less GET reply is a bare opcode, so an opcode 1 with fewer than
/// four following bytes reads greedily as "no value"; four length bytes
/// followed by a truncated value read as "incomplete".
pub open spec fn spec_parse_response(s: Seq<u8>) -> RespParseStep {
    if s.len() == 0 {
        RespParseStep::Incomplete
    } else if s[0] == 1 {
        if s.len() < 5 {
            RespParseStep::Frame { resp: ResponseView::Get { value: None }, n: 1 }
        } else {
            let size = be32_decode(s.subrange(1, 5)) as int;
            if size == 0 {
                RespParseStep::Frame { resp: ResponseView::Get { value: None }, n: 1 }
            } else if s.len() < 5 + size {
                RespParseStep::Incomplete
            } else {
                let bytes = s.subrange(5, 5 + size);
                if valid_utf8(bytes) {
                    RespParseStep::Frame {
                        resp: ResponseView::Get { value: Some(decode_utf8(bytes)) },
                        n: 5 + size,
                    }
                } else {
                    RespParseStep::Malformed
                }
            }
        }
    } else if s[0] == 2 {
        RespParseStep::Frame { resp: ResponseView::Put, n: 1 }
    } else if s[0] == 3 {
        RespParseStep::Frame { resp: ResponseView::Delete, n: 1 }
    } else if s[0] == 4 {
        RespParseStep::Frame { resp: ResponseView::Flush, n: 1 }
    } else {
        RespParseStep::Incomplete
    }
}

/// Wire bytes of a response.
pub open spec fn spec_encode_response(r: ResponseView) -> Seq<u8> {
    match r {
        ResponseView::Get { value: None } => seq![1u8],
        ResponseView::Get { value: Some(v) } => seq![1u8] + elem_bytes(v),
        ResponseView::Put => seq![2u8],
        ResponseView::Delete => seq![3u8],
        ResponseView::Flush => seq![4u8],
    }
}

/// A response can be carried on the wire.
pub open spec fn response_wf(r: ResponseView) -> bool {
    match r {
        ResponseView::Get { value: Some(v) } => elem_wf(v),
        _ => true,
    }
}

/// The string fields of `r` are short enough for their 32-bit length prefix.
pub open spec fn request_serializable(r: RequestView) -> bool {
    match r {
        RequestView::Get { key } => encode_utf8(key).len() <= u32::MAX,
        RequestView::Put { key, value } => encode_utf8(key).len() <= u32::MAX && encode_utf8(
            value,
        ).len() <= u32::MAX,
        RequestView::Delete { key } => encode_utf8(key).len() <= u32::MAX,
        RequestView::Flush => true,
    }
}

/// The value of `r`, if any, is short enough for its 32-bit length prefix.
pub open spec fn response_serializable(r: ResponseView) -> bool {
    match r {
        ResponseView::Get { value: Some(v) } => encode_utf8(v).len() <= u32::MAX,
        _ => true,
    }
}

/// A decoded frame is wire-carriable: its fields came off the wire behind
/// 32-bit lengths, so each is non-empty and fits its length prefix.
pub proof fn lemma_parse_request_wf(s: Seq<u8>)
    requires
        spec_parse_request(s) matches ParseStep::Frame { req, n },
    ensures
        spec_parse_request(s) matches ParseStep::Frame { req, n } ==> request_wf(req)
            && request_serializable(req),
{
    if s.len() >= 1 && (s[0] == 1 || s[0] == 2 || s[0] == 3) {
        lemma_read_element_wf(s, 1);
        if s[0] == 2 {
            match spec_read_element(s, 1) {
                ElemStep::Elem { data, end } => {
                    lemma_read_element_wf(s, end);
                },
                _ => {},
            }
        }
    }
}

/// An element read off the wire is wire-carriable.
proof fn lemma_read_element_wf(s: Seq<u8>, pos: int)
    requires
        0 <= pos,
        spec_read_element(s, pos) matches ElemStep::Elem { data, end },
    ensures
        spec_read_element(s, pos) matches ElemStep::Elem { data, end } ==> elem_wf(data),
{
    match spec_read_element(s, pos) {
        ElemStep::Elem { data, end } => {
            let size = be32_decode(s.subrange(pos, pos + 4)) as int;
            let bytes = s.subrange(pos + 4, pos + 4 + size);
            vstd::utf8::decode_utf8_encode_utf8(bytes);
            assert(encode_utf8(data) == bytes);
        },
        _ => {},
    }
}

// ---------------------------------------------------------------------------
// Reading an element where the encoder put one.
// ---------------------------------------------------------------------------

pub proof fn lemma_read_element_at(prefix: Seq<u8>, data: Seq<char>, rest: Seq<u8>)
    requires
        elem_wf(data),
    ensures
        spec_read_element(prefix + elem_bytes(data) + rest, prefix.len() as int) == (ElemStep::Elem {
            data,
            end: prefix.len() + 4 + encode_utf8(data).len() as int,
        }),
{
    let s = prefix + elem_bytes(data) + rest;
    let pos = prefix.len() as int;
    let eb = encode_utf8(data);
    let n = eb.len() as int;
    assert(s.len() == pos + 4 + n + rest.len());
    assert(s.subrange(pos, pos + 4) =~= be32_encode(n as u32));
    lemma_be32_round_trip(n as u32);
    assert(be32_decode(s.subrange(pos, pos + 4)) as int == n);
    assert(s.subrange(pos + 4, pos + 4 + n) =~= eb);
    vstd::utf8::encode_utf8_valid_utf8(data);
    vstd::utf8::encode_utf8_decode_utf8(data);
}

// ---------------------------------------------------------------------------
// Stability: a non-"need more" element result never changes when more bytes
// arrive, and prefixes shorter than the element read as "need more".
// ---------------------------------------------------------------------------

pub proof fn lemma_read_element_stable(s: Seq<u8>, ext: Seq<u8>, pos: int)
    requires
        0 <= pos,
        !(spec_read_element(s, pos) is NeedMore),
    ensures
        spec_read_element(s + ext, pos) == spec_read_element(s, pos),
{
    assert(s.len() >= pos + 4);
    assert((s + ext).subrange(pos, pos + 4) =~= s.subrange(pos, pos + 4));
    let size = be32_decode(s.subrange(pos, pos + 4)) as int;
    assert((s + ext).subrange(pos + 4, pos + 4 + size) =~= s.subrange(pos + 4, pos + 4 + size));
}

pub proof fn lemma_read_element_take(s: Seq<u8>, pos: int, c: int)
    requires
        0 <= pos,
        pos + 4 <= c <= s.len(),
        !(spec_read_element(s, pos) is NeedMore),
    ensures
        c < elem_end(s, pos) ==> spec_read_element(s.take(c), pos) is NeedMore,
        c >= elem_end(s, pos) ==> spec_read_element(s.take(c), pos) == spec_read_element(s, pos),
{
    assert(s.len() >= pos + 4);
    assert(s.take(c).subrange(pos, pos + 4) =~= s.subrange(pos, pos + 4));
    let size = be32_decode(s.subrange(pos, pos + 4)) as int;
    if c >= elem_end(s, pos) {
        assert(s.take(c).subrange(pos + 4, pos + 4 + size) =~= s.subrange(pos + 4, pos + 4 + size));
    }
}

pub proof fn lemma_parse_request_bounds(s: Seq<u8>)
    requires
        spec_parse_request(s) matches ParseStep::Frame { req, n },
    ensures
        spec_parse_request(s) matches ParseStep::Frame { req, n } ==> 1 <= n <= s.len(),
{
}

pub proof fn lemma_parse_request_stable(s: Seq<u8>, ext: Seq<u8>)
    requires
        !(spec_parse_request(s) is Incomplete),
    ensures
        spec_parse_request(s + ext) == spec_parse_request(s),
{
    let t = s + ext;
    assert(s.len() >= 1);
    assert(t[0] == s[0]);
    if s[0] == 1 || s[0] == 3 {
        lemma_read_element_stable(s, ext, 1);
    } else if s[0] == 2 {
        lemma_read_element_stable(s, ext, 1);
        match spec_read_element(s, 1) {
            ElemStep::Elem { data, end } => {
                lemma_read_element_stable(s, ext, end);
            },
            _ => {},
        }
    }
}

pub proof fn lemma_parse_request_take(s: Seq<u8>, c: int)
    requires
        0 <= c <= s.len(),
        spec_parse_request(s) matches ParseStep::Frame { req, n },
    ensures
        spec_parse_request(s) matches ParseStep::Frame { req, n } ==> {
            &&& c < n ==> spec_parse_request(s.take(c)) is Incomplete
            &&& c >= n ==> spec_parse_request(s.take(c)) == spec_parse_request(s)
        },
{
    let u = s.take(c);
    if c == 0 {
    } else {
        assert(u[0] == s[0]);
        if s[0] == 1 || s[0] == 3 {
            if c < 1 + 4 {
                assert(spec_read_element(u, 1) is NeedMore);
            } else {
                lemma_read_element_take(s, 1, c);
            }
        } else if s[0] == 2 {
            let e1 = spec_read_element(s, 1);
            match e1 {
                ElemStep::Elem { data, end } => {
                    if c < 1 + 4 {
                        assert(spec_read_element(u, 1) is NeedMore);
                    } else {
                        lemma_read_element_take(s, 1, c);
                        if c >= elem_end(s, 1) {
                            assert(end == elem_end(s, 1));
                            if c < end + 4 {
                                assert(spec_read_element(u, end) is NeedMore);
                            } else {
                                lemma_read_element_take(s, end, c);
                            }
                        }
                    }
                },
                _ => {},
            }
        }
    }
}

// ---------------------------------------------------------------------------
// Round trips: decoding an encoded value gives the value back and consumes
// exactly its bytes.
// ---------------------------------------------------------------------------

/// Law: every wire-carriable request round-trips through the codec, and the
/// decoder consumes exactly the encoded bytes.
pub proof fn lemma_request_round_trip(r: RequestView)
    requires
        request_wf(r),
    ensures
        spec_parse_request(spec_encode_request(r)) == (ParseStep::Frame {
            req: r,
            n: spec_encode_request(r).len() as int,
        }),
{
    let s = spec_encode_request(r);
    match r {
        RequestView::Get { key } => {
            assert(s =~= seq![1u8] + elem_bytes(key) + Seq::<u8>::empty());
            lemma_read_element_at(seq![1u8], key, Seq::<u8>::empty());
            assert(s[0] == 1);
        },
        RequestView::Put { key, value } => {
            assert(s =~= seq![2u8] + elem_bytes(key) + elem_bytes(value));
            lemma_read_element_at(seq![2u8], key, elem_bytes(value));
            assert(s[0] == 2);
            let key_end = 1 + 4 + encode_utf8(key).len() as int;
            let prefix2 = seq![2u8] + elem_bytes(key);
            assert(prefix2.len() == key_end);
            assert(s =~= prefix2 + elem_bytes(value) + Seq::<u8>::empty());
            lemma_read_element_at(prefix2, value, Seq::<u8>::empty());
        },
        RequestView::Delete { key } => {
            assert(s =~= seq![3u8] + elem_bytes(key) + Seq::<u8>::empty());
            lemma_read_element_at(seq![3u8], key, Seq::<u8>::empty());
            assert(s[0] == 3);
        },
        RequestView::Flush => {
            assert(s[0] == 4);
        },
    }
}

/// A prefix of a value-carrying reply that covers the length bytes, but
/// not the whole value, decodes as incomplete.
pub proof fn lemma_parse_response_take(s: Seq<u8>, c: int)
    requires
        spec_parse_response(s) matches RespParseStep::Frame { resp, n },
        (spec_parse_response(s) matches RespParseStep::Frame { resp, n } ==> n > 1),
        5 <= c <= s.len(),
        (spec_parse_response(s) matches RespParseStep::Frame { resp, n } ==> c < n),
    ensures
        spec_parse_response(s.take(c)) is Incomplete,
{
    let u = s.take(c);
    assert(u[0] == s[0]);
    assert(u.subrange(1, 5) =~= s.subrange(1, 5));
}

/// Law: every wire-carriable response round-trips through the codec, and the
/// decoder consumes exactly the encoded bytes.
pub proof fn lemma_response_round_trip(r: ResponseView)
    requires
        response_wf(r),
    ensures
        spec_parse_response(spec_encode_response(r)) == (RespParseStep::Frame {
            resp: r,
            n: spec_encode_response(r).len() as int,
        }),
{
    let s = spec_encode_response(r);
    match r {
        ResponseView::Get { value: Some(v) } => {
            let eb = encode_utf8(v);
            let n = eb.len() as int;
            assert(s.len() == 5 + n);
            assert(s[0] == 1);
            assert(s.subrange(1, 5) =~= be32_encode(n as u32));
            lemma_be32_round_trip(n as u32);
            assert(be32_decode(s.subrange(1, 5)) as int == n);
            assert(s.subrange(5, 5 + n) =~= eb);
            vstd::utf8::encode_utf8_valid_utf8(v);
            vstd::utf8::encode_utf8_decode_utf8(v);
        },
        ResponseView::Get { value: None } => {
            assert(s[0] == 1);
        },
        ResponseView::Put => {
            assert(s[0] == 2);
        },
        ResponseView::Delete => {
            assert(s[0] == 3);
        },
        ResponseView::Flush => {
            assert(s[0] == 4);
        },
    }
}

/// Law: encoding is injective on wire-carriable requests; together with
/// the round trip this makes every encoded request a unique byte sequence.
pub proof fn lemma_encode_request_injective(a: RequestView, b: RequestView)
    requires
        request_wf(a),
        request_wf(b),
        spec_encode_request(a) == spec_encode_request(b),
    ensures
        a == b,
{
    lemma_request_round_trip(a);
    lemma_request_round_trip(b);
}

/// Law: encoding is injective on wire-carriable responses.
pub proof fn lemma_encode_response_injective(a: ResponseView, b: ResponseView)
    requires
        response_wf(a),
        response_wf(b),
        spec_encode_response(a) == spec_encode_response(b),
    ensures
        a == b,
{
    lemma_response_round_trip(a);
    lemma_response_round_trip(b);
}

} // verus!
