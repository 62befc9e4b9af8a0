use vstd::prelude::*;

verus! {

use crate::db::DB;
use crate::error::{Error, ParsingError, ServerError};
use crate::serialization::serialize_response;
use crate::wire::{
    elem_wf, lemma_parse_request_bounds, lemma_parse_request_stable, lemma_parse_request_take,
    lemma_parse_request_wf, request_wf, response_serializable, spec_encode_request,
    spec_encode_response, spec_parse_request, ParseStep, RequestView, ResponseView,
};
use crate::{parse_request, Request, Response};
use vstd::utf8::encode_utf8;

/// Default per-connection read buffer start, in bytes.
pub const DEFAULT_INITIAL_BUFFER_SIZE: usize = 4096;

/// Default per-connection read buffer cap, in bytes.
pub const DEFAULT_MAX_BUFFER_SIZE: usize = 1024 * 1024;

/// Default store pre-allocation hint, in entries.
pub const DEFAULT_INITIAL_DB_SIZE: usize = 1024 * 1024;

/// A `ServerBuilder` collects the configuration of a server: the address it
/// listens at, the store pre-allocation hint, and the per-connection buffer
/// sizes. The caller that owns the listening socket turns it into a running
/// server.
pub struct ServerBuilder<A> {
    pub addr: Option<A>,
    pub initial_db_size: Option<usize>,
    pub initial_buffer_size: Option<usize>,
    pub max_buffer_size: Option<usize>,
}

impl<A> Default for ServerBuilder<A> {
    fn default() -> (r: Self)
        ensures
            r.addr is None,
            r.initial_db_size is None,
            r.initial_buffer_size is None,
            r.max_buffer_size is None,
    {
        ServerBuilder {
            addr: None,
            initial_db_size: None,
            initial_buffer_size: None,
            max_buffer_size: None,
        }
    }
}

impl<A> ServerBuilder<A> {
    /// Creates a new `ServerBuilder` with nothing configured.
    pub fn new() -> (r: Self)
        ensures
            r.addr is None,
            r.initial_db_size is None,
            r.initial_buffer_size is None,
            r.max_buffer_size is None,
    {
        Self::default()
    }

    /// Sets the address the server listens at. Its validity is not checked
    /// here, but only when the server is started.
    pub fn address(self, addr: A) -> (r: Self)
        ensures
            r.addr == Some(addr),
            r.initial_db_size == self.initial_db_size,
            r.initial_buffer_size == self.initial_buffer_size,
            r.max_buffer_size == self.max_buffer_size,
    {
        ServerBuilder { addr: Some(addr), ..self }
    }

    /// Sets the initial memory allocation of the database.
    pub fn initial_db_size(self, initial_db_size: usize) -> (r: Self)
        ensures
            r.addr == self.addr,
            r.initial_db_size == Some(initial_db_size),
            r.initial_buffer_size == self.initial_buffer_size,
            r.max_buffer_size == self.max_buffer_size,
    {
        ServerBuilder { initial_db_size: Some(initial_db_size), ..self }
    }

    /// Sets the initial buffer size in bytes for every new incoming
    /// connection to the server.
    pub fn initial_buffer_size(self, initial_buffer_size: usize) -> (r: Self)
        ensures
            r.addr == self.addr,
            r.initial_db_size == self.initial_db_size,
            r.initial_buffer_size == Some(initial_buffer_size),
            r.max_buffer_size == self.max_buffer_size,
    {
        ServerBuilder { initial_buffer_size: Some(initial_buffer_size), ..self }
    }

    /// Sets the maximum buffer size in bytes for every new incoming
    /// connection to the server. A client that sends more than this number
    /// of bytes without completing a frame has its connection closed.
    pub fn max_buffer_size(self, max_buffer_size: usize) -> (r: Self)
        ensures
            r.addr == self.addr,
            r.initial_db_size == self.initial_db_size,
            r.initial_buffer_size == self.initial_buffer_size,
            r.max_buffer_size == Some(max_buffer_size),
    {
        ServerBuilder { max_buffer_size: Some(max_buffer_size), ..self }
    }
}

// ---------------------------------------------------------------------------
// Applying one request to the store.
// ---------------------------------------------------------------------------

/// The store after one request, and the reply to it.
pub open spec fn spec_apply(m: Map<Seq<char>, Seq<char>>, r: RequestView) -> (
    Map<Seq<char>, Seq<char>>,
    ResponseView,
) {
    match r {
        RequestView::Get { key } => (
            m,
            ResponseView::Get {
                value: if m.contains_key(key) {
                    Some(m[key])
                } else {
                    None
                },
            },
        ),
        RequestView::Put { key, value } => (m.insert(key, value), ResponseView::Put),
        RequestView::Delete { key } => (m.remove(key), ResponseView::Delete),
        RequestView::Flush => (Map::empty(), ResponseView::Flush),
    }
}

/// Every value in the store fits behind a 32-bit length prefix, so every
/// reply built from the store can be encoded.
pub open spec fn store_values_bounded(m: Map<Seq<char>, Seq<char>>) -> bool {
    forall|k: Seq<char>| #[trigger] m.contains_key(k) ==> encode_utf8(m[k]).len() <= u32::MAX
}

/// Applying a wire-carriable request keeps the store's values bounded and
/// yields an encodable reply.
pub proof fn lemma_apply_bounded(m: Map<Seq<char>, Seq<char>>, r: RequestView)
    requires
        store_values_bounded(m),
        request_wf(r),
    ensures
        store_values_bounded(spec_apply(m, r).0),
        response_serializable(spec_apply(m, r).1),
{
}

/// Applies one request to the store and returns the reply for it.
pub fn apply_request(request: &Request<'_>, db: &mut DB) -> (resp: Response)
    requires
        old(db).wf(),
    ensures
        final(db).wf(),
        final(db)@ == spec_apply(old(db)@, request@).0,
        resp@ == spec_apply(old(db)@, request@).1,
{
    match request {
        Request::Get(key) => Response::Get(db.get(key)),
        Request::Put { key, value } => {
            db.insert((*key).to_owned(), (*value).to_owned());
            Response::Put
        },
        Request::Delete(key) => {
            db.remove(key);
            Response::Delete
        },
        Request::Flush => {
            db.clear();
            Response::Flush
        },
    }
}

// ---------------------------------------------------------------------------
// The framing state machine, as a mathematical interpreter.
//
// `spec_feed` mirrors the connection loop exactly: drain every complete
// frame from the pending bytes, then check the buffer cap, grow the buffer
// by doubling when it is full, move bytes from the undelivered data into
// the window, and repeat.
// ---------------------------------------------------------------------------

/// How a feeding step ended.
pub enum FeedStatus {
    /// All delivered bytes are consumed or buffered; the connection waits
    /// for more.
    Ready,
    /// The buffer cap was reached without completing a frame.
    TooMuchData,
    /// A complete frame held a string that was not valid UTF-8.
    Malformed,
}

/// The connection state after feeding bytes: the buffered partial frame,
/// the buffer's allocated size, the replies emitted, the store, and how the
/// step ended.
pub struct FeedModel {
    pub pend: Seq<u8>,
    pub cap: nat,
    pub responses: Seq<ResponseView>,
    pub store: Map<Seq<char>, Seq<char>>,
    pub status: FeedStatus,
}

/// Feeds `data` to a connection whose buffer holds `pend` of `cap` allocated
/// bytes, draining frames into the store as they complete.
#[verifier::opaque]
pub open spec fn spec_feed(
    pend: Seq<u8>,
    cap: nat,
    data: Seq<u8>,
    m: Map<Seq<char>, Seq<char>>,
    max: nat,
) -> FeedModel
    decreases data.len(), pend.len(),
        via spec_feed_decreases
{
    match spec_parse_request(pend) {
        ParseStep::Frame { req, n } => {
            let rest = spec_feed(pend.skip(n), cap, data, spec_apply(m, req).0, max);
            FeedModel {
                pend: rest.pend,
                cap: rest.cap,
                responses: seq![spec_apply(m, req).1] + rest.responses,
                store: rest.store,
                status: rest.status,
            }
        },
        ParseStep::Malformed => FeedModel {
            pend,
            cap,
            responses: Seq::empty(),
            store: m,
            status: FeedStatus::Malformed,
        },
        ParseStep::Incomplete => {
            if cap >= max {
                FeedModel {
                    pend,
                    cap,
                    responses: Seq::empty(),
                    store: m,
                    status: FeedStatus::TooMuchData,
                }
            } else {
                let cap2 = if pend.len() == cap {
                    if 2 * cap < max {
                        2 * cap
                    } else {
                        max
                    }
                } else {
                    cap
                };
                let w = if cap2 >= pend.len() {
                    cap2 - pend.len()
                } else {
                    0
                };
                let k = if w <= data.len() {
                    w as int
                } else {
                    data.len() as int
                };
                if k == 0 {
                    FeedModel {
                        pend,
                        cap: cap2,
                        responses: Seq::empty(),
                        store: m,
                        status: FeedStatus::Ready,
                    }
                } else {
                    spec_feed(pend + data.take(k), cap2, data.skip(k), m, max)
                }
            }
        },
    }
}

#[via_fn]
proof fn spec_feed_decreases(
    pend: Seq<u8>,
    cap: nat,
    data: Seq<u8>,
    m: Map<Seq<char>, Seq<char>>,
    max: nat,
) {
    match spec_parse_request(pend) {
        ParseStep::Frame { req, n } => {
            lemma_parse_request_bounds(pend);
        },
        _ => {},
    }
}


/// One unfolding of `spec_feed`: a complete frame is applied and consumed.
pub proof fn lemma_feed_frame(
    pend: Seq<u8>,
    cap: nat,
    data: Seq<u8>,
    m: Map<Seq<char>, Seq<char>>,
    max: nat,
)
    requires
        spec_parse_request(pend) matches ParseStep::Frame { req, n },
    ensures
        spec_parse_request(pend) matches ParseStep::Frame { req, n } ==> ({
            let rest = spec_feed(pend.skip(n), cap, data, spec_apply(m, req).0, max);
            spec_feed(pend, cap, data, m, max) == (FeedModel {
                pend: rest.pend,
                cap: rest.cap,
                responses: seq![spec_apply(m, req).1] + rest.responses,
                store: rest.store,
                status: rest.status,
            })
        }),
{
    reveal(spec_feed);
}

/// One unfolding of `spec_feed`: a malformed frame stops the connection.
pub proof fn lemma_feed_malformed(
    pend: Seq<u8>,
    cap: nat,
    data: Seq<u8>,
    m: Map<Seq<char>, Seq<char>>,
    max: nat,
)
    requires
        spec_parse_request(pend) is Malformed,
    ensures
        spec_feed(pend, cap, data, m, max) == (FeedModel {
            pend,
            cap,
            responses: Seq::<ResponseView>::empty(),
            store: m,
            status: FeedStatus::Malformed,
        }),
{
    reveal(spec_feed);
}

/// One unfolding of `spec_feed`: no complete frame is buffered, so the
/// machine checks the cap, grows the buffer when it is full, and moves
/// bytes into the window.
pub proof fn lemma_feed_incomplete(
    pend: Seq<u8>,
    cap: nat,
    data: Seq<u8>,
    m: Map<Seq<char>, Seq<char>>,
    max: nat,
)
    requires
        spec_parse_request(pend) is Incomplete,
    ensures
        cap >= max ==> spec_feed(pend, cap, data, m, max) == (FeedModel {
            pend,
            cap,
            responses: Seq::<ResponseView>::empty(),
            store: m,
            status: FeedStatus::TooMuchData,
        }),
        cap < max ==> ({
            let cap2 = if pend.len() == cap {
                if 2 * cap < max {
                    2 * cap
                } else {
                    max
                }
            } else {
                cap
            };
            let w = if cap2 >= pend.len() {
                cap2 - pend.len()
            } else {
                0
            };
            let k = if w <= data.len() {
                w as int
            } else {
                data.len() as int
            };
            &&& (k == 0 ==> spec_feed(pend, cap, data, m, max) == (FeedModel {
                pend,
                cap: cap2,
                responses: Seq::<ResponseView>::empty(),
                store: m,
                status: FeedStatus::Ready,
            }))
            &&& (k != 0 ==> spec_feed(pend, cap, data, m, max) == spec_feed(
                pend + data.take(k),
                cap2,
                data.skip(k),
                m,
                max,
            ))
        }),
{
    reveal(spec_feed);
}

/// The byte stream of a sequence of replies, in order.
pub open spec fn flat_responses(rs: Seq<ResponseView>) -> Seq<u8>
    decreases rs.len(),
{
    if rs.len() == 0 {
        Seq::empty()
    } else {
        spec_encode_response(rs[0]) + flat_responses(rs.skip(1))
    }
}

/// Appends the bytes of `bytes` to `out`.
fn append_bytes(out: &mut Vec<u8>, bytes: &Vec<u8>)
    ensures
        final(out)@ == old(out)@ + bytes@,
{
    let ghost base = out@;
    let mut i: usize = 0;
    while i < bytes.len()
        invariant
            i <= bytes@.len(),
            out@ == base + bytes@.take(i as int),
        decreases bytes@.len() - i,
    {
        out.push(bytes[i]);
        proof {
            assert(out@ =~= base + bytes@.take(i + 1));
        }
        i = i + 1;
    }
    proof {
        assert(bytes@.take(bytes@.len() as int) =~= bytes@);
    }
}

pub proof fn lemma_flat_responses_push(rs: Seq<ResponseView>, r: ResponseView)
    ensures
        flat_responses(rs.push(r)) == flat_responses(rs) + spec_encode_response(r),
    decreases rs.len(),
{
    if rs.len() == 0 {
        assert(rs.push(r).skip(1) =~= Seq::<ResponseView>::empty());
        assert(rs.push(r)[0] == r);
        assert(flat_responses(Seq::<ResponseView>::empty()) == Seq::<u8>::empty());
        assert(flat_responses(rs.push(r)) == spec_encode_response(r) + Seq::<u8>::empty());
        assert(spec_encode_response(r) + Seq::<u8>::empty() =~= flat_responses(rs)
            + spec_encode_response(r));
    } else {
        assert(rs.push(r).skip(1) =~= rs.skip(1).push(r));
        assert(rs.push(r)[0] == rs[0]);
        lemma_flat_responses_push(rs.skip(1), r);
        assert(flat_responses(rs.push(r)) == spec_encode_response(rs[0]) + (flat_responses(
            rs.skip(1),
        ) + spec_encode_response(r)));
        assert(spec_encode_response(rs[0]) + (flat_responses(rs.skip(1)) + spec_encode_response(r))
            =~= (spec_encode_response(rs[0]) + flat_responses(rs.skip(1))) + spec_encode_response(
            r,
        ));
    }
}

// ---------------------------------------------------------------------------
// The server-side connection framer.
// ---------------------------------------------------------------------------

/// The per-connection read buffer: a re-used, bounded, growable byte buffer
/// of length `cap()`, filled up to a cursor with the bytes of the next
/// (partial) frame.
pub struct Framer {
    buf: Vec<u8>,
    cursor: usize,
    max: usize,
}

impl Framer {
    /// The buffered bytes that no parsed frame has consumed yet.
    pub closed spec fn pending(&self) -> Seq<u8> {
        self.buf@.take(self.cursor as int)
    }

    /// The buffer's allocated length.
    pub closed spec fn cap(&self) -> nat {
        self.buf@.len()
    }

    /// The buffer cap this framer was made with.
    pub closed spec fn max_size(&self) -> nat {
        self.max as nat
    }

    /// The framer's internal invariant: the fill never passes the length.
    pub closed spec fn wf(&self) -> bool {
        self.cursor <= self.buf@.len()
    }

    /// A fresh framer with a zero-filled buffer of the initial size.
    pub fn new(initial_buffer_size: usize, max_buffer_size: usize) -> (f: Framer)
        ensures
            f.wf(),
            f.pending() == Seq::<u8>::empty(),
            f.cap() == initial_buffer_size as nat,
            f.max_size() == max_buffer_size as nat,
    {
        let f = Framer { buf: vec![0u8; initial_buffer_size], cursor: 0, max: max_buffer_size };
        proof {
            assert(f.pending() =~= Seq::<u8>::empty());
        }
        f
    }

    /// Delivers bytes read from the connection, window by window: every
    /// complete frame in the buffer is applied to the store and its encoded
    /// reply appended to `out` before more bytes are accepted; the buffer
    /// grows by doubling, up to the cap, only when it is full.
    ///
    /// The behaviour is exactly `spec_feed` on the delivered bytes: the
    /// connection must be closed on an error, and a `TooMuchData` or
    /// `Malformed` outcome leaves the rest of the chunk undelivered.
    #[verifier::rlimit(80)]
    pub fn feed(&mut self, chunk: &[u8], db: &mut DB, out: &mut Vec<u8>) -> (r: Result<(), Error>)
        requires
            old(self).wf(),
            old(db).wf(),
            store_values_bounded(old(db)@),
        ensures
            final(self).wf(),
            final(db).wf(),
            store_values_bounded(final(db)@),
            final(self).max_size() == old(self).max_size(),
            // The buffer never outgrows the cap it started within.
            old(self).cap() <= old(self).max_size() ==> final(self).cap() <= old(
                self,
            ).max_size(),
            ({
                let fm = spec_feed(
                    old(self).pending(),
                    old(self).cap(),
                    chunk@,
                    old(db)@,
                    old(self).max_size(),
                );
                &&& final(self).pending() == fm.pend
                &&& final(self).cap() == fm.cap
                &&& final(db)@ == fm.store
                &&& final(out)@ == old(out)@ + flat_responses(fm.responses)
                &&& (fm.status is Ready ==> r is Ok)
                &&& (fm.status is TooMuchData ==> r == Err::<(), Error>(
                    Error::Server(ServerError::TooMuchData),
                ))
                &&& (fm.status is Malformed ==> r == Err::<(), Error>(
                    Error::Parsing(ParsingError::Utf8Error),
                ))
            }),
    {
        let ghost max_g = self.max;
        let ghost fm = spec_feed(self.pending(), self.cap(), chunk@, db@, self.max as nat);
        let ghost out0 = out@;
        let ghost mut emitted = Seq::<ResponseView>::empty();
        let mut ci: usize = 0;
        proof {
            assert(chunk@.skip(0) =~= chunk@);
            assert(fm.responses =~= Seq::<ResponseView>::empty() + fm.responses);
            if self.cap() <= self.max_size() {
                lemma_feed_cap_bounded(self.pending(), self.cap(), chunk@, db@, self.max_size());
            }
        }
        loop
            invariant
                self.wf(),
                db.wf(),
                store_values_bounded(db@),
                self.max == max_g,
                max_g == old(self).max,
                out0 == old(out)@,
                fm == spec_feed(
                    old(self).pending(),
                    old(self).cap(),
                    chunk@,
                    old(db)@,
                    old(self).max_size(),
                ),
                old(self).cap() <= old(self).max_size() ==> fm.cap <= old(self).max_size(),
                ci <= chunk@.len(),
                out@ == out0 + flat_responses(emitted),
                ({
                    let cur = spec_feed(
                        self.pending(),
                        self.cap(),
                        chunk@.skip(ci as int),
                        db@,
                        max_g as nat,
                    );
                    &&& fm.pend == cur.pend
                    &&& fm.cap == cur.cap
                    &&& fm.store == cur.store
                    &&& fm.status == cur.status
                    &&& fm.responses == emitted + cur.responses
                }),
            decreases chunk@.len() - ci, self.cursor,
        {
            let ghost p = self.pending();
            let ghost cpre = self.cap();
            let ghost m_pre = db@;
            let ghost rest_data = chunk@.skip(ci as int);
            let ghost cur = spec_feed(p, cpre, rest_data, m_pre, max_g as nat);
            let pending_slice = vstd::slice::slice_subrange(self.buf.as_slice(), 0, self.cursor);
            proof {
                assert(pending_slice@ == p);
            }
            match parse_request(pending_slice) {
                Err(_) => {
                    proof {
                        lemma_feed_malformed(p, cpre, rest_data, m_pre, max_g as nat);
                        assert(fm.responses =~= emitted);
                    }
                    return Err(Error::Parsing(ParsingError::Utf8Error));
                },
                Ok(Some((req, n))) => {
                    proof {
                        lemma_parse_request_bounds(p);
                        lemma_parse_request_wf(p);
                        lemma_apply_bounded(m_pre, req@);
                        lemma_feed_frame(p, cpre, rest_data, m_pre, max_g as nat);
                    }
                    let resp = apply_request(&req, db);
                    let resp_bytes = serialize_response(&resp);
                    append_bytes(out, &resp_bytes);
                    let ghost em0 = emitted;
                    proof {
                        lemma_flat_responses_push(em0, resp@);
                        emitted = em0.push(resp@);
                    }
                    // Move the bytes that were not parsed yet to the front,
                    // so that repeated sends on one connection do not run
                    // into the buffer cap.
                    let count = self.cursor - n;
                    let ghost cur0 = self.cursor;
                    let mut j: usize = 0;
                    while j < count
                        invariant
                            n + count == cur0,
                            self.cursor == cur0,
                            self.max == max_g,
                            cur0 <= self.buf@.len(),
                            self.buf@.len() == cpre,
                            j <= count,
                            forall|l: int| 0 <= l < j ==> #[trigger] self.buf@[l] == p[n + l],
                            forall|l: int| j <= l < count ==> #[trigger] self.buf@[n + l] == p[n
                                + l],
                        decreases count - j,
                    {
                        let b = self.buf[n + j];
                        self.buf[j] = b;
                        j = j + 1;
                    }
                    self.cursor = count;
                    proof {
                        assert(self.pending() =~= p.skip(n as int));
                        let rest = spec_feed(
                            p.skip(n as int),
                            cpre,
                            rest_data,
                            spec_apply(m_pre, req@).0,
                            max_g as nat,
                        );
                        assert(cur.responses == seq![resp@] + rest.responses);
                        assert(em0 + cur.responses =~= emitted + rest.responses);
                        assert(fm.responses == emitted + rest.responses);
                    }
                },
                Ok(None) => {
                    proof {
                        lemma_feed_incomplete(p, cpre, rest_data, m_pre, max_g as nat);
                    }
                    if self.buf.len() >= self.max {
                        proof {
                            assert(fm.responses =~= emitted);
                        }
                        return Err(Error::Server(ServerError::TooMuchData));
                    }
                    if self.cursor == self.buf.len() {
                        let newlen = if self.buf.len() < self.max - self.buf.len() {
                            2 * self.buf.len()
                        } else {
                            self.max
                        };
                        self.buf.resize(newlen, 0u8);
                        proof {
                            assert(self.pending() =~= p);
                        }
                    }
                    let w = self.buf.len() - self.cursor;
                    let avail = chunk.len() - ci;
                    let k = if w < avail {
                        w
                    } else {
                        avail
                    };
                    proof {
                        assert(self.pending() == p);
                    }
                    if k == 0 {
                        proof {
                            assert(cur.status is Ready);
                            assert(cur.pend == p && cur.cap == self.cap() && cur.store == m_pre);
                            assert(fm.responses =~= emitted);
                        }
                        return Ok(());
                    }
                    proof {
                        assert(cur == spec_feed(
                            p + rest_data.take(k as int),
                            self.cap(),
                            rest_data.skip(k as int),
                            m_pre,
                            max_g as nat,
                        ));
                    }
                    let ghost cap2 = self.cap();
                    let ghost cur0 = self.cursor;
                    let ghost ci0 = ci;
                    let mut j: usize = 0;
                    while j < k
                        invariant
                            self.cursor == cur0,
                            self.max == max_g,
                            ci == ci0,
                            cur0 + k <= self.buf@.len(),
                            ci0 + k <= chunk@.len(),
                            chunk@.len() <= usize::MAX,
                            self.buf@.len() == cap2,
                            cap2 <= usize::MAX,
                            p.len() == cur0,
                            j <= k,
                            forall|l: int| 0 <= l < cur0 ==> #[trigger] self.buf@[l] == p[l],
                            forall|l: int| 0 <= l < j ==> #[trigger] self.buf@[cur0 + l] == chunk@[
                                ci0 + l],
                        decreases k - j,
                    {
                        let b = chunk[ci + j];
                        self.buf[self.cursor + j] = b;
                        j = j + 1;
                    }
                    self.cursor = self.cursor + k;
                    ci = ci + k;
                    proof {
                        assert(rest_data.take(k as int).len() == k);
                        assert forall|l: int| 0 <= l < cur0 + k implies self.buf@.take(
                            (cur0 + k) as int,
                        )[l] == (p + rest_data.take(k as int))[l] by {
                            if cur0 <= l {
                                assert(self.buf@[cur0 + (l - cur0)] == chunk@[ci0 + (l - cur0)]);
                            }
                        }
                        assert(self.pending() =~= p + rest_data.take(k as int));
                        assert(chunk@.skip(ci as int) =~= rest_data.skip(k as int));
                    }
                },
            }
        }
    }

    /// The end-of-stream decision: a clean close when no partial frame is
    /// buffered, a reset by the peer otherwise.
    pub fn finish(&self) -> (r: Result<(), Error>)
        requires
            self.wf(),
        ensures
            self.pending().len() == 0 ==> r is Ok,
            self.pending().len() != 0 ==> r == Err::<(), Error>(
                Error::Server(ServerError::ConnectionResetByPeer),
            ),
    {
        if self.cursor == 0 {
            proof {
                assert(self.pending() =~= Seq::<u8>::empty());
            }
            Ok(())
        } else {
            proof {
                assert(self.pending().len() == self.cursor);
            }
            Err(Error::Server(ServerError::ConnectionResetByPeer))
        }
    }
}

/// Serves one connection whose peer sends exactly `data` and then closes.
///
/// Every complete frame is applied to the store and answered, in order,
/// before the next frame is parsed; the reply bytes are appended to `out`.
/// The read buffer starts at `initial_buffer_size` bytes and grows by
/// doubling up to `max_buffer_size`. The result is exactly what the
/// `spec_feed` machine says of the whole stream: a clean close when nothing
/// is buffered at the end of the stream, and an error on an overrun, on a
/// malformed frame, or on a close mid-frame.
pub fn handle_connection(
    data: &[u8],
    db: &mut DB,
    out: &mut Vec<u8>,
    initial_buffer_size: usize,
    max_buffer_size: usize,
) -> (r: Result<(), Error>)
    requires
        old(db).wf(),
        store_values_bounded(old(db)@),
    ensures
        final(db).wf(),
        store_values_bounded(final(db)@),
        ({
            let fm = spec_feed(
                Seq::<u8>::empty(),
                initial_buffer_size as nat,
                data@,
                old(db)@,
                max_buffer_size as nat,
            );
            &&& final(db)@ == fm.store
            &&& final(out)@ == old(out)@ + flat_responses(fm.responses)
            &&& (fm.status is Ready && fm.pend.len() == 0 ==> r is Ok)
            &&& (fm.status is Ready && fm.pend.len() != 0 ==> r == Err::<(), Error>(
                Error::Server(ServerError::ConnectionResetByPeer),
            ))
            &&& (fm.status is TooMuchData ==> r == Err::<(), Error>(
                Error::Server(ServerError::TooMuchData),
            ))
            &&& (fm.status is Malformed ==> r == Err::<(), Error>(
                Error::Parsing(ParsingError::Utf8Error),
            ))
        }),
{
    let mut framer = Framer::new(initial_buffer_size, max_buffer_size);
    match framer.feed(data, db, out) {
        Ok(()) => framer.finish(),
        Err(e) => Err(e),
    }
}

// ---------------------------------------------------------------------------
// Laws of the store, as seen through one connection's requests.
// ---------------------------------------------------------------------------

/// Law: a GET of `k` right after a SET of `k` returns the value just
/// written, whatever the store held before.
pub proof fn lemma_set_then_get(m: Map<Seq<char>, Seq<char>>, k: Seq<char>, v: Seq<char>)
    ensures
        spec_apply(
            spec_apply(m, RequestView::Put { key: k, value: v }).0,
            RequestView::Get { key: k },
        ).1 == (ResponseView::Get { value: Some(v) }),
{
}

/// Law: a GET of `k` after a SET and then a DELETE of `k` returns no value.
pub proof fn lemma_set_delete_then_get(m: Map<Seq<char>, Seq<char>>, k: Seq<char>, v: Seq<char>)
    ensures
        spec_apply(
            spec_apply(
                spec_apply(m, RequestView::Put { key: k, value: v }).0,
                RequestView::Delete { key: k },
            ).0,
            RequestView::Get { key: k },
        ).1 == (ResponseView::Get { value: None }),
{
}

/// Law: after a FLUSH, a GET of any key returns no value, whether or not it
/// was ever set.
pub proof fn lemma_flush_then_get(m: Map<Seq<char>, Seq<char>>, k: Seq<char>)
    ensures
        spec_apply(spec_apply(m, RequestView::Flush).0, RequestView::Get { key: k }).1
            == (ResponseView::Get { value: None }),
{
}

/// Law: the connection buffer never outgrows the cap. Every state the
/// framer reaches is a `spec_feed` state of some prefix of the stream, and
/// feeding keeps the buffer's allocated length within `max` whenever it
/// starts within `max`.
pub proof fn lemma_feed_cap_bounded(
    pend: Seq<u8>,
    cap: nat,
    data: Seq<u8>,
    m: Map<Seq<char>, Seq<char>>,
    max: nat,
)
    requires
        cap <= max,
    ensures
        spec_feed(pend, cap, data, m, max).cap <= max,
    decreases data.len(), pend.len(),
{
    match spec_parse_request(pend) {
        ParseStep::Frame { req, n } => {
            lemma_parse_request_bounds(pend);
            lemma_feed_frame(pend, cap, data, m, max);
            lemma_feed_cap_bounded(pend.skip(n), cap, data, spec_apply(m, req).0, max);
        },
        ParseStep::Malformed => {
            lemma_feed_malformed(pend, cap, data, m, max);
        },
        ParseStep::Incomplete => {
            lemma_feed_incomplete(pend, cap, data, m, max);
            if cap < max {
                let cap2 = if pend.len() == cap {
                    if 2 * cap < max {
                        2 * cap
                    } else {
                        max
                    }
                } else {
                    cap
                };
                let w = if cap2 >= pend.len() {
                    cap2 - pend.len()
                } else {
                    0
                };
                let k = if w <= data.len() {
                    w as int
                } else {
                    data.len() as int
                };
                if k != 0 {
                    lemma_feed_cap_bounded(pend + data.take(k), cap2, data.skip(k), m, max);
                }
            }
        },
    }
}

// ---------------------------------------------------------------------------
// Greedy draining, without a buffer: what a connection does to a byte
// stream once delivery is taken out of the picture.
// ---------------------------------------------------------------------------

/// The result of draining every complete frame from the front of a byte
/// sequence: the replies in order, the store they leave behind, the bytes
/// of the trailing (partial) frame, and whether a malformed frame stopped
/// the draining.
pub struct DrainModel {
    pub responses: Seq<ResponseView>,
    pub store: Map<Seq<char>, Seq<char>>,
    pub tail: Seq<u8>,
    pub malformed: bool,
}

/// Parses and applies frames from the front of `s` until none is complete.
pub open spec fn spec_drain(s: Seq<u8>, m: Map<Seq<char>, Seq<char>>) -> DrainModel
    decreases s.len(),
        via spec_drain_decreases
{
    match spec_parse_request(s) {
        ParseStep::Frame { req, n } => {
            let rest = spec_drain(s.skip(n), spec_apply(m, req).0);
            DrainModel {
                responses: seq![spec_apply(m, req).1] + rest.responses,
                store: rest.store,
                tail: rest.tail,
                malformed: rest.malformed,
            }
        },
        ParseStep::Malformed => DrainModel {
            responses: Seq::empty(),
            store: m,
            tail: s,
            malformed: true,
        },
        ParseStep::Incomplete => DrainModel {
            responses: Seq::empty(),
            store: m,
            tail: s,
            malformed: false,
        },
    }
}

#[via_fn]
proof fn spec_drain_decreases(s: Seq<u8>, m: Map<Seq<char>, Seq<char>>) {
    match spec_parse_request(s) {
        ParseStep::Frame { req, n } => {
            lemma_parse_request_bounds(s);
        },
        _ => {},
    }
}

/// Law: draining is compositional. Splitting a byte stream anywhere and
/// draining the first part, then the leftover together with the second
/// part, does exactly what draining the whole stream at once does.
pub proof fn lemma_drain_append(a: Seq<u8>, b: Seq<u8>, m: Map<Seq<char>, Seq<char>>)
    ensures
        ({
            let d1 = spec_drain(a, m);
            let d2 = spec_drain(d1.tail + b, d1.store);
            !d1.malformed ==> spec_drain(a + b, m) == (DrainModel {
                responses: d1.responses + d2.responses,
                store: d2.store,
                tail: d2.tail,
                malformed: d2.malformed,
            })
        }),
    decreases a.len(),
{
    let d1 = spec_drain(a, m);
    match spec_parse_request(a) {
        ParseStep::Frame { req, n } => {
            lemma_parse_request_bounds(a);
            lemma_parse_request_stable(a, b);
            assert((a + b).skip(n) =~= a.skip(n) + b);
            lemma_drain_append(a.skip(n), b, spec_apply(m, req).0);
            if !d1.malformed {
                let dr = spec_drain(a.skip(n), spec_apply(m, req).0);
                let d2 = spec_drain(d1.tail + b, d1.store);
                assert(seq![spec_apply(m, req).1] + (dr.responses + d2.responses) =~= (seq![
                    spec_apply(m, req).1,
                ] + dr.responses) + d2.responses);
            }
        },
        ParseStep::Malformed => {},
        ParseStep::Incomplete => {
            assert(d1.tail + b =~= a + b);
            assert(Seq::<ResponseView>::empty() + spec_drain(a + b, m).responses =~= spec_drain(
                a + b,
                m,
            ).responses);
        },
    }
}

// ---------------------------------------------------------------------------
// Safe streams: no frame, and no trailing fragment, comes near the buffer
// cap. Within this zone the buffer never reaches the cap, so delivery
// boundaries cannot matter.
// ---------------------------------------------------------------------------

/// Every complete frame of the stream needs at most half the cap, and so
/// does the trailing fragment.
pub open spec fn spec_drain_safe(s: Seq<u8>, max: nat) -> bool
    decreases s.len(),
        via spec_drain_safe_decreases
{
    match spec_parse_request(s) {
        ParseStep::Frame { req, n } => 2 * n <= max && spec_drain_safe(s.skip(n), max),
        ParseStep::Malformed => 2 * s.len() < max,
        ParseStep::Incomplete => 2 * s.len() < max,
    }
}

#[via_fn]
proof fn spec_drain_safe_decreases(s: Seq<u8>, max: nat) {
    match spec_parse_request(s) {
        ParseStep::Frame { req, n } => {
            lemma_parse_request_bounds(s);
        },
        _ => {},
    }
}

/// A prefix of a safe stream is safe.
pub proof fn lemma_drain_safe_prefix(a: Seq<u8>, b: Seq<u8>, max: nat)
    requires
        spec_drain_safe(a + b, max),
    ensures
        spec_drain_safe(a, max),
    decreases a.len(),
{
    match spec_parse_request(a) {
        ParseStep::Frame { req, n } => {
            lemma_parse_request_bounds(a);
            lemma_parse_request_stable(a, b);
            assert((a + b).skip(n) =~= a.skip(n) + b);
            lemma_drain_safe_prefix(a.skip(n), b, max);
        },
        ParseStep::Malformed => {
            lemma_parse_request_stable(a, b);
            assert(2 * (a + b).len() < max);
        },
        ParseStep::Incomplete => {
            match spec_parse_request(a + b) {
                ParseStep::Frame { req, n } => {
                    assert((a + b).take(a.len() as int) =~= a);
                    lemma_parse_request_take(a + b, a.len() as int);
                    assert(a.len() < n);
                },
                _ => {
                    assert(2 * (a + b).len() < max);
                },
            }
        },
    }
}

/// What is left after draining a prefix of a safe stream, together with
/// the rest of the stream, is safe.
pub proof fn lemma_drain_safe_tail(a: Seq<u8>, b: Seq<u8>, m: Map<Seq<char>, Seq<char>>, max: nat)
    requires
        spec_drain_safe(a + b, max),
    ensures
        spec_drain_safe(spec_drain(a, m).tail + b, max),
    decreases a.len(),
{
    match spec_parse_request(a) {
        ParseStep::Frame { req, n } => {
            lemma_parse_request_bounds(a);
            lemma_parse_request_stable(a, b);
            assert((a + b).skip(n) =~= a.skip(n) + b);
            lemma_drain_safe_tail(a.skip(n), b, spec_apply(m, req).0, max);
        },
        ParseStep::Malformed => {
            assert(spec_drain(a, m).tail + b =~= a + b);
        },
        ParseStep::Incomplete => {
            assert(spec_drain(a, m).tail + b =~= a + b);
        },
    }
}

// ---------------------------------------------------------------------------
// Feeding a safe stream drains it exactly, whatever the chunking.
// ---------------------------------------------------------------------------

/// Law: within the safe zone, feeding equals draining. Delivering `data`
/// to a connection holding `pend` produces exactly the replies and store
/// of greedily draining `pend + data`; the buffer keeps the leftover and
/// never reaches the cap.
pub proof fn lemma_feed_matches_drain(
    pend: Seq<u8>,
    cap: nat,
    data: Seq<u8>,
    m: Map<Seq<char>, Seq<char>>,
    max: nat,
)
    requires
        pend.len() <= cap,
        1 <= cap < max,
        spec_drain_safe(pend + data, max),
    ensures
        ({
            let d = spec_drain(pend + data, m);
            let f = spec_feed(pend, cap, data, m, max);
            &&& f.responses == d.responses
            &&& f.store == d.store
            &&& (f.status is Malformed <==> d.malformed)
            &&& (!d.malformed ==> f.status is Ready && f.pend == d.tail && f.pend.len() <= f.cap
                && 1 <= f.cap < max)
        }),
    decreases data.len(), pend.len(),
{
    let d = spec_drain(pend + data, m);
    match spec_parse_request(pend) {
        ParseStep::Frame { req, n } => {
            lemma_parse_request_bounds(pend);
            lemma_parse_request_stable(pend, data);
            lemma_feed_frame(pend, cap, data, m, max);
            assert((pend + data).skip(n) =~= pend.skip(n) + data);
            lemma_feed_matches_drain(pend.skip(n), cap, data, spec_apply(m, req).0, max);
            let dr = spec_drain(pend.skip(n) + data, spec_apply(m, req).0);
            assert(seq![spec_apply(m, req).1] + dr.responses =~= d.responses);
        },
        ParseStep::Malformed => {
            lemma_parse_request_stable(pend, data);
            lemma_feed_malformed(pend, cap, data, m, max);
        },
        ParseStep::Incomplete => {
            lemma_feed_incomplete(pend, cap, data, m, max);
            let cap2 = if pend.len() == cap {
                if 2 * cap < max {
                    2 * cap
                } else {
                    max
                }
            } else {
                cap
            };
            let w = if cap2 >= pend.len() {
                cap2 - pend.len()
            } else {
                0
            };
            let k = if w <= data.len() {
                w as int
            } else {
                data.len() as int
            };
            // The buffer grows past a frame's need only within the safe
            // bound, so the doubled size stays under the cap.
            match spec_parse_request(pend + data) {
                ParseStep::Frame { req, n } => {
                    assert((pend + data).take(pend.len() as int) =~= pend);
                    lemma_parse_request_take(pend + data, pend.len() as int);
                    assert(pend.len() < n);
                },
                _ => {},
            }
            assert(1 <= cap2 < max);
            if k == 0 {
                assert(data.len() == 0);
                assert(pend + data =~= pend);
            } else {
                assert((pend + data.take(k)) + data.skip(k) =~= pend + data);
                lemma_feed_matches_drain(pend + data.take(k), cap2, data.skip(k), m, max);
            }
        },
    }
}

// ---------------------------------------------------------------------------
// A whole stream of well-formed requests is answered in full.
// ---------------------------------------------------------------------------

/// The concatenated wire bytes of a sequence of requests.
pub open spec fn spec_requests_bytes(reqs: Seq<RequestView>) -> Seq<u8>
    decreases reqs.len(),
{
    if reqs.len() == 0 {
        Seq::empty()
    } else {
        spec_encode_request(reqs[0]) + spec_requests_bytes(reqs.skip(1))
    }
}

/// The replies to a sequence of requests applied in order, and the store
/// they leave behind.
pub open spec fn spec_apply_all(m: Map<Seq<char>, Seq<char>>, reqs: Seq<RequestView>) -> (
    Seq<ResponseView>,
    Map<Seq<char>, Seq<char>>,
)
    decreases reqs.len(),
{
    if reqs.len() == 0 {
        (Seq::empty(), m)
    } else {
        let rest = spec_apply_all(spec_apply(m, reqs[0]).0, reqs.skip(1));
        (seq![spec_apply(m, reqs[0]).1] + rest.0, rest.1)
    }
}

/// Draining the concatenation of whole well-formed frames answers each one
/// in order and leaves nothing behind.
pub proof fn lemma_drain_all_frames(reqs: Seq<RequestView>, m: Map<Seq<char>, Seq<char>>)
    requires
        forall|i: int| 0 <= i < reqs.len() ==> request_wf(#[trigger] reqs[i]),
    ensures
        ({
            let d = spec_drain(spec_requests_bytes(reqs), m);
            &&& d.responses == spec_apply_all(m, reqs).0
            &&& d.store == spec_apply_all(m, reqs).1
            &&& d.tail.len() == 0
            &&& !d.malformed
        }),
    decreases reqs.len(),
{
    let s = spec_requests_bytes(reqs);
    if reqs.len() == 0 {
    } else {
        let e0 = spec_encode_request(reqs[0]);
        crate::wire::lemma_request_round_trip(reqs[0]);
        lemma_parse_request_stable(e0, spec_requests_bytes(reqs.skip(1)));
        assert(s.skip(e0.len() as int) =~= spec_requests_bytes(reqs.skip(1)));
        lemma_drain_all_frames(reqs.skip(1), spec_apply(m, reqs[0]).0);
        let rest = spec_apply_all(spec_apply(m, reqs[0]).0, reqs.skip(1));
        assert(spec_drain(s, m).responses =~= seq![spec_apply(m, reqs[0]).1] + rest.0);
    }
}

/// Law: a stream of N concatenated well-formed requests, each frame within
/// half the buffer cap, is answered with exactly N replies, in request
/// order, and the connection closes cleanly.
pub proof fn lemma_all_requests_answered(
    reqs: Seq<RequestView>,
    m: Map<Seq<char>, Seq<char>>,
    init: nat,
    max: nat,
)
    requires
        forall|i: int| 0 <= i < reqs.len() ==> request_wf(#[trigger] reqs[i]),
        1 <= init < max,
        spec_drain_safe(spec_requests_bytes(reqs), max),
    ensures
        ({
            let f = spec_feed(Seq::<u8>::empty(), init, spec_requests_bytes(reqs), m, max);
            &&& f.responses == spec_apply_all(m, reqs).0
            &&& f.responses.len() == reqs.len()
            &&& f.store == spec_apply_all(m, reqs).1
            &&& f.status is Ready
            &&& f.pend.len() == 0
        }),
{
    let s = spec_requests_bytes(reqs);
    assert(Seq::<u8>::empty() + s =~= s);
    lemma_feed_matches_drain(Seq::<u8>::empty(), init, s, m, max);
    lemma_drain_all_frames(reqs, m);
    lemma_apply_all_len(m, reqs);
}

/// There is one reply per request.
pub proof fn lemma_apply_all_len(m: Map<Seq<char>, Seq<char>>, reqs: Seq<RequestView>)
    ensures
        spec_apply_all(m, reqs).0.len() == reqs.len(),
    decreases reqs.len(),
{
    if reqs.len() != 0 {
        lemma_apply_all_len(spec_apply(m, reqs[0]).0, reqs.skip(1));
    }
}

// ---------------------------------------------------------------------------
// An oversized frame is rejected without touching the store.
// ---------------------------------------------------------------------------

/// Law: when the next frame needs more bytes than the buffer cap, the
/// connection ends with "too much data"; no reply is sent and the store is
/// not touched, from any connection state.
pub proof fn lemma_oversized_frame_rejected(
    pend: Seq<u8>,
    cap: nat,
    data: Seq<u8>,
    m: Map<Seq<char>, Seq<char>>,
    max: nat,
)
    requires
        pend.len() <= cap,
        1 <= cap <= max,
        spec_parse_request(pend + data) matches ParseStep::Frame { req, n },
        (spec_parse_request(pend + data) matches ParseStep::Frame { req, n } ==> n > max),
    ensures
        ({
            let f = spec_feed(pend, cap, data, m, max);
            &&& f.responses == Seq::<ResponseView>::empty()
            &&& f.store == m
            &&& f.status is TooMuchData
        }),
    decreases data.len(),
{
    lemma_parse_request_bounds(pend + data);
    assert((pend + data).take(pend.len() as int) =~= pend);
    lemma_parse_request_take(pend + data, pend.len() as int);
    assert(spec_parse_request(pend) is Incomplete);
    lemma_feed_incomplete(pend, cap, data, m, max);
    if cap >= max {
    } else {
        let cap2 = if pend.len() == cap {
            if 2 * cap < max {
                2 * cap
            } else {
                max
            }
        } else {
            cap
        };
        let w = if cap2 >= pend.len() {
            cap2 - pend.len()
        } else {
            0
        };
        let k = if w <= data.len() {
            w as int
        } else {
            data.len() as int
        };
        assert(pend.len() < cap2 <= max);
        assert(w >= 1);
        match spec_parse_request(pend + data) {
            ParseStep::Frame { req, n } => {
                assert(data.len() >= n - pend.len());
                assert(k == w);
            },
            _ => {},
        }
        assert((pend + data.take(k)) + data.skip(k) =~= pend + data);
        lemma_oversized_frame_rejected(pend + data.take(k), cap2, data.skip(k), m, max);
    }
}

/// A malformed frame found in a prefix is still there in the whole stream.
proof fn lemma_drain_malformed_stable(a: Seq<u8>, b: Seq<u8>, m: Map<Seq<char>, Seq<char>>)
    requires
        spec_drain(a, m).malformed,
    ensures
        spec_drain(a + b, m).malformed,
    decreases a.len(),
{
    match spec_parse_request(a) {
        ParseStep::Frame { req, n } => {
            lemma_parse_request_bounds(a);
            lemma_parse_request_stable(a, b);
            assert((a + b).skip(n) =~= a.skip(n) + b);
            lemma_drain_malformed_stable(a.skip(n), b, spec_apply(m, req).0);
        },
        ParseStep::Malformed => {
            lemma_parse_request_stable(a, b);
        },
        ParseStep::Incomplete => {},
    }
}

// ---------------------------------------------------------------------------
// A stream that fits the buffer whole is also answered in full, even where
// the connection afterwards ends with an overrun instead of a clean close.
// ---------------------------------------------------------------------------

/// Feeding a stream that fits the cap drains it exactly: the replies and
/// the store match greedy draining, whatever the outcome. The buffer holds
/// the whole remainder before it can run out, so nothing is lost.
pub proof fn lemma_feed_emits_all(
    pend: Seq<u8>,
    cap: nat,
    data: Seq<u8>,
    m: Map<Seq<char>, Seq<char>>,
    max: nat,
)
    requires
        pend.len() <= cap,
        1 <= cap,
        pend.len() + data.len() <= max,
        cap >= max ==> data.len() == 0,
    ensures
        ({
            let d = spec_drain(pend + data, m);
            let f = spec_feed(pend, cap, data, m, max);
            &&& f.responses == d.responses
            &&& f.store == d.store
            &&& (f.status is Malformed <==> d.malformed)
        }),
    decreases data.len(), pend.len(),
{
    let d = spec_drain(pend + data, m);
    match spec_parse_request(pend) {
        ParseStep::Frame { req, n } => {
            lemma_parse_request_bounds(pend);
            lemma_parse_request_stable(pend, data);
            lemma_feed_frame(pend, cap, data, m, max);
            assert((pend + data).skip(n) =~= pend.skip(n) + data);
            lemma_feed_emits_all(pend.skip(n), cap, data, spec_apply(m, req).0, max);
            let dr = spec_drain(pend.skip(n) + data, spec_apply(m, req).0);
            assert(seq![spec_apply(m, req).1] + dr.responses =~= d.responses);
        },
        ParseStep::Malformed => {
            lemma_parse_request_stable(pend, data);
            lemma_feed_malformed(pend, cap, data, m, max);
        },
        ParseStep::Incomplete => {
            lemma_feed_incomplete(pend, cap, data, m, max);
            if cap >= max {
                assert(pend + data =~= pend);
            } else {
                let cap2 = if pend.len() == cap {
                    if 2 * cap < max {
                        2 * cap
                    } else {
                        max
                    }
                } else {
                    cap
                };
                let w = if cap2 >= pend.len() {
                    cap2 - pend.len()
                } else {
                    0
                };
                let k = if w <= data.len() {
                    w as int
                } else {
                    data.len() as int
                };
                assert(pend.len() < cap2 <= max);
                if k == 0 {
                    assert(data.len() == 0);
                    assert(pend + data =~= pend);
                } else {
                    assert((pend + data.take(k)) + data.skip(k) =~= pend + data);
                    lemma_feed_emits_all(pend + data.take(k), cap2, data.skip(k), m, max);
                }
            }
        },
    }
}

/// Law: a stream of N concatenated well-formed requests that fits the
/// buffer cap whole is answered with exactly N replies, in request order.
pub proof fn lemma_bounded_stream_answered(
    reqs: Seq<RequestView>,
    m: Map<Seq<char>, Seq<char>>,
    init: nat,
    max: nat,
)
    requires
        forall|i: int| 0 <= i < reqs.len() ==> request_wf(#[trigger] reqs[i]),
        1 <= init < max,
        spec_requests_bytes(reqs).len() <= max,
    ensures
        ({
            let f = spec_feed(Seq::<u8>::empty(), init, spec_requests_bytes(reqs), m, max);
            &&& f.responses == spec_apply_all(m, reqs).0
            &&& f.responses.len() == reqs.len()
            &&& f.store == spec_apply_all(m, reqs).1
        }),
{
    let s = spec_requests_bytes(reqs);
    assert(Seq::<u8>::empty() + s =~= s);
    lemma_feed_emits_all(Seq::<u8>::empty(), init, s, m, max);
    lemma_drain_all_frames(reqs, m);
    lemma_apply_all_len(m, reqs);
}

// ---------------------------------------------------------------------------
// The store laws, over a whole connection.
// ---------------------------------------------------------------------------

/// Law: a connection that sends SET k v and then GET k, in frames that fit
/// the buffer cap, is answered with the acknowledgement and then exactly
/// the value v.
pub proof fn lemma_connection_set_then_get(
    m: Map<Seq<char>, Seq<char>>,
    k: Seq<char>,
    v: Seq<char>,
    init: nat,
    max: nat,
)
    requires
        elem_wf(k),
        elem_wf(v),
        1 <= init < max,
        spec_requests_bytes(
            seq![RequestView::Put { key: k, value: v }, RequestView::Get { key: k }],
        ).len() <= max,
    ensures
        spec_feed(
            Seq::<u8>::empty(),
            init,
            spec_requests_bytes(
                seq![RequestView::Put { key: k, value: v }, RequestView::Get { key: k }],
            ),
            m,
            max,
        ).responses == seq![ResponseView::Put, ResponseView::Get { value: Some(v) }],
{
    let reqs = seq![RequestView::Put { key: k, value: v }, RequestView::Get { key: k }];
    assert(forall|i: int| 0 <= i < reqs.len() ==> request_wf(#[trigger] reqs[i]));
    lemma_bounded_stream_answered(reqs, m, init, max);
    lemma_apply_all_two(m, reqs[0], reqs[1]);
    lemma_set_then_get(m, k, v);
    assert(spec_apply_all(m, reqs).0 == seq![
        ResponseView::Put,
        ResponseView::Get { value: Some(v) },
    ]);
}

/// Law: a connection that sends SET k v, DELETE k, and then GET k, in
/// frames that fit the buffer cap, is told that k is absent.
pub proof fn lemma_connection_set_delete_then_get(
    m: Map<Seq<char>, Seq<char>>,
    k: Seq<char>,
    v: Seq<char>,
    init: nat,
    max: nat,
)
    requires
        elem_wf(k),
        elem_wf(v),
        1 <= init < max,
        spec_requests_bytes(
            seq![
                RequestView::Put { key: k, value: v },
                RequestView::Delete { key: k },
                RequestView::Get { key: k },
            ],
        ).len() <= max,
    ensures
        spec_feed(
            Seq::<u8>::empty(),
            init,
            spec_requests_bytes(
                seq![
                    RequestView::Put { key: k, value: v },
                    RequestView::Delete { key: k },
                    RequestView::Get { key: k },
                ],
            ),
            m,
            max,
        ).responses == seq![
            ResponseView::Put,
            ResponseView::Delete,
            ResponseView::Get { value: None },
        ],
{
    let reqs = seq![
        RequestView::Put { key: k, value: v },
        RequestView::Delete { key: k },
        RequestView::Get { key: k },
    ];
    assert(forall|i: int| 0 <= i < reqs.len() ==> request_wf(#[trigger] reqs[i]));
    lemma_bounded_stream_answered(reqs, m, init, max);
    lemma_apply_all_three(m, reqs[0], reqs[1], reqs[2]);
    lemma_set_delete_then_get(m, k, v);
    assert(spec_apply_all(m, reqs).0 == seq![
        ResponseView::Put,
        ResponseView::Delete,
        ResponseView::Get { value: None },
    ]);
}

/// Law: after a FLUSH on a connection, a GET of any key, set before or
/// not, is told that the key is absent.
pub proof fn lemma_connection_flush_then_get(
    m: Map<Seq<char>, Seq<char>>,
    k: Seq<char>,
    init: nat,
    max: nat,
)
    requires
        elem_wf(k),
        1 <= init < max,
        spec_requests_bytes(seq![RequestView::Flush, RequestView::Get { key: k }]).len() <= max,
    ensures
        spec_feed(
            Seq::<u8>::empty(),
            init,
            spec_requests_bytes(seq![RequestView::Flush, RequestView::Get { key: k }]),
            m,
            max,
        ).responses == seq![ResponseView::Flush, ResponseView::Get { value: None }],
{
    let reqs = seq![RequestView::Flush, RequestView::Get { key: k }];
    assert(forall|i: int| 0 <= i < reqs.len() ==> request_wf(#[trigger] reqs[i]));
    lemma_bounded_stream_answered(reqs, m, init, max);
    lemma_apply_all_two(m, reqs[0], reqs[1]);
    lemma_flush_then_get(m, k);
    assert(spec_apply_all(m, reqs).0 == seq![
        ResponseView::Flush,
        ResponseView::Get { value: None },
    ]);
}

/// The replies to two requests, written out.
proof fn lemma_apply_all_two(m: Map<Seq<char>, Seq<char>>, r1: RequestView, r2: RequestView)
    ensures
        spec_apply_all(m, seq![r1, r2]).0 == seq![
            spec_apply(m, r1).1,
            spec_apply(spec_apply(m, r1).0, r2).1,
        ],
{
    let reqs = seq![r1, r2];
    let m1 = spec_apply(m, r1).0;
    let m2 = spec_apply(m1, r2).0;
    assert(reqs.skip(1) =~= seq![r2]);
    assert(seq![r2].skip(1) =~= Seq::<RequestView>::empty());
    assert(spec_apply_all(m2, Seq::<RequestView>::empty()).0 == Seq::<ResponseView>::empty());
    assert(spec_apply_all(m1, seq![r2]).0 == seq![spec_apply(m1, r2).1] + Seq::<
        ResponseView,
    >::empty());
    assert(spec_apply_all(m, reqs).0 =~= seq![
        spec_apply(m, r1).1,
        spec_apply(m1, r2).1,
    ]);
}

/// The replies to three requests, written out.
proof fn lemma_apply_all_three(
    m: Map<Seq<char>, Seq<char>>,
    r1: RequestView,
    r2: RequestView,
    r3: RequestView,
)
    ensures
        spec_apply_all(m, seq![r1, r2, r3]).0 == seq![
            spec_apply(m, r1).1,
            spec_apply(spec_apply(m, r1).0, r2).1,
            spec_apply(spec_apply(spec_apply(m, r1).0, r2).0, r3).1,
        ],
{
    let reqs = seq![r1, r2, r3];
    let m1 = spec_apply(m, r1).0;
    assert(reqs.skip(1) =~= seq![r2, r3]);
    lemma_apply_all_two(m1, r2, r3);
    assert(spec_apply_all(m, reqs).0 =~= seq![
        spec_apply(m, r1).1,
        spec_apply(m1, r2).1,
        spec_apply(spec_apply(m1, r2).0, r3).1,
    ]);
}

// ---------------------------------------------------------------------------
// Arbitrary chunking.
// ---------------------------------------------------------------------------

/// The bytes of a sequence of chunks, in order.
pub open spec fn concat_chunks(chunks: Seq<Seq<u8>>) -> Seq<u8>
    decreases chunks.len(),
{
    if chunks.len() == 0 {
        Seq::empty()
    } else {
        chunks[0] + concat_chunks(chunks.skip(1))
    }
}

/// Feeding a sequence of chunks, one after the other; an error closes the
/// connection, so nothing after it is delivered.
pub open spec fn spec_feed_chunks(
    pend: Seq<u8>,
    cap: nat,
    chunks: Seq<Seq<u8>>,
    m: Map<Seq<char>, Seq<char>>,
    max: nat,
) -> FeedModel
    decreases chunks.len(),
{
    if chunks.len() == 0 {
        FeedModel { pend, cap, responses: Seq::empty(), store: m, status: FeedStatus::Ready }
    } else {
        let f = spec_feed(pend, cap, chunks[0], m, max);
        if !(f.status is Ready) {
            f
        } else {
            let rest = spec_feed_chunks(f.pend, f.cap, chunks.skip(1), f.store, max);
            FeedModel {
                pend: rest.pend,
                cap: rest.cap,
                responses: f.responses + rest.responses,
                store: rest.store,
                status: rest.status,
            }
        }
    }
}

/// The leftover of draining never holds a complete frame.
proof fn lemma_drain_tail_incomplete(s: Seq<u8>, m: Map<Seq<char>, Seq<char>>)
    requires
        !spec_drain(s, m).malformed,
    ensures
        spec_parse_request(spec_drain(s, m).tail) is Incomplete,
    decreases s.len(),
{
    match spec_parse_request(s) {
        ParseStep::Frame { req, n } => {
            lemma_parse_request_bounds(s);
            lemma_drain_tail_incomplete(s.skip(n), spec_apply(m, req).0);
        },
        _ => {},
    }
}

/// Law: within the safe zone, a stream may arrive in any number of chunks
/// of any sizes: the replies, the store, the leftover and the outcome are
/// those of delivering the whole stream at once.
pub proof fn lemma_any_chunking_irrelevant(
    chunks: Seq<Seq<u8>>,
    cap: nat,
    m: Map<Seq<char>, Seq<char>>,
    max: nat,
)
    requires
        1 <= cap < max,
        spec_drain_safe(concat_chunks(chunks), max),
        !spec_drain(concat_chunks(chunks), m).malformed,
    ensures
        ({
            let g = spec_feed(Seq::<u8>::empty(), cap, concat_chunks(chunks), m, max);
            let f = spec_feed_chunks(Seq::<u8>::empty(), cap, chunks, m, max);
            &&& f.responses == g.responses
            &&& f.store == g.store
            &&& f.pend == g.pend
            &&& f.status is Ready
            &&& g.status is Ready
        }),
{
    assert(Seq::<u8>::empty() + concat_chunks(chunks) =~= concat_chunks(chunks));
    assert(spec_parse_request(Seq::<u8>::empty()) is Incomplete);
    lemma_feed_chunks_piecewise(Seq::<u8>::empty(), cap, chunks, m, max);
    lemma_feed_matches_drain(Seq::<u8>::empty(), cap, concat_chunks(chunks), m, max);
}

/// Chunk-by-chunk feeding follows the drain of the concatenation, from any
/// waiting connection state.
proof fn lemma_feed_chunks_piecewise(
    pend: Seq<u8>,
    cap: nat,
    chunks: Seq<Seq<u8>>,
    m: Map<Seq<char>, Seq<char>>,
    max: nat,
)
    requires
        pend.len() <= cap,
        1 <= cap < max,
        spec_parse_request(pend) is Incomplete,
        spec_drain_safe(pend + concat_chunks(chunks), max),
        !spec_drain(pend + concat_chunks(chunks), m).malformed,
    ensures
        ({
            let d = spec_drain(pend + concat_chunks(chunks), m);
            let f = spec_feed_chunks(pend, cap, chunks, m, max);
            &&& f.responses == d.responses
            &&& f.store == d.store
            &&& f.pend == d.tail
            &&& f.status is Ready
        }),
    decreases chunks.len(),
{
    let whole = concat_chunks(chunks);
    let d = spec_drain(pend + whole, m);
    if chunks.len() == 0 {
        assert(pend + whole =~= pend);
    } else {
        let c0 = chunks[0];
        let rest = concat_chunks(chunks.skip(1));
        assert(pend + whole =~= (pend + c0) + rest);
        // The first chunk is itself a safe stream with no bad frame.
        lemma_drain_safe_prefix(pend + c0, rest, max);
        let d1 = spec_drain(pend + c0, m);
        assert(!d1.malformed) by {
            if d1.malformed {
                lemma_drain_malformed_stable(pend + c0, rest, m);
            }
        }
        lemma_feed_matches_drain(pend, cap, c0, m, max);
        let f1 = spec_feed(pend, cap, c0, m, max);
        // The leftover, with the remaining chunks, is again a waiting state.
        lemma_drain_tail_incomplete(pend + c0, m);
        lemma_drain_safe_tail(pend + c0, rest, m, max);
        lemma_drain_append(pend + c0, rest, m);
        let d2 = spec_drain(d1.tail + rest, d1.store);
        assert(!d2.malformed);
        lemma_feed_chunks_piecewise(d1.tail, f1.cap, chunks.skip(1), d1.store, max);
        let fr = spec_feed_chunks(f1.pend, f1.cap, chunks.skip(1), f1.store, max);
        assert(f1.responses + fr.responses =~= d.responses);
    }
}

} // verus!
