use vstd::prelude::*;

verus! {

use crate::error::{ClientError, Error, ParsingError};
use crate::parse_response;
use crate::wire::{
    lemma_parse_response_take, lemma_response_round_trip, response_wf, spec_encode_response,
    spec_parse_response, RespParseStep, ResponseView,
};
use crate::Response;

// ---------------------------------------------------------------------------
// The client-side framer, as a mathematical interpreter.
//
// After a request is written, the client reads into a bounded, growable
// receive buffer, with the same growth and cap policy as the server's
// framer, until a whole reply can be decoded.
// ---------------------------------------------------------------------------

/// How receiving stands after some bytes arrived.
pub enum RecvOutcome {
    /// No complete reply yet; the client keeps reading.
    NeedMore,
    /// A complete reply.
    Done { resp: ResponseView },
    /// The buffer cap was reached without completing a reply.
    TooMuchData,
    /// A complete reply held a string that was not valid UTF-8.
    Malformed,
}

/// The receive state: the buffered bytes, the buffer's allocated size, and
/// how receiving stands.
pub struct RecvModel {
    pub pend: Seq<u8>,
    pub cap: nat,
    pub outcome: RecvOutcome,
}

/// Feeds reply bytes to a receive buffer holding `pend` of `cap` allocated
/// bytes: window by window, growing by doubling up to `max`, until a reply
/// decodes.
#[verifier::opaque]
pub open spec fn spec_receive(pend: Seq<u8>, cap: nat, data: Seq<u8>, max: nat) -> RecvModel
    decreases data.len(),
{
    match spec_parse_response(pend) {
        RespParseStep::Frame { resp, n } => RecvModel {
            pend,
            cap,
            outcome: RecvOutcome::Done { resp },
        },
        RespParseStep::Malformed => RecvModel { pend, cap, outcome: RecvOutcome::Malformed },
        RespParseStep::Incomplete => {
            if cap >= max {
                RecvModel { pend, cap, outcome: RecvOutcome::TooMuchData }
            } else {
                let cap2 = if pend.len() == cap {
                    if 2 * cap < max {
                        2 * cap
                    } else {
                        max
                    }
                } else {
                    cap
                };
                let w = if cap2 >= pend.len() {
                    cap2 - pend.len()
                } else {
                    0
                };
                let k = if w <= data.len() {
                    w as int
                } else {
                    data.len() as int
                };
                if k == 0 {
                    RecvModel { pend, cap: cap2, outcome: RecvOutcome::NeedMore }
                } else {
                    spec_receive(pend + data.take(k), cap2, data.skip(k), max)
                }
            }
        },
    }
}

/// One unfolding of `spec_receive`: a complete reply is decoded.
pub proof fn lemma_receive_frame(pend: Seq<u8>, cap: nat, data: Seq<u8>, max: nat)
    requires
        spec_parse_response(pend) matches RespParseStep::Frame { resp, n },
    ensures
        spec_parse_response(pend) matches RespParseStep::Frame { resp, n } ==> spec_receive(
            pend,
            cap,
            data,
            max,
        ) == (RecvModel { pend, cap, outcome: RecvOutcome::Done { resp } }),
{
    reveal(spec_receive);
}

/// One unfolding of `spec_receive`: a malformed reply.
pub proof fn lemma_receive_malformed(pend: Seq<u8>, cap: nat, data: Seq<u8>, max: nat)
    requires
        spec_parse_response(pend) is Malformed,
    ensures
        spec_receive(pend, cap, data, max) == (RecvModel {
            pend,
            cap,
            outcome: RecvOutcome::Malformed,
        }),
{
    reveal(spec_receive);
}

/// One unfolding of `spec_receive`: no complete reply is buffered, so the
/// machine checks the cap, grows when the buffer is full, and moves bytes
/// into the window.
pub proof fn lemma_receive_incomplete(pend: Seq<u8>, cap: nat, data: Seq<u8>, max: nat)
    requires
        spec_parse_response(pend) is Incomplete,
    ensures
        cap >= max ==> spec_receive(pend, cap, data, max) == (RecvModel {
            pend,
            cap,
            outcome: RecvOutcome::TooMuchData,
        }),
        cap < max ==> ({
            let cap2 = if pend.len() == cap {
                if 2 * cap < max {
                    2 * cap
                } else {
                    max
                }
            } else {
                cap
            };
            let w = if cap2 >= pend.len() {
                cap2 - pend.len()
            } else {
                0
            };
            let k = if w <= data.len() {
                w as int
            } else {
                data.len() as int
            };
            &&& (k == 0 ==> spec_receive(pend, cap, data, max) == (RecvModel {
                pend,
                cap: cap2,
                outcome: RecvOutcome::NeedMore,
            }))
            &&& (k != 0 ==> spec_receive(pend, cap, data, max) == spec_receive(
                pend + data.take(k),
                cap2,
                data.skip(k),
                max,
            ))
        }),
{
    reveal(spec_receive);
}


/// Law: the receive buffer never outgrows the cap. The client uses the
/// same growth and cap policy as the server's framer.
pub proof fn lemma_receive_cap_bounded(pend: Seq<u8>, cap: nat, data: Seq<u8>, max: nat)
    requires
        cap <= max,
    ensures
        spec_receive(pend, cap, data, max).cap <= max,
    decreases data.len(),
{
    match spec_parse_response(pend) {
        RespParseStep::Frame { resp, n } => {
            lemma_receive_frame(pend, cap, data, max);
        },
        RespParseStep::Malformed => {
            lemma_receive_malformed(pend, cap, data, max);
        },
        RespParseStep::Incomplete => {
            lemma_receive_incomplete(pend, cap, data, max);
            if cap < max {
                let cap2 = if pend.len() == cap {
                    if 2 * cap < max {
                        2 * cap
                    } else {
                        max
                    }
                } else {
                    cap
                };
                let w = if cap2 >= pend.len() {
                    cap2 - pend.len()
                } else {
                    0
                };
                let k = if w <= data.len() {
                    w as int
                } else {
                    data.len() as int
                };
                if k != 0 {
                    lemma_receive_cap_bounded(pend + data.take(k), cap2, data.skip(k), max);
                }
            }
        },
    }
}

// ---------------------------------------------------------------------------
// The client-side receive buffer.
// ---------------------------------------------------------------------------

/// The client's bounded, growable receive buffer for one reply.
pub struct ResponseReader {
    buf: Vec<u8>,
    cursor: usize,
    max: usize,
}

impl ResponseReader {
    /// The buffered reply bytes.
    pub closed spec fn pending(&self) -> Seq<u8> {
        self.buf@.take(self.cursor as int)
    }

    /// The buffer's allocated length.
    pub closed spec fn cap(&self) -> nat {
        self.buf@.len()
    }

    /// The buffer cap this reader was made with.
    pub closed spec fn max_size(&self) -> nat {
        self.max as nat
    }

    /// The reader's internal invariant: the fill never passes the length.
    pub closed spec fn wf(&self) -> bool {
        self.cursor <= self.buf@.len()
    }

    /// A fresh reader with a zero-filled buffer of the initial size.
    pub fn new(init_buffer_size: usize, max_buffer_size: usize) -> (r: ResponseReader)
        ensures
            r.wf(),
            r.pending() == Seq::<u8>::empty(),
            r.cap() == init_buffer_size as nat,
            r.max_size() == max_buffer_size as nat,
    {
        let r = ResponseReader {
            buf: vec![0u8; init_buffer_size],
            cursor: 0,
            max: max_buffer_size,
        };
        proof {
            assert(r.pending() =~= Seq::<u8>::empty());
        }
        r
    }

    /// Delivers bytes read from the connection, window by window, and
    /// returns the reply once one decodes; `Ok(None)` asks for more bytes.
    #[verifier::rlimit(50)]
    pub fn feed(&mut self, chunk: &[u8]) -> (r: Result<Option<Response>, Error>)
        requires
            old(self).wf(),
        ensures
            final(self).wf(),
            final(self).max_size() == old(self).max_size(),
            // The buffer never outgrows the cap it started within.
            old(self).cap() <= old(self).max_size() ==> final(self).cap() <= old(
                self,
            ).max_size(),
            ({
                let rm = spec_receive(
                    old(self).pending(),
                    old(self).cap(),
                    chunk@,
                    old(self).max_size(),
                );
                &&& final(self).pending() == rm.pend
                &&& final(self).cap() == rm.cap
                &&& (rm.outcome matches RecvOutcome::Done { resp } ==> (r matches Ok(Some(rp))
                    && rp@ == resp))
                &&& (rm.outcome is NeedMore ==> (r matches Ok(ro) && ro is None))
                &&& (rm.outcome is TooMuchData ==> r == Err::<Option<Response>, Error>(
                    Error::Client(ClientError::TooMuchData),
                ))
                &&& (rm.outcome is Malformed ==> r == Err::<Option<Response>, Error>(
                    Error::Parsing(ParsingError::Utf8Error),
                ))
            }),
    {
        let ghost max_g = self.max;
        let ghost rm = spec_receive(self.pending(), self.cap(), chunk@, self.max as nat);
        let mut ci: usize = 0;
        proof {
            assert(chunk@.skip(0) =~= chunk@);
            if self.cap() <= self.max_size() {
                lemma_receive_cap_bounded(self.pending(), self.cap(), chunk@, self.max_size());
            }
        }
        loop
            invariant
                self.wf(),
                self.max == max_g,
                max_g == old(self).max,
                rm == spec_receive(
                    old(self).pending(),
                    old(self).cap(),
                    chunk@,
                    old(self).max_size(),
                ),
                old(self).cap() <= old(self).max_size() ==> rm.cap <= old(self).max_size(),
                ci <= chunk@.len(),
                rm == spec_receive(
                    self.pending(),
                    self.cap(),
                    chunk@.skip(ci as int),
                    max_g as nat,
                ),
            decreases chunk@.len() - ci,
        {
            let ghost p = self.pending();
            let ghost rest_data = chunk@.skip(ci as int);
            let pending_slice = vstd::slice::slice_subrange(self.buf.as_slice(), 0, self.cursor);
            proof {
                assert(pending_slice@ == p);
            }
            match parse_response(pending_slice) {
                Err(_) => {
                    proof {
                        lemma_receive_malformed(p, self.cap(), rest_data, max_g as nat);
                    }
                    return Err(Error::Parsing(ParsingError::Utf8Error));
                },
                Ok(Some(resp)) => {
                    proof {
                        lemma_receive_frame(p, self.cap(), rest_data, max_g as nat);
                    }
                    return Ok(Some(resp));
                },
                Ok(None) => {
                    proof {
                        lemma_receive_incomplete(p, self.cap(), rest_data, max_g as nat);
                    }
                    if self.buf.len() >= self.max {
                        return Err(Error::Client(ClientError::TooMuchData));
                    }
                    if self.cursor == self.buf.len() {
                        let newlen = if self.buf.len() < self.max - self.buf.len() {
                            2 * self.buf.len()
                        } else {
                            self.max
                        };
                        self.buf.resize(newlen, 0u8);
                        proof {
                            assert(self.pending() =~= p);
                        }
                    }
                    let w = self.buf.len() - self.cursor;
                    let avail = chunk.len() - ci;
                    let k = if w < avail {
                        w
                    } else {
                        avail
                    };
                    proof {
                        assert(self.pending() == p);
                    }
                    if k == 0 {
                        return Ok(None);
                    }
                    let ghost cap2 = self.cap();
                    let ghost cur0 = self.cursor;
                    let ghost ci0 = ci;
                    let mut j: usize = 0;
                    while j < k
                        invariant
                            self.cursor == cur0,
                            self.max == max_g,
                            ci == ci0,
                            cur0 + k <= self.buf@.len(),
                            ci0 + k <= chunk@.len(),
                            chunk@.len() <= usize::MAX,
                            self.buf@.len() == cap2,
                            cap2 <= usize::MAX,
                            p.len() == cur0,
                            j <= k,
                            forall|l: int| 0 <= l < cur0 ==> #[trigger] self.buf@[l] == p[l],
                            forall|l: int|
                                0 <= l < j ==> #[trigger] self.buf@[cur0 + l] == chunk@[ci0 + l],
                        decreases k - j,
                    {
                        let b = chunk[ci + j];
                        self.buf[self.cursor + j] = b;
                        j = j + 1;
                    }
                    self.cursor = self.cursor + k;
                    ci = ci + k;
                    proof {
                        assert(rest_data.take(k as int).len() == k);
                        assert forall|l: int| 0 <= l < cur0 + k implies self.buf@.take(
                            (cur0 + k) as int,
                        )[l] == (p + rest_data.take(k as int))[l] by {
                            if cur0 <= l {
                                assert(self.buf@[cur0 + (l - cur0)] == chunk@[ci0 + (l - cur0)]);
                            }
                        }
                        assert(self.pending() =~= p + rest_data.take(k as int));
                        assert(chunk@.skip(ci as int) =~= rest_data.skip(k as int));
                    }
                },
            }
        }
    }
}

/// Receives one reply from a peer that sends exactly `data` and then
/// closes: the bytes arrive window by window into a buffer that starts at
/// `init_buffer_size` and grows by doubling up to `max_buffer_size`. The
/// result is exactly what the `spec_receive` machine says: the decoded
/// reply, a reset when the stream ends without one, or an error on an
/// overrun or a malformed reply.
pub fn receive_response(data: &[u8], init_buffer_size: usize, max_buffer_size: usize) -> (r:
    Result<Response, Error>)
    ensures
        ({
            let rm = spec_receive(
                Seq::<u8>::empty(),
                init_buffer_size as nat,
                data@,
                max_buffer_size as nat,
            );
            &&& (rm.outcome matches RecvOutcome::Done { resp } ==> (r matches Ok(rp) && rp@
                == resp))
            &&& (rm.outcome is NeedMore ==> r == Err::<Response, Error>(
                Error::Client(ClientError::ConnectionResetByPeer),
            ))
            &&& (rm.outcome is TooMuchData ==> r == Err::<Response, Error>(
                Error::Client(ClientError::TooMuchData),
            ))
            &&& (rm.outcome is Malformed ==> r == Err::<Response, Error>(
                Error::Parsing(ParsingError::Utf8Error),
            ))
        }),
{
    let mut reader = ResponseReader::new(init_buffer_size, max_buffer_size);
    match reader.feed(data) {
        Ok(Some(resp)) => Ok(resp),
        // The stream is over: no more bytes will ever complete the reply.
        Ok(None) => Err(Error::Client(ClientError::ConnectionResetByPeer)),
        Err(e) => Err(e),
    }
}

// ---------------------------------------------------------------------------
// The client decodes what the server encoded.
// ---------------------------------------------------------------------------

/// Law: a client that reads the encoding of a well-formed reply, with a
/// receive buffer of at least five bytes and a cap of at least twice the
/// reply, ends with exactly that reply.
pub proof fn lemma_client_receives_reply(v: ResponseView, init: nat, max: nat)
    requires
        response_wf(v),
        5 <= init < max,
        2 * spec_encode_response(v).len() <= max,
    ensures
        spec_receive(Seq::<u8>::empty(), init, spec_encode_response(v), max).outcome
            == (RecvOutcome::Done { resp: v }),
{
    let data = spec_encode_response(v);
    let n = data.len() as int;
    lemma_response_round_trip(v);
    assert(spec_parse_response(Seq::<u8>::empty()) is Incomplete);
    lemma_receive_incomplete(Seq::<u8>::empty(), init, data, max);
    let k = if init <= data.len() {
        init as int
    } else {
        data.len() as int
    };
    assert(k >= 1);
    assert(Seq::<u8>::empty() + data.take(k) =~= data.take(k));
    if k == n {
        assert(data.take(k) =~= data);
        assert(data.skip(k) =~= Seq::<u8>::empty());
        lemma_receive_frame(data, init, Seq::<u8>::empty(), max);
    } else {
        assert(n > 1);
        assert(k == init);
        lemma_receive_encoded_tail(v, k, init, max);
        assert(spec_receive(data.take(k), init, data.skip(k), max).outcome == (RecvOutcome::Done {
            resp: v,
        }));
    }
}

/// The rest of the reception, from a buffered prefix that already covers
/// the length bytes.
proof fn lemma_receive_encoded_tail(v: ResponseView, c: int, cap: nat, max: nat)
    requires
        response_wf(v),
        5 <= c <= cap < max,
        c < spec_encode_response(v).len(),
        2 * spec_encode_response(v).len() <= max,
    ensures
        spec_receive(
            spec_encode_response(v).take(c),
            cap,
            spec_encode_response(v).skip(c),
            max,
        ).outcome == (RecvOutcome::Done { resp: v }),
    decreases spec_encode_response(v).len() - c,
{
    let data = spec_encode_response(v);
    let n = data.len() as int;
    lemma_response_round_trip(v);
    lemma_parse_response_take(data, c);
    let pend = data.take(c);
    let rest = data.skip(c);
    lemma_receive_incomplete(pend, cap, rest, max);
    let cap2 = if pend.len() == cap {
        if 2 * cap < max {
            2 * cap
        } else {
            max
        }
    } else {
        cap
    };
    assert(c <= cap2 < max);
    let w = if cap2 >= pend.len() {
        cap2 - pend.len()
    } else {
        0
    };
    let k = if w <= rest.len() {
        w as int
    } else {
        rest.len() as int
    };
    assert(k >= 1);
    assert(pend + rest.take(k) =~= data.take(c + k));
    assert(rest.skip(k) =~= data.skip(c + k));
    if c + k == n {
        assert(data.take(c + k) =~= data);
        lemma_receive_frame(data, cap2, data.skip(c + k), max);
    } else {
        lemma_receive_encoded_tail(v, c + k, cap2, max);
    }
}

} // verus!
