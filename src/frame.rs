use vstd::prelude::*;
use crate::bytes::{append_bytes, copy_range, find_double_crlf, is_first_terminator, no_terminator};
use crate::error::GatewayError;
use crate::request::{parse_head_spec, parse_request_head};

verus! {

/// Ceiling on the bytes read before the head terminator is found.
pub const MAX_HEADER_BYTES: usize = 65536;

/// Ceiling on a request body.
pub const MAX_BODY_BYTES: usize = 2097152;

/// Ceiling on a whole upstream response.
pub const MAX_RESPONSE_BYTES: usize = 10485760;

/// Where a request's framing stands between two reads.
pub ghost struct FrameState {
    /// The head has been read and only body bytes are awaited.
    pub in_body: bool,
    /// The head, once it has been read.
    pub head: Seq<u8>,
    /// The body length the head declares, once it has been read.
    pub content_length: nat,
    /// Before the head: every byte so far; after it: the body bytes so far.
    pub buf: Seq<u8>,
}

/// What one more chunk of input makes of a request's framing.
pub ghost enum FrameModel {
    NeedMore(FrameState),
    Complete(Seq<u8>, Seq<u8>),
    Failed(GatewayError),
}

pub open spec fn frame_state_wf(st: FrameState) -> bool {
    if st.in_body {
        &&& parse_head_spec(st.head) matches Ok(m)
        &&& m.content_length == st.content_length
        &&& st.content_length <= MAX_BODY_BYTES
        &&& st.buf.len() < st.content_length
    } else {
        &&& st.buf.len() <= MAX_HEADER_BYTES
        &&& no_terminator(st.buf)
        &&& st.head.len() == 0
        &&& st.content_length == 0
    }
}

/// With `got` bytes of the body so far: the frame is complete once the
/// declared length is reached, and bytes past it are dropped.
pub open spec fn body_progress(head: Seq<u8>, content_length: nat, got: Seq<u8>) -> FrameModel {
    if got.len() >= content_length {
        FrameModel::Complete(head, got.subrange(0, content_length as int))
    } else {
        FrameModel::NeedMore(
            FrameState { in_body: true, head, content_length, buf: got },
        )
    }
}

/// The framing step for one more chunk of input.
pub open spec fn frame_step(st: FrameState, chunk: Seq<u8>) -> FrameModel {
    if !st.in_body {
        let s = st.buf + chunk;
        if s.len() > MAX_HEADER_BYTES {
            FrameModel::Failed(GatewayError::HeadersTooLarge)
        } else if no_terminator(s) {
            FrameModel::NeedMore(
                FrameState { in_body: false, head: Seq::empty(), content_length: 0, buf: s },
            )
        } else {
            let i = choose|i: int| is_first_terminator(s, i);
            let head = s.subrange(0, i);
            match parse_head_spec(head) {
                Err(e) => FrameModel::Failed(e),
                Ok(m) => if m.content_length > MAX_BODY_BYTES {
                    FrameModel::Failed(GatewayError::BodyTooLarge)
                } else {
                    body_progress(head, m.content_length, s.subrange(i + 4, s.len() as int))
                },
            }
        }
    } else {
        body_progress(st.head, st.content_length, st.buf + chunk)
    }
}

/// Reads one request from a byte stream that arrives in chunks.
pub struct FrameReader {
    in_body: bool,
    head: Vec<u8>,
    content_length: usize,
    buf: Vec<u8>,
}

/// The outcome of handing a chunk to a `FrameReader`.
pub enum FrameStep {
    /// More input is needed; the reader to feed it to.
    NeedMore(FrameReader),
    /// The request head and its body.
    Complete(Vec<u8>, Vec<u8>),
    Failed(GatewayError),
}

impl View for FrameReader {
    type V = FrameState;

    closed spec fn view(&self) -> FrameState {
        FrameState {
            in_body: self.in_body,
            head: self.head@,
            content_length: self.content_length as nat,
            buf: self.buf@,
        }
    }
}

impl View for FrameStep {
    type V = FrameModel;

    open spec fn view(&self) -> FrameModel {
        match self {
            FrameStep::NeedMore(r) => FrameModel::NeedMore(r@),
            FrameStep::Complete(h, b) => FrameModel::Complete(h@, b@),
            FrameStep::Failed(e) => FrameModel::Failed(*e),
        }
    }
}

proof fn lemma_first_terminator_unique(s: Seq<u8>, i: int)
    requires
        is_first_terminator(s, i),
    ensures
        (choose|j: int| is_first_terminator(s, j)) == i,
{
    let j = choose|j: int| is_first_terminator(s, j);
    assert(is_first_terminator(s, j));
    if j < i {
        assert(!crate::bytes::terminator_at(s, j));
    } else if i < j {
        assert(!crate::bytes::terminator_at(s, i));
    }
}

impl FrameReader {
    pub open spec fn wf(&self) -> bool {
        frame_state_wf(self@)
    }

    /// A reader that has seen no input.
    pub fn new() -> (r: FrameReader)
        ensures
            r.wf(),
            r@ == (FrameState {
                in_body: false,
                head: Seq::empty(),
                content_length: 0,
                buf: Seq::empty(),
            }),
    {
        let r = FrameReader { in_body: false, head: Vec::new(), content_length: 0, buf: Vec::new() };
        assert(r.head@ =~= Seq::<u8>::empty());
        assert(r.buf@ =~= Seq::<u8>::empty());
        r
    }

    /// Whether the head has been read and body bytes are awaited.
    pub fn awaiting_body(&self) -> (r: bool)
        ensures
            r == self@.in_body,
    {
        self.in_body
    }

    /// The error for a connection that closed at this point.
    pub fn closed(&self) -> (e: GatewayError)
        ensures
            e == (if self@.in_body {
                GatewayError::IncompleteBody
            } else {
                GatewayError::ConnectionClosedEarly
            }),
    {
        if self.in_body {
            GatewayError::IncompleteBody
        } else {
            GatewayError::ConnectionClosedEarly
        }
    }

    fn progress(head: Vec<u8>, content_length: usize, got: Vec<u8>) -> (r: FrameStep)
        requires
            parse_head_spec(head@) matches Ok(m) && m.content_length == content_length,
            content_length <= MAX_BODY_BYTES,
        ensures
            r@ == body_progress(head@, content_length as nat, got@),
            r matches FrameStep::NeedMore(next) ==> next.wf(),
    {
        if got.len() >= content_length {
            let mut body = got;
            body.truncate(content_length);
            assert(body@ =~= got@.subrange(0, content_length as int));
            FrameStep::Complete(head, body)
        } else {
            FrameStep::NeedMore(FrameReader { in_body: true, head, content_length, buf: got })
        }
    }

    /// Hands the next chunk of input to the reader.
    pub fn feed(self, chunk: &[u8]) -> (r: FrameStep)
        requires
            self.wf(),
        ensures
            r@ == frame_step(self@, chunk@),
            r matches FrameStep::NeedMore(next) ==> next.wf(),
    {
        if !self.in_body {
            let mut s = self.buf;
            if chunk.len() > MAX_HEADER_BYTES - s.len() {
                return FrameStep::Failed(GatewayError::HeadersTooLarge);
            }
            append_bytes(&mut s, chunk);
            match find_double_crlf(s.as_slice()) {
                None => {
                    let r = FrameReader { in_body: false, head: Vec::new(), content_length: 0, buf: s };
                    assert(r.head@ =~= Seq::<u8>::empty());
                    FrameStep::NeedMore(r)
                },
                Some(i) => {
                    proof {
                        lemma_first_terminator_unique(s@, i as int);
                    }
                    let head = copy_range(s.as_slice(), 0, i);
                    match parse_request_head(head.as_slice()) {
                        Err(e) => FrameStep::Failed(e),
                        Ok(req) => {
                            if req.content_length > MAX_BODY_BYTES {
                                FrameStep::Failed(GatewayError::BodyTooLarge)
                            } else {
                                let rest = copy_range(s.as_slice(), i + 4, s.len());
                                Self::progress(head, req.content_length, rest)
                            }
                        },
                    }
                },
            }
        } else {
            let mut got = self.buf;
            let need = self.content_length - got.len();
            if chunk.len() >= need {
                let part = copy_range(chunk, 0, need);
                let ghost before = got@;
                append_bytes(&mut got, part.as_slice());
                assert(got@ =~= (before + chunk@).subrange(0, self.content_length as int));
                FrameStep::Complete(self.head, got)
            } else {
                append_bytes(&mut got, chunk);
                FrameStep::NeedMore(
                    FrameReader {
                        in_body: true,
                        head: self.head,
                        content_length: self.content_length,
                        buf: got,
                    },
                )
            }
        }
    }
}

/// A complete frame pairs a head with a body exactly as long as the length
/// that the head declares.
pub proof fn lemma_frame_length_matches_head(st: FrameState, chunk: Seq<u8>)
    requires
        frame_state_wf(st),
    ensures
        frame_step(st, chunk) matches FrameModel::Complete(h, b) ==> (parse_head_spec(h) matches Ok(
            m,
        ) && m.content_length == b.len()),
{
}

/// A head that declares a body over the ceiling fails the request as soon as
/// the head is complete, before any further input is asked for; a head block
/// that outgrows its ceiling fails before any body is considered.
pub proof fn lemma_size_ceilings(st: FrameState, chunk: Seq<u8>, i: int)
    requires
        frame_state_wf(st),
        !st.in_body,
    ensures
        (st.buf + chunk).len() > MAX_HEADER_BYTES ==> frame_step(st, chunk) == FrameModel::Failed(
            GatewayError::HeadersTooLarge,
        ),
        (st.buf + chunk).len() <= MAX_HEADER_BYTES && is_first_terminator(st.buf + chunk, i) && (
        parse_head_spec((st.buf + chunk).subrange(0, i)) matches Ok(m)
            && m.content_length > MAX_BODY_BYTES) ==> frame_step(st, chunk) == FrameModel::Failed(
            GatewayError::BodyTooLarge,
        ),
{
    if is_first_terminator(st.buf + chunk, i) {
        lemma_first_terminator_unique(st.buf + chunk, i);
    }
}

/// Collects an upstream response, read to the end of the stream.
pub struct ResponseCollector {
    buf: Vec<u8>,
}

impl View for ResponseCollector {
    type V = Seq<u8>;

    closed spec fn view(&self) -> Seq<u8> {
        self.buf@
    }
}

impl ResponseCollector {
    pub open spec fn wf(&self) -> bool {
        self@.len() <= MAX_RESPONSE_BYTES
    }

    pub fn new() -> (r: ResponseCollector)
        ensures
            r.wf(),
            r@ == Seq::<u8>::empty(),
    {
        ResponseCollector { buf: Vec::new() }
    }

    /// Adds a chunk; fails once the response would pass the ceiling.
    pub fn push(&mut self, chunk: &[u8]) -> (r: Result<(), GatewayError>)
        requires
            old(self).wf(),
        ensures
            final(self).wf(),
            (old(self)@ + chunk@).len() > MAX_RESPONSE_BYTES ==> r == Err::<(), GatewayError>(
                GatewayError::ResponseTooLarge,
            ),
            (old(self)@ + chunk@).len() <= MAX_RESPONSE_BYTES ==> r == Ok::<(), GatewayError>(())
                && final(self)@ == old(self)@ + chunk@,
    {
        if chunk.len() > MAX_RESPONSE_BYTES - self.buf.len() {
            return Err(GatewayError::ResponseTooLarge);
        }
        append_bytes(&mut self.buf, chunk);
        Ok(())
    }

    /// The whole response, once the stream has ended.
    pub fn finish(self) -> (r: Vec<u8>)
        ensures
            r@ == self@,
    {
        self.buf
    }
}

} // verus!
