//! Reading responses off a stream, as their bytes come in.
use crate::buffer::{buffer_views, join_buffers, joined, BufferVec, BufferView};
use crate::chunked::{
    all_wf, chunk_open, chunks_finished, chunks_run, fed, find_crlf, first_crlf, hex_uint, tells,
    try_read_chunks, ChunksEnd, ChunksReadState, ChunksRun,
};
use crate::error::{HttpError, HttpErrorView};
use crate::headers::{header_length, headers_map};
use crate::response::{HttpResponse, ResponseView};
use crate::response_head::{head_or, ResponseHeadView};
use crate::stream::{read_fits, read_view, ReadView, StreamRead};
use http_req::response::{Headers, Response};
use vstd::prelude::*;
use vstd::slice::{slice_subrange, slice_to_vec};

verus! {

/// The head of a response: its status and its headers.
pub struct ResponseHead {
    pub status: u16,
    pub headers: Headers,
    /// The length that the headers give for the body.
    pub content_len: Option<usize>,
}

impl View for ResponseHead {
    type V = ResponseHeadView;

    open spec fn view(&self) -> ResponseHeadView {
        ResponseHeadView { status: self.status, headers: headers_map(self.headers) }
    }
}

impl ResponseHead {
    /// The length is the one that the headers give.
    pub open spec fn wf(&self) -> bool {
        header_length(headers_map(self.headers)) == (match self.content_len {
            Some(n) => Some(n as nat),
            None => None,
        })
    }
}

/// What `http_req::response::Response::from_head` makes of the bytes of a head: its status and
/// its headers, or the text of the error.
pub uninterp spec fn response_head(head: Seq<u8>) -> Result<ResponseHeadView, Seq<char>>;

/// What reading a head comes to.
pub open spec fn parsed_head(head: Seq<u8>) -> Result<ResponseHeadView, Seq<char>> {
    head_or(head, response_head(head))
}

/// `Response::from_head` and, where it succeeds, `Response::content_len`. It is stated by
/// [`head_or`] that a head of lines that can be told apart gives back its status and its headers;
/// what comes of other heads goes by the name [`response_head`]. The length is stated too: it is
/// the number in the header `Content-Length`, if there is one.
#[verifier::external_body]
pub(crate) fn parse_response_head(head: &[u8]) -> (r: Result<ResponseHead, String>)
    ensures
        head_or(head@, response_head(head@)) == (match r {
            Ok(h) => Ok(h@),
            Err(text) => Err(text@),
        }),
        r matches Ok(h) ==> h.wf(),
{
    match Response::from_head(head) {
        Ok(response) => Ok(ResponseHead {
            status: response.status_code().into(),
            headers: response.headers().clone(),
            content_len: response.content_len(),
        }),
        Err(err) => Err(format!("{:?}", err)),
    }
}

/// Whether `e` stands at `i` in `data`.
pub open spec fn match_at(data: Seq<u8>, e: Seq<u8>, i: int) -> bool {
    0 <= i && i + e.len() <= data.len() && data.subrange(i, i + e.len()) == e
}

/// Whether `e` stands at `i` in `data`, and nowhere before.
pub open spec fn first_match(data: Seq<u8>, e: Seq<u8>, i: int) -> bool {
    match_at(data, e, i) && forall|j: int| 0 <= j < i ==> !match_at(data, e, j)
}

/// `http_req::response::find_slice`: the end of the first `e` in `data`. Data that is not longer
/// than `e` is not searched.
#[verifier::external_body]
pub(crate) fn find_slice(data: &[u8], e: &[u8]) -> (r: Option<usize>)
    ensures
        match r {
            Some(end) => data@.len() > e@.len() && first_match(data@, e@, end - e@.len()),
            None => data@.len() <= e@.len() || forall|i: int| !match_at(data@, e@, i),
        },
{
    http_req::response::find_slice(data, e)
}

/// The bytes that end a head: an empty line.
pub open spec fn empty_line() -> Seq<u8> {
    seq![13u8, 10u8, 13u8, 10u8]
}

/// Where the head that `data` starts with ends, behind its empty line.
pub open spec fn head_end(data: Seq<u8>) -> Option<int> {
    if data.len() > 4 && exists|i: int| first_match(data, empty_line(), i) {
        Some((choose|i: int| first_match(data, empty_line(), i)) + 4)
    } else {
        None
    }
}

pub proof fn lemma_head_end(data: Seq<u8>, i: int)
    requires
        data.len() > 4,
        first_match(data, empty_line(), i),
    ensures
        head_end(data) == Some(i + 4),
{
    let j = choose|j: int| first_match(data, empty_line(), j);
    assert(first_match(data, empty_line(), j));
    if j < i {
        assert(!match_at(data, empty_line(), j));
    }
    if i < j {
        assert(!match_at(data, empty_line(), i));
    }
}

/// How far the response that is being read was read.
pub enum HttpResponseReadState {
    /// No head was read.
    Empty,
    /// The head was read; the buffer has room for the whole body.
    ReadBody(ResponseHead, BufferVec),
    /// The head was read, and some of the chunks of the body.
    ReadChunkedBody(ResponseHead, Vec<BufferVec>),
}

/// What an [`HttpResponseReadState`] holds.
pub enum ResponseStateView {
    Empty,
    ReadBody(ResponseHeadView, BufferView),
    ReadChunkedBody(ResponseHeadView, Seq<BufferView>),
}

impl View for HttpResponseReadState {
    type V = ResponseStateView;

    open spec fn view(&self) -> ResponseStateView {
        match *self {
            HttpResponseReadState::Empty => ResponseStateView::Empty,
            HttpResponseReadState::ReadBody(head, buf) => ResponseStateView::ReadBody(head@, buf@),
            HttpResponseReadState::ReadChunkedBody(head, chunks) => {
                ResponseStateView::ReadChunkedBody(head@, buffer_views(chunks@))
            },
        }
    }
}

impl HttpResponseReadState {
    pub open spec fn wf(&self) -> bool {
        match *self {
            HttpResponseReadState::Empty => true,
            HttpResponseReadState::ReadBody(_, buf) => buf.wf(),
            HttpResponseReadState::ReadChunkedBody(_, chunks) => all_wf(chunks@) && chunks@.len()
                > 0,
        }
    }

    /// Takes the state out, and leaves the one in which no head was read.
    pub fn swap_to_empty(&mut self) -> (r: HttpResponseReadState)
        ensures
            r == *old(self),
            *final(self) == HttpResponseReadState::Empty,
    {
        let mut state = HttpResponseReadState::Empty;
        core::mem::swap(&mut state, self);
        state
    }
}

/// Why a client cannot go on with what a server sent. There is no answer to that but to stop.
#[derive(Debug)]
pub enum ResponseFault {
    /// The body breaks the format of chunks.
    IllegalBody(String),
    /// The length of a chunk does not fit a machine word.
    ChunkOverflow,
}

/// What is to be done next to read a response.
pub enum ResponseStep {
    /// Read at most this many bytes off the stream, and tell what that gave. With no room at all,
    /// tell that reading gave no bytes.
    NeedRead(usize),
    /// The rest of the response has not come yet.
    NotReady,
    /// Here is the response.
    Done(HttpResponse),
    Failed(HttpError),
    Fault(ResponseFault),
}

/// What a [`ResponseStep`] stands for.
pub enum ResponseStepView {
    NeedRead(int),
    NotReady,
    Done(ResponseView),
    Failed(HttpErrorView),
    IllegalBody(Seq<char>),
    ChunkOverflow,
}

impl View for ResponseStep {
    type V = ResponseStepView;

    open spec fn view(&self) -> ResponseStepView {
        match *self {
            ResponseStep::NeedRead(n) => ResponseStepView::NeedRead(n as int),
            ResponseStep::NotReady => ResponseStepView::NotReady,
            ResponseStep::Done(response) => ResponseStepView::Done(response@),
            ResponseStep::Failed(e) => ResponseStepView::Failed(e@),
            ResponseStep::Fault(ResponseFault::IllegalBody(text)) => ResponseStepView::IllegalBody(
                text@,
            ),
            ResponseStep::Fault(ResponseFault::ChunkOverflow) => ResponseStepView::ChunkOverflow,
        }
    }
}

/// One turn of reading a response: what is to be done next, what the header buffer then holds,
/// and how far the response was read.
pub struct ResponseTurn {
    pub step: ResponseStepView,
    pub header: BufferView,
    pub state: ResponseStateView,
}

/// The response with the head `head` and the body `body`.
pub open spec fn response_of(head: ResponseHeadView, body: Seq<u8>) -> ResponseView {
    ResponseView { status: head.status, headers: head.headers, body }
}

/// The turn where the body is collected in `buf`.
pub open spec fn collect_turn(
    header: BufferView,
    head: ResponseHeadView,
    buf: BufferView,
) -> ResponseTurn {
    if buf.is_full() {
        ResponseTurn {
            step: ResponseStepView::Done(response_of(head, buf.data)),
            header,
            state: ResponseStateView::Empty,
        }
    } else {
        ResponseTurn {
            step: ResponseStepView::NeedRead(buf.room()),
            header,
            state: ResponseStateView::ReadBody(head, buf),
        }
    }
}

/// The turn where a head was found that ends at `end`, and the body has `len` bytes. Bytes past
/// the body stay in the header buffer.
pub open spec fn sized_turn(
    header: BufferView,
    head: ResponseHeadView,
    end: int,
    len: nat,
) -> ResponseTurn {
    let remaining = header.data.skip(end);
    if len >= remaining.len() {
        collect_turn(
            BufferView { data: Seq::empty(), cap: header.cap },
            head,
            BufferView { data: remaining, cap: len },
        )
    } else {
        ResponseTurn {
            step: ResponseStepView::Done(response_of(head, remaining.take(len as int))),
            header: header.consumed(end + len),
            state: ResponseStateView::Empty,
        }
    }
}

/// The turn where a run over chunks ended with `run`, and the bytes it left are all that the
/// header buffer keeps. `more` is what is to be done where the chunks go on.
pub open spec fn chunked_turn(
    cap: nat,
    head: ResponseHeadView,
    run: ChunksRun,
    more: ResponseStepView,
) -> ResponseTurn {
    let header = BufferView { data: run.rest, cap };
    match run.end {
        ChunksEnd::Finished => ResponseTurn {
            step: ResponseStepView::Done(response_of(head, joined(run.chunks))),
            header,
            state: ResponseStateView::Empty,
        },
        ChunksEnd::IllegalBody(text) => ResponseTurn {
            step: ResponseStepView::IllegalBody(text),
            header,
            state: ResponseStateView::Empty,
        },
        ChunksEnd::Overflow => ResponseTurn {
            step: ResponseStepView::ChunkOverflow,
            header,
            state: ResponseStateView::Empty,
        },
        _ => ResponseTurn {
            step: more,
            header,
            state: ResponseStateView::ReadChunkedBody(head, run.chunks),
        },
    }
}

/// Whether a run over what follows a head shows that the body does not come in chunks: no length
/// of a chunk is there, or not enough of one to tell.
pub open spec fn not_in_chunks(run: ChunksRun, remaining: Seq<u8>) -> bool {
    run.end is NotChunked || (run.end is BufferNotEnough && run.rest.len() == remaining.len())
}

/// The turn where no head was read before and the header buffer holds what came in.
pub open spec fn response_head_turn(header: BufferView) -> ResponseTurn {
    match head_end(header.data) {
        None => ResponseTurn {
            step: if header.is_full() {
                ResponseStepView::Failed(HttpErrorView::ReadEOF)
            } else {
                ResponseStepView::NotReady
            },
            header,
            state: ResponseStateView::Empty,
        },
        Some(end) => found_turn(header, parsed_head(header.data.take(end)), end),
    }
}

/// The turn where a head was found that ends at `end`, given what parsing it gave. Without a
/// length, the body is taken for one in chunks, if it looks like one, and else for empty.
pub open spec fn found_turn(
    header: BufferView,
    parsed: Result<ResponseHeadView, Seq<char>>,
    end: int,
) -> ResponseTurn {
    match parsed {
        Err(text) => ResponseTurn {
            step: ResponseStepView::Failed(HttpErrorView::ParseResponseError(text)),
            header,
            state: ResponseStateView::Empty,
        },
        Ok(head) => match header_length(head.headers) {
            Some(len) => sized_turn(header, head, end, len),
            None => {
                let remaining = header.data.skip(end);
                let run = chunks_run(remaining, Seq::empty());
                if not_in_chunks(run, remaining) {
                    sized_turn(header, head, end, 0)
                } else {
                    chunked_turn(
                        header.cap,
                        head,
                        run,
                        ResponseStepView::NeedRead(header.cap - run.rest.len()),
                    )
                }
            },
        },
    }
}

/// One turn of reading a response, given what reading the stream gave, if it was read.
pub open spec fn response_turn(
    read: Option<ReadView>,
    header: BufferView,
    state: ResponseStateView,
) -> ResponseTurn {
    match (state, read) {
        (_, Some(ReadView::Eof)) | (_, Some(ReadView::Failed)) => ResponseTurn {
            step: ResponseStepView::Failed(HttpErrorView::ReadEOF),
            header,
            state,
        },
        (ResponseStateView::ReadBody(head, buf), Some(ReadView::Data(bytes))) => collect_turn(
            header,
            head,
            buf.appended(bytes),
        ),
        (ResponseStateView::ReadBody(head, buf), Some(ReadView::WouldBlock)) => ResponseTurn {
            step: ResponseStepView::NotReady,
            header,
            state,
        },
        (ResponseStateView::ReadBody(head, buf), None) => collect_turn(header, head, buf),
        (_, None) => ResponseTurn {
            step: ResponseStepView::NeedRead(header.room()),
            header,
            state,
        },
        (ResponseStateView::Empty, Some(ReadView::Data(bytes))) => response_head_turn(
            header.appended(bytes),
        ),
        (ResponseStateView::Empty, Some(ReadView::WouldBlock)) => if header.data.len() == 0 {
            ResponseTurn { step: ResponseStepView::NotReady, header, state }
        } else {
            response_head_turn(header)
        },
        (ResponseStateView::ReadChunkedBody(head, chunks), Some(ReadView::Data(bytes))) => {
            chunked_turn(
                header.cap,
                head,
                chunks_run(header.data + bytes, chunks),
                ResponseStepView::NotReady,
            )
        },
        (ResponseStateView::ReadChunkedBody(head, chunks), Some(ReadView::WouldBlock)) => {
            chunked_turn(
                header.cap,
                head,
                chunks_run(header.data, chunks),
                ResponseStepView::NotReady,
            )
        },
    }
}

/// How many bytes the next read may give.
pub open spec fn response_room(header: BufferView, state: ResponseStateView) -> int {
    match state {
        ResponseStateView::ReadBody(_, buf) => buf.room(),
        _ => header.room(),
    }
}

/// A run keeps the chunks that were there, or replaces the last; and it leaves no more bytes
/// than it was given. Where it starts without a chunk and takes something off, there is one.
pub proof fn lemma_chunks_grow(buf: Seq<u8>, chunks: Seq<BufferView>)
    ensures
        chunks_run(buf, chunks).chunks.len() >= chunks.len(),
        chunks_run(buf, chunks).rest.len() <= buf.len(),
        chunks_run(buf, chunks).rest.is_suffix_of(buf),
        chunks_run(buf, chunks).rest.len() < buf.len() && !(chunks_run(buf, chunks).end
            is Overflow) ==> chunks_run(buf, chunks).chunks.len() > 0,
        chunks_run(buf, chunks).end is NotChunked ==> chunks.len() == 0,
        chunks_run(buf, chunks).end is Finished ==> chunks_run(buf, chunks).chunks.len() > 0,
    decreases buf.len(),
{
    let run = chunks_run(buf, chunks);
    if chunks_finished(chunks) || buf.len() == 0 {
        assert(buf.subrange(0, buf.len() as int) =~= buf);
    } else if chunk_open(chunks) {
        let (chunk, n) = fed(chunks.last(), buf);
        let rest = buf.skip(n);
        assert(rest =~= buf.subrange(n, buf.len() as int));
        if !chunk.is_full() {
            lemma_chunks_grow(rest, chunks.drop_last().push(chunk));
            lemma_suffix(run.rest, rest, buf);
        } else if seq![13u8, 10u8].is_suffix_of(chunk.data) {
            let cap = (chunk.cap - 2) as nat;
            let cut = BufferView { data: chunk.data.take(cap as int), cap };
            lemma_chunks_grow(rest, chunks.drop_last().push(cut));
            lemma_suffix(run.rest, rest, buf);
        }
    } else {
        match find_crlf(buf) {
            None => {
                assert(buf.subrange(0, buf.len() as int) =~= buf);
            },
            Some(i) => {
                assert(first_crlf(buf, i));
                let rest = buf.skip(i + 2);
                assert(rest =~= buf.subrange(i + 2, buf.len() as int));
                match hex_uint(buf.take(i)) {
                    Ok(n) => {
                        if n + 2 <= usize::MAX {
                            lemma_chunks_grow(
                                rest,
                                chunks.push(BufferView { data: Seq::empty(), cap: n + 2 }),
                            );
                            lemma_suffix(run.rest, rest, buf);
                        }
                    },
                    Err(_) => {
                        assert(buf.subrange(0, buf.len() as int) =~= buf);
                    },
                }
            },
        }
    }
}

proof fn lemma_suffix(a: Seq<u8>, b: Seq<u8>, c: Seq<u8>)
    requires
        a.is_suffix_of(b),
        b.is_suffix_of(c),
    ensures
        a.is_suffix_of(c),
{
    assert(a =~= c.subrange(c.len() - a.len(), c.len() as int));
}

impl HttpResponse {
    fn with_head(head: ResponseHead, body: Vec<u8>) -> (r: HttpResponse)
        ensures
            r@ == response_of(head@, body@),
    {
        HttpResponse { status: head.status, headers: head.headers, body }
    }

    /// Goes on with the body collected so far.
    fn collect(state: &mut HttpResponseReadState, head: ResponseHead, buf: BufferVec) -> (r:
        ResponseStep)
        requires
            buf.wf(),
            old(state)@ is Empty,
        ensures
            final(state).wf(),
            forall|header: BufferView|
                {
                    let turn = #[trigger] collect_turn(header, head@, buf@);
                    r@ == turn.step && final(state)@ == turn.state && header == turn.header
                },
    {
        if buf.is_full() {
            ResponseStep::Done(Self::with_head(head, buf.to_vec()))
        } else {
            let room = buf.room();
            *state = HttpResponseReadState::ReadBody(head, buf);
            ResponseStep::NeedRead(room)
        }
    }

    /// Takes a body of `len` bytes that follows the head that ends at `end`.
    fn take_sized(
        header_buffer: &mut BufferVec,
        state: &mut HttpResponseReadState,
        head: ResponseHead,
        end: usize,
        len: usize,
    ) -> (r: ResponseStep)
        requires
            old(header_buffer).wf(),
            old(state)@ is Empty,
            end <= old(header_buffer)@.data.len(),
        ensures
            final(header_buffer).wf(),
            final(state).wf(),
            ({
                let turn = sized_turn(old(header_buffer)@, head@, end as int, len as nat);
                &&& r@ == turn.step
                &&& final(header_buffer)@ == turn.header
                &&& final(state)@ == turn.state
            }),
    {
        let total = header_buffer.len();
        let ghost before = header_buffer@;
        let remaining = slice_subrange(header_buffer.read(), end, total);
        assert(remaining@ =~= before.data.skip(end as int));
        if len >= remaining.len() {
            let buf = BufferVec::from_slice(remaining, len);
            header_buffer.rotate_left(total);
            assert(header_buffer@.data =~= Seq::<u8>::empty());
            let ghost rest = header_buffer@;
            let ghost collected = buf@;
            let ghost h = head@;
            let r = Self::collect(state, head, buf);
            assert(collect_turn(rest, h, collected).header == rest);
            r
        } else {
            let body = slice_to_vec(slice_subrange(remaining, 0, len));
            assert(body@ =~= before.data.skip(end as int).take(len as int));
            header_buffer.rotate_left(end + len);
            ResponseStep::Done(Self::with_head(head, body))
        }
    }

    /// Goes on behind the end of a run over chunks.
    fn after_chunks(
        state: &mut HttpResponseReadState,
        head: ResponseHead,
        chunks: Vec<BufferVec>,
        outcome: Option<ChunksReadState>,
        more: ResponseStep,
        Ghost(run): Ghost<ChunksRun>,
    ) -> (r: ResponseStep)
        requires
            old(state)@ is Empty,
            all_wf(chunks@),
            chunks@.len() > 0,
            run.chunks == buffer_views(chunks@),
            outcome is None <==> run.end is Overflow,
            outcome matches Some(s) ==> tells(s, run.end),
            !(run.end is NotChunked),
        ensures
            final(state).wf(),
            forall|cap: nat|
                {
                    let turn = #[trigger] chunked_turn(cap, head@, run, more@);
                    &&& r@ == turn.step
                    &&& final(state)@ == turn.state
                    &&& turn.header == (BufferView { data: run.rest, cap })
                },
    {
        match outcome {
            None => ResponseStep::Fault(ResponseFault::ChunkOverflow),
            Some(ChunksReadState::Finished) => {
                let body = join_buffers(&chunks);
                ResponseStep::Done(Self::with_head(head, body))
            },
            Some(ChunksReadState::IllegalBody(text)) => {
                ResponseStep::Fault(ResponseFault::IllegalBody(text))
            },
            Some(_) => {
                *state = HttpResponseReadState::ReadChunkedBody(head, chunks);
                more
            },
        }
    }

    /// Goes on with a head that was found at the front of the header buffer and ends at `end`.
    pub fn on_head(
        header_buffer: &mut BufferVec,
        state: &mut HttpResponseReadState,
        parsed: Result<ResponseHead, String>,
        end: usize,
    ) -> (r: ResponseStep)
        requires
            old(header_buffer).wf(),
            old(state)@ is Empty,
            end <= old(header_buffer)@.data.len(),
            parsed matches Ok(head) ==> head.wf(),
        ensures
            final(header_buffer).wf(),
            final(state).wf(),
            ({
                let turn = found_turn(
                    old(header_buffer)@,
                    match parsed {
                        Ok(head) => Ok(head@),
                        Err(text) => Err(text@),
                    },
                    end as int,
                );
                &&& r@ == turn.step
                &&& final(header_buffer)@ == turn.header
                &&& final(state)@ == turn.state
            }),
    {
        let head = match parsed {
            Ok(head) => head,
            Err(text) => return ResponseStep::Failed(HttpError::ParseResponseError(text)),
        };
        if let Some(len) = head.content_len {
            return Self::take_sized(header_buffer, state, head, end, len);
        }
        let total = header_buffer.len();
        let ghost before = header_buffer@;
        let ghost run = chunks_run(before.data.skip(end as int), Seq::empty());
        let mut chunks: Vec<BufferVec> = Vec::new();
        assert(buffer_views(chunks@) =~= Seq::<BufferView>::empty());
        let remaining = slice_subrange(header_buffer.read(), end, total);
        assert(remaining@ =~= before.data.skip(end as int));
        let mut rest: &[u8] = remaining;
        let outcome = try_read_chunks(&mut rest, &mut chunks);
        let left = rest.len();
        let plain = match &outcome {
            Some(ChunksReadState::NotChunked) => true,
            Some(ChunksReadState::BufferNotEnough) => left == remaining.len(),
            _ => false,
        };
        if plain {
            return Self::take_sized(header_buffer, state, head, end, 0);
        }
        proof {
            lemma_chunks_grow(before.data.skip(end as int), Seq::empty());
        }
        header_buffer.rotate_left(total - left);
        assert(header_buffer@.data =~= run.rest);
        assert(buffer_views(chunks@).len() == chunks@.len());
        if chunks.len() == 0 {
            return match outcome {
                None => ResponseStep::Fault(ResponseFault::ChunkOverflow),
                Some(ChunksReadState::IllegalBody(text)) => {
                    ResponseStep::Fault(ResponseFault::IllegalBody(text))
                },
                _ => ResponseStep::NotReady,
            };
        }
        let more = ResponseStep::NeedRead(header_buffer.room());
        let ghost h = head@;
        let ghost m = more@;
        let r = Self::after_chunks(state, head, chunks, outcome, more, Ghost(run));
        assert(chunked_turn(before.cap, h, run, m).header == header_buffer@);
        r
    }

    /// Looks for a response in the header buffer.
    fn read_head(header_buffer: &mut BufferVec, state: &mut HttpResponseReadState) -> (r:
        ResponseStep)
        requires
            old(header_buffer).wf(),
            old(state)@ is Empty,
        ensures
            final(header_buffer).wf(),
            final(state).wf(),
            ({
                let turn = response_head_turn(old(header_buffer)@);
                &&& r@ == turn.step
                &&& final(header_buffer)@ == turn.header
                &&& final(state)@ == turn.state
            }),
    {
        let mark: [u8; 4] = [13, 10, 13, 10];
        assert(mark@ =~= empty_line());
        match find_slice(header_buffer.read(), &mark) {
            None => {
                proof {
                    let data = header_buffer@.data;
                    if exists|i: int| first_match(data, empty_line(), i) {
                        let i = choose|i: int| first_match(data, empty_line(), i);
                        assert(match_at(data, empty_line(), i));
                    }
                }
                if header_buffer.is_full() {
                    ResponseStep::Failed(HttpError::ReadEOF)
                } else {
                    ResponseStep::NotReady
                }
            },
            Some(end) => {
                proof {
                    lemma_head_end(header_buffer@.data, end - 4);
                }
                let bytes = slice_subrange(header_buffer.read(), 0, end);
                assert(bytes@ =~= header_buffer@.data.take(end as int));
                let parsed = parse_response_head(bytes);
                Self::on_head(header_buffer, state, parsed, end)
            },
        }
    }

    /// Goes on with the chunks in the header buffer.
    fn read_more_chunks(
        header_buffer: &mut BufferVec,
        state: &mut HttpResponseReadState,
        head: ResponseHead,
        chunks: Vec<BufferVec>,
    ) -> (r: ResponseStep)
        requires
            old(header_buffer).wf(),
            old(state)@ is Empty,
            all_wf(chunks@),
            chunks@.len() > 0,
        ensures
            final(header_buffer).wf(),
            final(state).wf(),
            ({
                let turn = chunked_turn(
                    old(header_buffer)@.cap,
                    head@,
                    chunks_run(old(header_buffer)@.data, buffer_views(chunks@)),
                    ResponseStepView::NotReady,
                );
                &&& r@ == turn.step
                &&& final(header_buffer)@ == turn.header
                &&& final(state)@ == turn.state
            }),
    {
        let ghost before = header_buffer@;
        let ghost run = chunks_run(before.data, buffer_views(chunks@));
        let mut chunks = chunks;
        proof {
            assert(buffer_views(chunks@).len() == chunks@.len());
            lemma_chunks_grow(before.data, buffer_views(chunks@));
        }
        let total = header_buffer.len();
        let mut rest: &[u8] = header_buffer.read();
        let outcome = try_read_chunks(&mut rest, &mut chunks);
        let left = rest.len();
        header_buffer.rotate_left(total - left);
        assert(header_buffer@.data =~= run.rest);
        assert(buffer_views(chunks@).len() == chunks@.len());
        let ghost h = head@;
        let r = Self::after_chunks(
            state,
            head,
            chunks,
            outcome,
            ResponseStep::NotReady,
            Ghost(run),
        );
        assert(chunked_turn(before.cap, h, run, ResponseStepView::NotReady).header
            == header_buffer@);
        r
    }

    /// Reads a response: `read` is what reading the stream gave, nothing at first. The answer says
    /// what to do next; after [`ResponseStep::NeedRead`] the function is called again with what
    /// reading gave.
    pub fn read_from(
        read: Option<StreamRead>,
        header_buffer: &mut BufferVec,
        state: &mut HttpResponseReadState,
    ) -> (r: ResponseStep)
        requires
            old(header_buffer).wf(),
            old(state).wf(),
            read_fits(read_view(read), response_room(old(header_buffer)@, old(state)@)),
        ensures
            final(header_buffer).wf(),
            final(state).wf(),
            ({
                let turn = response_turn(read_view(read), old(header_buffer)@, old(state)@);
                &&& r@ == turn.step
                &&& final(header_buffer)@ == turn.header
                &&& final(state)@ == turn.state
            }),
    {
        match &read {
            Some(StreamRead::Eof) | Some(StreamRead::Failed) => {
                return ResponseStep::Failed(HttpError::ReadEOF);
            },
            _ => {},
        }
        match state.swap_to_empty() {
            HttpResponseReadState::ReadBody(head, buf) => {
                let mut buf = buf;
                match read {
                    Some(StreamRead::Data(bytes)) => {
                        buf.append(bytes.as_slice());
                    },
                    Some(_) => {
                        *state = HttpResponseReadState::ReadBody(head, buf);
                        return ResponseStep::NotReady;
                    },
                    None => {},
                }
                let ghost h = head@;
                let ghost b = buf@;
                let r = Self::collect(state, head, buf);
                assert(collect_turn(header_buffer@, h, b).header == header_buffer@);
                r
            },
            HttpResponseReadState::Empty => match read {
                None => ResponseStep::NeedRead(header_buffer.room()),
                Some(StreamRead::Data(bytes)) => {
                    header_buffer.append(bytes.as_slice());
                    Self::read_head(header_buffer, state)
                },
                Some(_) => {
                    if header_buffer.len() == 0 {
                        return ResponseStep::NotReady;
                    }
                    Self::read_head(header_buffer, state)
                },
            },
            HttpResponseReadState::ReadChunkedBody(head, chunks) => {
                match read {
                    None => {
                        *state = HttpResponseReadState::ReadChunkedBody(head, chunks);
                        return ResponseStep::NeedRead(header_buffer.room());
                    },
                    Some(StreamRead::Data(bytes)) => {
                        header_buffer.append(bytes.as_slice());
                    },
                    Some(_) => {},
                }
                Self::read_more_chunks(header_buffer, state, head, chunks)
            },
        }
    }
}

} // verus!
