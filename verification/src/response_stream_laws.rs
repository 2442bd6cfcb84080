//! What holds of responses that come one behind the other, however their bytes are cut.
use crate::buffer::{concatenated, joined, BufferView};
use crate::chunked::{chunks_run, ChunksEnd, ChunksRun};
use crate::chunked_laws::{
    chunk_line, encoded_body, is_body, law_body_breaks_off, law_chunks_resume,
    law_chunks_round_trip, pieces_of, short_line, SentChunk,
};
use crate::encoding::{
    lemma_decimal_len, lemma_encode_concat, lemma_encode_len, lemma_number_of_decimal,
};
use crate::headers::{header_length, lists, lower, HeaderEntry};
use crate::lines::{all_telling, lemma_head_ends, lemma_line_end, lemma_lines_are_full};
use crate::response::{
    empty_response, header_line, header_lines, is_phrase, is_written, response_bytes,
    response_with_body, status_line, ResponseView,
};
use crate::response_head::{
    head_text, is_head_with, lemma_head_read, lemma_status_is_line, plain_header, plain_headers,
    ResponseHeadView,
};
use crate::response_laws::{law_built_response_is_plain, law_head_end_stays, plain_table};
use crate::response_read::{
    chunked_turn, collect_turn, head_end, lemma_chunks_grow, parsed_head, response_head,
    response_head_turn, response_of, response_room, response_turn, sized_turn, ResponseStateView, ResponseStepView, ResponseTurn,
};
use crate::stream::{read_fits, ReadView};
use crate::text::decimal;
use vstd::arithmetic::power::pow;
use vstd::prelude::*;
use vstd::utf8::encode_utf8;

verus! {

/// A response as it is sent, with its headers in the order of `list`, and its body as it is or in
/// chunks.
pub struct SentResponse {
    pub response: ResponseView,
    pub phrase: Seq<char>,
    pub list: Seq<HeaderEntry>,
    pub chunks: Option<Seq<SentChunk>>,
}

impl SentResponse {
    pub open spec fn head(self) -> Seq<u8> {
        encode_utf8(head_text(self.response.status, self.phrase, self.list))
    }

    /// The body as it is sent.
    pub open spec fn body(self) -> Seq<u8> {
        match self.chunks {
            Some(chunks) => encoded_body(chunks),
            None => self.response.body,
        }
    }

    pub open spec fn bytes(self) -> Seq<u8> {
        self.head() + self.body()
    }

    /// What the head holds.
    pub open spec fn view(self) -> ResponseHeadView {
        ResponseHeadView { status: self.response.status, headers: self.response.headers }
    }

    /// Whether the response can be sent to a reader with a buffer for `cap` bytes: its headers can
    /// be told from their lines, and its head fits. The headers give the length of the body, or no
    /// length where the body comes in chunks.
    pub open spec fn fits(self, cap: nat) -> bool {
        &&& !self.phrase.contains('\n')
        &&& lists(self.response.headers, self.list)
        &&& plain_headers(self.list)
        &&& self.head().len() <= cap
        &&& match self.chunks {
            Some(chunks) => {
                &&& header_length(self.response.headers) is None
                &&& is_body(chunks)
                &&& forall|i: int| 0 <= i < chunks.len() ==> short_line(#[trigger] chunks[i])
                &&& self.response.body == concatenated(pieces_of(chunks))
            },
            None => header_length(self.response.headers) == Some(self.response.body.len()),
        }
    }

    /// Whether it can be told, from the first `n` bytes, whether the body comes in chunks. It
    /// cannot where they end behind the head and before the first chunk: what then has no length
    /// is taken for empty.
    pub open spec fn can_be_told(self, n: int) -> bool {
        self.chunks matches Some(chunks) ==> n < self.head().len() || n >= self.head().len()
            + chunk_line(chunks[0]).len()
    }
}

/// The bytes of responses, one behind the other.
pub open spec fn stream_of(responses: Seq<SentResponse>) -> Seq<u8>
    decreases responses.len(),
{
    if responses.len() == 0 {
        Seq::empty()
    } else {
        stream_of(responses.drop_last()) + responses.last().bytes()
    }
}

/// Whether it can be told of all responses whether their bodies come in chunks, from the first `n`
/// bytes.
pub open spec fn all_told(responses: Seq<SentResponse>, n: int) -> bool {
    forall|i: int|
        0 <= i < responses.len() ==> (#[trigger] responses[i]).can_be_told(
            n - stream_of(responses.take(i)).len(),
        )
}

/// Whether reading the begin of a body in chunks needs more, leaves `rest` and has given `chunks`.
#[verifier::opaque]
pub open spec fn breaks_off(part: Seq<u8>, rest: Seq<u8>, chunks: Seq<BufferView>) -> bool {
    chunks_run(part, Seq::empty()) == (ChunksRun { end: ChunksEnd::BufferNotEnough, rest, chunks })
}

/// Whether a reader that was given `got`, out of the bytes of `responses`, has given the first
/// `count` of them and lost nothing of what is behind them.
pub open spec fn read_so_far(
    responses: Seq<SentResponse>,
    got: Seq<u8>,
    count: int,
    header: BufferView,
    state: ResponseStateView,
) -> bool {
    &&& 0 <= count <= responses.len()
    &&& got.is_prefix_of(stream_of(responses))
    &&& header.data.len() <= header.cap
    &&& match state {
        ResponseStateView::Empty => got == stream_of(responses.take(count)) + header.data,
        ResponseStateView::ReadBody(head, buf) => {
            &&& count < responses.len()
            &&& responses[count].chunks is None
            &&& header.data.len() == 0
            &&& head == responses[count].view()
            &&& buf.cap == responses[count].body().len()
            &&& buf.data.len() < buf.cap
            &&& got == stream_of(responses.take(count)) + responses[count].head() + buf.data
        },
        ResponseStateView::ReadChunkedBody(head, chunks) => {
            let start = stream_of(responses.take(count)).len() + responses[count].head().len();
            &&& count < responses.len()
            &&& responses[count].chunks is Some
            &&& head == responses[count].view()
            &&& start <= got.len() < start + responses[count].body().len()
            &&& breaks_off(got.skip(start as int), header.data, chunks)
        },
    }
}

/// The first `k + 1` of some responses.
proof fn lemma_stream_step(responses: Seq<SentResponse>, k: int)
    requires
        0 <= k < responses.len(),
    ensures
        stream_of(responses.take(k + 1)) == stream_of(responses.take(k)) + responses[k].bytes(),
{
    assert(responses.take(k + 1).drop_last() =~= responses.take(k));
}

/// The bytes of the first responses are the first bytes.
proof fn lemma_stream_prefix(responses: Seq<SentResponse>, k: int)
    requires
        0 <= k <= responses.len(),
    ensures
        stream_of(responses.take(k)).is_prefix_of(stream_of(responses)),
    decreases responses.len() - k,
{
    if k < responses.len() {
        lemma_stream_step(responses, k);
        lemma_stream_prefix(responses, k + 1);
        let a = stream_of(responses.take(k));
        let b = stream_of(responses.take(k + 1));
        assert(a =~= b.subrange(0, a.len() as int));
        assert(a =~= stream_of(responses).subrange(0, a.len() as int));
    } else {
        assert(responses.take(k) =~= responses);
        let a = stream_of(responses);
        assert(a =~= a.subrange(0, a.len() as int));
    }
}

/// What is behind the responses that were given is the begin of the next and of what follows it.
proof fn lemma_held(responses: Seq<SentResponse>, got: Seq<u8>, count: int, rest: Seq<u8>)
    requires
        0 <= count <= responses.len(),
        got.is_prefix_of(stream_of(responses)),
        got == stream_of(responses.take(count)) + rest,
    ensures
        count == responses.len() ==> rest.len() == 0,
        count < responses.len() ==> {
            let next = responses[count];
            &&& rest.len() <= next.bytes().len() ==> rest.is_prefix_of(next.bytes())
            &&& rest.len() >= next.bytes().len() ==> next.bytes().is_prefix_of(rest)
        },
{
    let before = stream_of(responses.take(count));
    let all = stream_of(responses);
    assert(got =~= all.subrange(0, got.len() as int));
    assert forall|i: int| 0 <= i < rest.len() implies rest[i] == all[before.len() + i] by {
        assert(got[before.len() + i] == rest[i]);
    }
    if count == responses.len() {
        assert(responses.take(count) =~= responses);
    } else {
        let next = responses[count].bytes();
        lemma_stream_step(responses, count);
        lemma_stream_prefix(responses, count + 1);
        let through = stream_of(responses.take(count + 1));
        assert(through =~= all.subrange(0, through.len() as int));
        assert forall|i: int| 0 <= i < next.len() implies next[i] == all[before.len() + i] by {
            assert(through[before.len() + i] == next[i]);
        }
        if rest.len() <= next.len() {
            assert(rest =~= next.subrange(0, rest.len() as int));
        }
        if rest.len() >= next.len() {
            assert(next =~= rest.subrange(0, next.len() as int));
        }
    }
}

/// The head of a response is told from what follows it, and understood.
proof fn lemma_head(sent: SentResponse, cap: nat, rest: Seq<u8>)
    requires
        sent.fits(cap),
    ensures
        head_end(sent.head() + rest) == Some(sent.head().len() as int),
        parsed_head(sent.head()) == Ok::<ResponseHeadView, Seq<char>>(sent.view()),
        sent.head().len() > 0,
{
    let status = sent.response.status;
    let first = status_line(status, sent.phrase);
    let head = sent.head();
    assert(is_head_with(head, sent.view(), sent.phrase, sent.list));
    lemma_head_read(head, sent.view(), response_head(head));
    lemma_status_is_line(status, sent.phrase);
    assert(all_telling(sent.list));
    lemma_lines_are_full(first, sent.list);
    let lines = encode_utf8(first + header_lines(sent.list));
    lemma_encode_concat(first + header_lines(sent.list), "\r\n"@);
    lemma_line_end();
    assert(head + rest =~= lines + seq![13u8, 10u8] + rest);
    lemma_head_ends(lines, rest);
}

/// What comes of what the buffer holds, where no head was read and the body has a length.
proof fn lemma_look(next: SentResponse, header: BufferView)
    requires
        next.fits(header.cap),
        next.chunks is None,
        header.data.len() <= next.bytes().len() ==> header.data.is_prefix_of(next.bytes()),
        header.data.len() >= next.bytes().len() ==> next.bytes().is_prefix_of(header.data),
    ensures
        response_head_turn(header) == if header.data.len() < next.head().len() {
            ResponseTurn {
                step: ResponseStepView::NotReady,
                header,
                state: ResponseStateView::Empty,
            }
        } else if header.data.len() < next.bytes().len() {
            let buf = BufferView {
                data: header.data.skip(next.head().len() as int),
                cap: next.body().len(),
            };
            ResponseTurn {
                step: ResponseStepView::NeedRead(buf.room()),
                header: BufferView { data: Seq::empty(), cap: header.cap },
                state: ResponseStateView::ReadBody(next.view(), buf),
            }
        } else {
            ResponseTurn {
                step: ResponseStepView::Done(next.response),
                header: header.consumed(next.bytes().len() as int),
                state: ResponseStateView::Empty,
            }
        },
{
    let data = header.data;
    let head = next.head();
    let bytes = next.bytes();
    let end = head.len() as int;
    lemma_head(next, header.cap, Seq::empty());
    assert(head + Seq::<u8>::empty() =~= head);
    lemma_alike(data, bytes);
    if data.len() < head.len() {
        if head_end(data) is Some {
            let left = head.skip(data.len() as int);
            assert(data + left =~= head);
            law_head_end_stays(data, left);
        }
    } else {
        let rest = data.skip(end);
        assert(data.take(end) =~= head);
        assert(data =~= head + rest);
        lemma_head(next, header.cap, rest);
        let turn = response_head_turn(header);
        assert(turn == sized_turn(header, next.view(), end, next.body().len()));
        if data.len() >= bytes.len() {
            assert(rest.take(next.body().len() as int) =~= next.body()) by {
                assert forall|i: int| 0 <= i < next.body().len() implies rest[i]
                    == next.body()[i] by {
                    assert(data[end + i] == bytes[end + i]);
                }
            }
            assert(response_of(next.view(), next.body()) == next.response);
            if data.len() == bytes.len() {
                assert(rest =~= next.body());
                assert(header.consumed(bytes.len() as int).data =~= Seq::<u8>::empty());
            }
        }
    }
}

/// What comes of what the buffer holds, where no head was read and the body comes in chunks.
#[verifier::rlimit(30)]
proof fn lemma_look_chunked(next: SentResponse, header: BufferView)
    requires
        next.fits(header.cap),
        next.chunks is Some,
        next.can_be_told(header.data.len() as int),
        header.data.len() <= next.bytes().len() ==> header.data.is_prefix_of(next.bytes()),
        header.data.len() >= next.bytes().len() ==> next.bytes().is_prefix_of(header.data),
    ensures
        ({
            let run = chunks_run(header.data.skip(next.head().len() as int), Seq::empty());
            response_head_turn(header) == if header.data.len() < next.head().len() {
                ResponseTurn {
                    step: ResponseStepView::NotReady,
                    header,
                    state: ResponseStateView::Empty,
                }
            } else if header.data.len() < next.bytes().len() {
                ResponseTurn {
                    step: ResponseStepView::NeedRead(header.cap - run.rest.len()),
                    header: BufferView { data: run.rest, cap: header.cap },
                    state: ResponseStateView::ReadChunkedBody(next.view(), run.chunks),
                }
            } else {
                ResponseTurn {
                    step: ResponseStepView::Done(next.response),
                    header: header.consumed(next.bytes().len() as int),
                    state: ResponseStateView::Empty,
                }
            }
        }),
        next.head().len() <= header.data.len() < next.bytes().len() ==> ({
            let run = chunks_run(header.data.skip(next.head().len() as int), Seq::empty());
            &&& run.end is BufferNotEnough
            &&& run.rest.len() <= header.data.len()
        }),
{
    let data = header.data;
    let head = next.head();
    let bytes = next.bytes();
    let end = head.len() as int;
    lemma_head(next, header.cap, Seq::empty());
    assert(head + Seq::<u8>::empty() =~= head);
    lemma_alike(data, bytes);
    if data.len() < head.len() {
        if head_end(data) is Some {
            let left = head.skip(data.len() as int);
            assert(data + left =~= head);
            law_head_end_stays(data, left);
        }
    } else {
        let rest = data.skip(end);
        assert(data.take(end) =~= head);
        assert(data =~= head + rest);
        lemma_head(next, header.cap, rest);
        let sent = next.chunks->0;
        let wire = encoded_body(sent);
        assert(wire =~= bytes.skip(end));
        if data.len() < bytes.len() {
            assert(rest =~= wire.subrange(0, rest.len() as int));
            law_body_breaks_off(sent, rest, Seq::empty());
        } else {
            let tail = data.skip(bytes.len() as int);
            assert(rest =~= wire + tail);
            law_chunks_round_trip(sent, tail);
            assert(chunk_line(sent[0]).len() > 0);
            assert(response_of(next.view(), next.response.body) == next.response);
            assert(header.consumed(bytes.len() as int).data =~= tail);
        }
    }
}

/// Where one of two runs of bytes starts with the other, they are alike as far as both go.
proof fn lemma_alike(a: Seq<u8>, b: Seq<u8>)
    requires
        a.len() <= b.len() ==> a.is_prefix_of(b),
        a.len() >= b.len() ==> b.is_prefix_of(a),
    ensures
        forall|i: int| 0 <= i < a.len() && i < b.len() ==> #[trigger] a[i] == #[trigger] b[i],
{
    assert forall|i: int| 0 <= i < a.len() && i < b.len() implies #[trigger] a[i]
        == #[trigger] b[i] by {
        if a.len() <= b.len() {
            assert(a[i] == b.subrange(0, a.len() as int)[i]);
        } else {
            assert(b[i] == a.subrange(0, b.len() as int)[i]);
        }
    }
}

/// Whether a turn gives the next response, out of `got`, or loses nothing. Where the reader has
/// `looked` at what came, it waits only if the next response is not there as a whole.
pub open spec fn goes_on(
    responses: Seq<SentResponse>,
    got: Seq<u8>,
    count: int,
    cap: nat,
    looked: bool,
    turn: ResponseTurn,
) -> bool {
    &&& turn.header.cap == cap
    &&& match turn.step {
        ResponseStepView::Done(response) => {
            &&& count < responses.len()
            &&& response == responses[count].response
            &&& read_so_far(responses, got, count + 1, turn.header, turn.state)
        },
        ResponseStepView::NeedRead(_) | ResponseStepView::NotReady => {
            &&& read_so_far(responses, got, count, turn.header, turn.state)
            &&& turn.step matches ResponseStepView::NeedRead(n) ==> n == response_room(
                turn.header,
                turn.state,
            )
            &&& looked && count < responses.len() ==> got.len() < stream_of(
                responses.take(count + 1),
            ).len()
        },
        _ => false,
    }
}

/// What comes of a look at the buffer, where no head was read before and the next body has a
/// length.
proof fn lemma_next_sized(
    responses: Seq<SentResponse>,
    got: Seq<u8>,
    count: int,
    header: BufferView,
)
    requires
        0 <= count < responses.len(),
        responses[count].fits(header.cap),
        responses[count].chunks is None,
        read_so_far(responses, got, count, header, ResponseStateView::Empty),
    ensures
        goes_on(responses, got, count, header.cap, true, response_head_turn(header)),
{
    let before = stream_of(responses.take(count));
    let rest = header.data;
    let next = responses[count];
    let head = next.head();
    lemma_held(responses, got, count, rest);
    lemma_stream_step(responses, count);
    lemma_look(next, header);
    lemma_alike(rest, next.bytes());
    if rest.len() >= next.bytes().len() {
        let left = rest.skip(next.bytes().len() as int);
        assert(rest =~= next.bytes() + left);
        assert(got =~= stream_of(responses.take(count + 1)) + left);
    } else if rest.len() >= head.len() {
        let part = rest.skip(head.len() as int);
        assert(rest =~= head + part);
        assert(got =~= before + head + part);
    }
}

/// What comes of a look at the buffer, where no head was read before and the next body comes in
/// chunks.
#[verifier::rlimit(30)]
proof fn lemma_next_chunked(
    responses: Seq<SentResponse>,
    got: Seq<u8>,
    count: int,
    header: BufferView,
)
    requires
        0 <= count < responses.len(),
        responses[count].fits(header.cap),
        responses[count].chunks is Some,
        responses[count].can_be_told(header.data.len() as int),
        read_so_far(responses, got, count, header, ResponseStateView::Empty),
    ensures
        goes_on(responses, got, count, header.cap, true, response_head_turn(header)),
{
    reveal(breaks_off);
    let before = stream_of(responses.take(count));
    let rest = header.data;
    let next = responses[count];
    let head = next.head();
    lemma_held(responses, got, count, rest);
    lemma_stream_step(responses, count);
    lemma_look_chunked(next, header);
    lemma_alike(rest, next.bytes());
    let turn = response_head_turn(header);
    if rest.len() >= next.bytes().len() {
        let left = rest.skip(next.bytes().len() as int);
        assert(rest =~= next.bytes() + left);
        assert(got =~= stream_of(responses.take(count + 1)) + left);
    } else if rest.len() >= head.len() {
        let start = (before.len() + head.len()) as int;
        assert(got.skip(start) =~= rest.skip(head.len() as int));
        let run = chunks_run(got.skip(start), Seq::empty());
        assert(breaks_off(got.skip(start), run.rest, run.chunks));
    }
}

/// What comes of a look at the buffer, where no head was read before.
proof fn lemma_next_at_head(
    responses: Seq<SentResponse>,
    got: Seq<u8>,
    count: int,
    header: BufferView,
)
    requires
        responses.len() > 0,
        forall|i: int| 0 <= i < responses.len() ==> (#[trigger] responses[i]).fits(header.cap),
        read_so_far(responses, got, count, header, ResponseStateView::Empty),
        all_told(responses, got.len() as int),
    ensures
        goes_on(responses, got, count, header.cap, true, response_head_turn(header)),
{
    lemma_held(responses, got, count, header.data);
    if count == responses.len() {
        lemma_nothing_there(responses[0], header);
    } else if responses[count].chunks is None {
        lemma_next_sized(responses, got, count, header);
    } else {
        let before = stream_of(responses.take(count));
        assert(responses[count].can_be_told(got.len() - before.len()));
        lemma_next_chunked(responses, got, count, header);
    }
}

/// Without a byte, nothing comes of a look at the buffer.
proof fn lemma_nothing_there(any: SentResponse, header: BufferView)
    requires
        any.fits(header.cap),
        header.data.len() == 0,
    ensures
        response_head_turn(header) == (ResponseTurn {
            step: ResponseStepView::NotReady,
            header,
            state: ResponseStateView::Empty,
        }),
{
    lemma_head(any, header.cap, Seq::empty());
}

/// What reading more of a body in chunks comes to.
proof fn lemma_more_chunks(sent: Seq<SentChunk>, part: Seq<u8>, more: Seq<u8>, run: ChunksRun)
    requires
        is_body(sent),
        forall|i: int| 0 <= i < sent.len() ==> short_line(#[trigger] sent[i]),
        run == chunks_run(part, Seq::empty()),
        run.end is BufferNotEnough,
    ensures
        ({
            let both = part + more;
            let wire = encoded_body(sent);
            let then = chunks_run(run.rest + more, run.chunks);
            &&& then == chunks_run(both, Seq::empty())
            &&& then.rest.len() <= run.rest.len() + more.len()
            &&& both.len() < wire.len() && both.is_prefix_of(wire) ==> then.end is BufferNotEnough
            &&& wire.is_prefix_of(both) ==> {
                &&& then.end is Finished
                &&& then.rest == both.skip(wire.len() as int)
                &&& joined(then.chunks) == concatenated(pieces_of(sent))
            }
        }),
{
    let both = part + more;
    let wire = encoded_body(sent);
    law_chunks_resume(part, more, Seq::empty());
    lemma_chunks_grow(run.rest + more, run.chunks);
    if both.len() < wire.len() && both.is_prefix_of(wire) {
        law_body_breaks_off(sent, both, Seq::empty());
    }
    if wire.is_prefix_of(both) {
        let tail = both.skip(wire.len() as int);
        assert(both =~= wire + tail) by {
            assert(wire == both.subrange(0, wire.len() as int));
        }
        law_chunks_round_trip(sent, tail);
    }
}

/// Where bytes of a body stand among those of responses.
proof fn lemma_body_there(responses: Seq<SentResponse>, got: Seq<u8>, count: int)
    requires
        0 <= count < responses.len(),
        got.is_prefix_of(stream_of(responses)),
        got.len() >= stream_of(responses.take(count)).len() + responses[count].head().len(),
    ensures
        ({
            let next = responses[count];
            let start = stream_of(responses.take(count)).len() + next.head().len();
            let part = got.skip(start as int);
            let wire = next.body();
            &&& stream_of(responses.take(count + 1)).len() == start + wire.len()
            &&& part.len() <= wire.len() ==> part.is_prefix_of(wire)
            &&& part.len() >= wire.len() ==> wire.is_prefix_of(part) && got == stream_of(
                responses.take(count + 1),
            ) + part.skip(wire.len() as int)
        }),
{
    let next = responses[count];
    let before = stream_of(responses.take(count));
    let head = next.head();
    let wire = next.body();
    let start = (before.len() + head.len()) as int;
    let part = got.skip(start);
    let through = stream_of(responses.take(count + 1));
    let stream = stream_of(responses);
    lemma_stream_step(responses, count);
    lemma_stream_prefix(responses, count + 1);
    assert(got == stream.subrange(0, got.len() as int));
    assert(through == stream.subrange(0, through.len() as int));
    assert forall|i: int| 0 <= i < part.len() && i < wire.len() implies part[i] == wire[i] by {
        assert(through[start + i] == stream[start + i]);
        assert(through[start + i] == wire[i]);
    }
    if part.len() <= wire.len() {
        assert(part =~= wire.subrange(0, part.len() as int));
    }
    if part.len() >= wire.len() {
        assert(wire =~= part.subrange(0, wire.len() as int));
        assert(got =~= through + part.skip(wire.len() as int));
    }
}

/// What comes of bytes of a body in chunks.
#[verifier::rlimit(30)]
proof fn lemma_next_in_chunks(
    responses: Seq<SentResponse>,
    got: Seq<u8>,
    count: int,
    header: BufferView,
    chunks: Seq<BufferView>,
    more: Seq<u8>,
)
    requires
        0 <= count < responses.len(),
        responses[count].fits(header.cap),
        read_so_far(
            responses,
            got,
            count,
            header,
            ResponseStateView::ReadChunkedBody(responses[count].view(), chunks),
        ),
        more.len() <= header.room(),
        (got + more).is_prefix_of(stream_of(responses)),
    ensures
        goes_on(
            responses,
            got + more,
            count,
            header.cap,
            true,
            chunked_turn(
                header.cap,
                responses[count].view(),
                chunks_run(header.data + more, chunks),
                ResponseStepView::NotReady,
            ),
        ),
{
    reveal(breaks_off);
    let all = got + more;
    let next = responses[count];
    let sent = next.chunks->0;
    let start = (stream_of(responses.take(count)).len() + next.head().len()) as int;
    let part = got.skip(start);
    let run = ChunksRun { end: ChunksEnd::BufferNotEnough, rest: header.data, chunks };
    lemma_more_chunks(sent, part, more, run);
    lemma_body_there(responses, all, count);
    assert(all.skip(start) =~= part + more);
    let then = chunks_run(header.data + more, chunks);
    if all.len() < start + next.body().len() {
        assert(breaks_off(all.skip(start), then.rest, then.chunks));
    } else {
        assert(response_of(next.view(), next.response.body) == next.response);
    }
}

/// What comes of bytes of a body.
proof fn lemma_next_in_body(
    responses: Seq<SentResponse>,
    got: Seq<u8>,
    count: int,
    header: BufferView,
    buf: BufferView,
)
    requires
        0 <= count < responses.len(),
        responses[count].fits(header.cap),
        responses[count].chunks is None,
        got.is_prefix_of(stream_of(responses)),
        header.data.len() == 0,
        buf.cap == responses[count].body().len(),
        buf.data.len() <= buf.cap,
        got == stream_of(responses.take(count)) + responses[count].head() + buf.data,
    ensures
        goes_on(
            responses,
            got,
            count,
            header.cap,
            true,
            collect_turn(header, responses[count].view(), buf),
        ),
{
    let before = stream_of(responses.take(count));
    let next = responses[count];
    let rest = next.head() + buf.data;
    assert(got =~= before + rest);
    lemma_held(responses, got, count, rest);
    lemma_stream_step(responses, count);
    if buf.is_full() {
        lemma_alike(rest, next.bytes());
        assert(rest =~= next.bytes());
        assert(buf.data =~= rest.skip(next.head().len() as int));
        assert(next.body() =~= next.bytes().skip(next.head().len() as int));
        assert(response_of(next.view(), next.body()) == next.response);
        assert(got =~= stream_of(responses.take(count + 1)) + header.data);
    }
}

/// Where no head was read before, nothing comes of it if there was no read, or if it gave nothing
/// and there was nothing before.
proof fn lemma_quiet_at_head(
    responses: Seq<SentResponse>,
    got: Seq<u8>,
    count: int,
    header: BufferView,
    read: Option<ReadView>,
)
    requires
        forall|i: int| 0 <= i < responses.len() ==> (#[trigger] responses[i]).fits(header.cap),
        read_so_far(responses, got, count, header, ResponseStateView::Empty),
        read is None || read == Some(ReadView::WouldBlock) && header.data.len() == 0,
    ensures
        goes_on(
            responses,
            got,
            count,
            header.cap,
            read is Some,
            response_turn(read, header, ResponseStateView::Empty),
        ),
{
    if count < responses.len() {
        lemma_stream_step(responses, count);
        lemma_head(responses[count], header.cap, Seq::empty());
    }
}

/// What a read comes to, where no head was read before.
#[verifier::rlimit(30)]
proof fn lemma_read_at_head(
    responses: Seq<SentResponse>,
    got: Seq<u8>,
    count: int,
    header: BufferView,
    read: Option<ReadView>,
)
    requires
        responses.len() > 0,
        forall|i: int| 0 <= i < responses.len() ==> (#[trigger] responses[i]).fits(header.cap),
        read_so_far(responses, got, count, header, ResponseStateView::Empty),
        read_fits(read, response_room(header, ResponseStateView::Empty)),
        read != Some(ReadView::Eof),
        read != Some(ReadView::Failed),
        (got + bytes_of(read)).is_prefix_of(stream_of(responses)),
        all_told(responses, (got + bytes_of(read)).len() as int),
    ensures
        goes_on(
            responses,
            got + bytes_of(read),
            count,
            header.cap,
            read is Some,
            response_turn(read, header, ResponseStateView::Empty),
        ),
{
    let all = got + bytes_of(read);
    let turn = response_turn(read, header, ResponseStateView::Empty);
    if let Some(ReadView::Data(bytes)) = read {
        let full = header.appended(bytes);
        assert(all =~= stream_of(responses.take(count)) + full.data);
        assert(turn == response_head_turn(full));
        lemma_next_at_head(responses, all, count, full);
    } else {
        assert(all =~= got);
        if read is Some && header.data.len() > 0 {
            assert(turn == response_head_turn(header));
            lemma_next_at_head(responses, all, count, header);
        } else {
            lemma_quiet_at_head(responses, got, count, header, read);
        }
    }
}

/// What a read comes to, within a body that has a length.
proof fn lemma_read_in_body(
    responses: Seq<SentResponse>,
    got: Seq<u8>,
    count: int,
    header: BufferView,
    head: ResponseHeadView,
    buf: BufferView,
    read: Option<ReadView>,
)
    requires
        0 <= count < responses.len(),
        responses[count].fits(header.cap),
        read_so_far(responses, got, count, header, ResponseStateView::ReadBody(head, buf)),
        read_fits(read, response_room(header, ResponseStateView::ReadBody(head, buf))),
        read != Some(ReadView::Eof),
        read != Some(ReadView::Failed),
        (got + bytes_of(read)).is_prefix_of(stream_of(responses)),
    ensures
        goes_on(
            responses,
            got + bytes_of(read),
            count,
            header.cap,
            read is Some,
            response_turn(read, header, ResponseStateView::ReadBody(head, buf)),
        ),
{
    let next = responses[count];
    let before = stream_of(responses.take(count));
    let all = got + bytes_of(read);
    match read {
        Some(ReadView::Data(bytes)) => {
            let full = buf.appended(bytes);
            assert(all =~= before + next.head() + full.data);
            lemma_next_in_body(responses, all, count, header, full);
        },
        None => {
            assert(all =~= got);
            lemma_next_in_body(responses, all, count, header, buf);
        },
        _ => {
            assert(all =~= got);
            lemma_stream_step(responses, count);
            assert(got.len() == before.len() + next.head().len() + buf.data.len());
        },
    }
}

/// What a read comes to, within a body in chunks.
proof fn lemma_read_in_chunks(
    responses: Seq<SentResponse>,
    got: Seq<u8>,
    count: int,
    header: BufferView,
    head: ResponseHeadView,
    chunks: Seq<BufferView>,
    read: Option<ReadView>,
)
    requires
        0 <= count < responses.len(),
        responses[count].fits(header.cap),
        read_so_far(
            responses,
            got,
            count,
            header,
            ResponseStateView::ReadChunkedBody(head, chunks),
        ),
        read_fits(read, response_room(header, ResponseStateView::ReadChunkedBody(head, chunks))),
        read != Some(ReadView::Eof),
        read != Some(ReadView::Failed),
        (got + bytes_of(read)).is_prefix_of(stream_of(responses)),
    ensures
        goes_on(
            responses,
            got + bytes_of(read),
            count,
            header.cap,
            read is Some,
            response_turn(read, header, ResponseStateView::ReadChunkedBody(head, chunks)),
        ),
{
    let more = bytes_of(read);
    if read is Some {
        lemma_next_in_chunks(responses, got, count, header, chunks, more);
        if more.len() == 0 {
            assert(header.data + more =~= header.data);
        }
    } else {
        assert(got + more =~= got);
    }
}

/// However the bytes of responses that come one behind the other are cut, a reader gives the
/// responses, each as it was sent and in their order, and loses nothing: whatever it is called
/// with, it gives the next response, or keeps all that it was given. Once it has looked at what
/// came, it waits only where the next response is not there as a whole. A response in chunks must
/// not be cut between its head and its first chunk.
pub proof fn law_next_response_is_read(
    responses: Seq<SentResponse>,
    got: Seq<u8>,
    count: int,
    header: BufferView,
    state: ResponseStateView,
    read: Option<ReadView>,
)
    requires
        responses.len() > 0,
        forall|i: int| 0 <= i < responses.len() ==> (#[trigger] responses[i]).fits(header.cap),
        read_so_far(responses, got, count, header, state),
        read_fits(read, response_room(header, state)),
        read != Some(ReadView::Eof),
        read != Some(ReadView::Failed),
        (got + bytes_of(read)).is_prefix_of(stream_of(responses)),
        all_told(responses, (got + bytes_of(read)).len() as int),
    ensures
        goes_on(
            responses,
            got + bytes_of(read),
            count,
            header.cap,
            read is Some,
            response_turn(read, header, state),
        ),
{
    match state {
        ResponseStateView::Empty => lemma_read_at_head(responses, got, count, header, read),
        ResponseStateView::ReadBody(head, buf) => lemma_read_in_body(
            responses,
            got,
            count,
            header,
            head,
            buf,
            read,
        ),
        ResponseStateView::ReadChunkedBody(head, chunks) => lemma_read_in_chunks(
            responses,
            got,
            count,
            header,
            head,
            chunks,
            read,
        ),
    }
}

/// Calls of a reader, one after the other: the responses that it gave, and where it is then.
pub struct Reading {
    pub given: Seq<ResponseView>,
    pub got: Seq<u8>,
    pub header: BufferView,
    pub state: ResponseStateView,
    /// What was to be done at last.
    pub step: ResponseStepView,
}

/// The bytes that a read has given.
pub open spec fn bytes_of(read: Option<ReadView>) -> Seq<u8> {
    match read {
        Some(ReadView::Data(bytes)) => bytes,
        _ => Seq::empty(),
    }
}

/// What calls of a reader without anything in its buffer come to.
pub open spec fn reading(reads: Seq<Option<ReadView>>, cap: nat) -> Reading
    decreases reads.len(),
{
    if reads.len() == 0 {
        Reading {
            given: Seq::empty(),
            got: Seq::empty(),
            header: BufferView { data: Seq::empty(), cap },
            state: ResponseStateView::Empty,
            step: ResponseStepView::NotReady,
        }
    } else {
        let before = reading(reads.drop_last(), cap);
        let turn = response_turn(reads.last(), before.header, before.state);
        Reading {
            given: match turn.step {
                ResponseStepView::Done(response) => before.given.push(response),
                _ => before.given,
            },
            got: before.got + bytes_of(reads.last()),
            header: turn.header,
            state: turn.state,
            step: turn.step,
        }
    }
}

/// Whether each read gives bytes for which there is room, or none yet.
pub open spec fn reads_fit(reads: Seq<Option<ReadView>>, cap: nat) -> bool
    decreases reads.len(),
{
    reads.len() > 0 ==> {
        let before = reading(reads.drop_last(), cap);
        &&& reads_fit(reads.drop_last(), cap)
        &&& !(reads.last() matches Some(ReadView::Eof))
        &&& !(reads.last() matches Some(ReadView::Failed))
        &&& read_fits(reads.last(), response_room(before.header, before.state))
    }
}

/// Whether it can be told, whenever bytes have come, whether bodies come in chunks.
pub open spec fn reads_tell(
    responses: Seq<SentResponse>,
    reads: Seq<Option<ReadView>>,
    cap: nat,
) -> bool
    decreases reads.len(),
{
    reads.len() > 0 ==> {
        &&& reads_tell(responses, reads.drop_last(), cap)
        &&& all_told(responses, reading(reads, cap).got.len() as int)
    }
}

/// The responses that were sent.
pub open spec fn responses_of(sent: Seq<SentResponse>) -> Seq<ResponseView> {
    Seq::new(sent.len(), |i: int| sent[i].response)
}

/// From a stream of responses that come one behind the other, cut anywhere and with pauses
/// anywhere, a reader gives the first of these responses, as they were sent and in their order; and
/// when it waits after a look at what came, it has given all that came as a whole. A response in
/// chunks must not be cut between its head and its first chunk.
pub proof fn law_responses_in_a_row(
    responses: Seq<SentResponse>,
    reads: Seq<Option<ReadView>>,
    cap: nat,
)
    requires
        responses.len() > 0,
        forall|i: int| 0 <= i < responses.len() ==> (#[trigger] responses[i]).fits(cap),
        reads_fit(reads, cap),
        reads_tell(responses, reads, cap),
        reading(reads, cap).got.is_prefix_of(stream_of(responses)),
    ensures
        ({
            let r = reading(reads, cap);
            let n = r.given.len() as int;
            &&& n <= responses.len()
            &&& r.given == responses_of(responses.take(n))
            &&& read_so_far(responses, r.got, n, r.header, r.state)
            &&& r.header.cap == cap
            &&& reads.len() > 0 && reads.last() is Some && !(r.step is Done) && n
                < responses.len() ==> r.got.len() < stream_of(responses.take(n + 1)).len()
        }),
    decreases reads.len(),
{
    let r = reading(reads, cap);
    if reads.len() == 0 {
        assert(responses.take(0) =~= Seq::<SentResponse>::empty());
        assert(r.given =~= responses_of(responses.take(0)));
        assert(r.got =~= stream_of(responses.take(0)) + r.header.data);
    } else {
        let before = reading(reads.drop_last(), cap);
        let k = before.given.len() as int;
        let all = stream_of(responses);
        assert(before.got =~= r.got.subrange(0, before.got.len() as int));
        assert(before.got =~= all.subrange(0, before.got.len() as int));
        law_responses_in_a_row(responses, reads.drop_last(), cap);
        law_next_response_is_read(
            responses,
            before.got,
            k,
            before.header,
            before.state,
            reads.last(),
        );
        if r.step is Done {
            assert(r.given =~= responses_of(responses.take(k + 1))) by {
                assert forall|i: int| 0 <= i < k implies r.given[i]
                    == responses.take(k + 1)[i].response by {
                    assert(before.given[i] == responses.take(k)[i].response);
                }
            }
        }
    }
}

proof fn lemma_stream_of_one(sent: SentResponse)
    ensures
        stream_of(seq![sent]) == sent.bytes(),
{
    let none = Seq::<SentResponse>::empty();
    assert(seq![sent].drop_last() =~= none);
    assert(stream_of(none) =~= Seq::<u8>::empty());
    assert(stream_of(seq![sent]) =~= sent.bytes());
}

/// A response that can be sent is given by the time all its bytes have come, once and as it was
/// sent, however they are cut, and if it comes in chunks not between its head and the first of
/// them; and nothing is left of them.
pub proof fn law_response_is_given_whole(
    sent: SentResponse,
    reads: Seq<Option<ReadView>>,
    cap: nat,
)
    requires
        sent.fits(cap),
        reads_fit(reads, cap),
        reads_tell(seq![sent], reads, cap),
        reading(reads, cap).got == sent.bytes(),
    ensures
        reading(reads, cap).given == seq![sent.response],
        reading(reads, cap).header.data.len() == 0,
        reading(reads, cap).state is Empty,
{
    let all = seq![sent];
    let r = reading(reads, cap);
    lemma_stream_of_one(sent);
    assert(r.got =~= stream_of(all).subrange(0, r.got.len() as int));
    assert forall|i: int| 0 <= i < all.len() implies (#[trigger] all[i]).fits(cap) by {}
    law_responses_in_a_row(all, reads, cap);
    lemma_given_in_time(sent, reads, cap);
    assert(all.take(1) =~= all);
    assert(r.given =~= seq![sent.response]);
    if r.state is Empty {
        lemma_held(all, r.got, 1, r.header.data);
    }
}

proof fn lemma_given_in_time(sent: SentResponse, reads: Seq<Option<ReadView>>, cap: nat)
    requires
        sent.fits(cap),
        reads_fit(reads, cap),
        reads_tell(seq![sent], reads, cap),
        reading(reads, cap).got.is_prefix_of(sent.bytes()),
    ensures
        reading(reads, cap).got.len() == sent.bytes().len() ==> reading(reads, cap).given.len()
            == 1,
    decreases reads.len(),
{
    let all = seq![sent];
    let r = reading(reads, cap);
    lemma_stream_of_one(sent);
    assert(all.take(1) =~= all);
    assert forall|i: int| 0 <= i < all.len() implies (#[trigger] all[i]).fits(cap) by {}
    law_responses_in_a_row(all, reads, cap);
    lemma_head(sent, cap, Seq::empty());
    if reads.len() > 0 {
        let before = reading(reads.drop_last(), cap);
        assert(before.got =~= r.got.subrange(0, before.got.len() as int));
        assert(before.got =~= sent.bytes().subrange(0, before.got.len() as int));
        lemma_given_in_time(sent, reads.drop_last(), cap);
        if reads.last() is None {
            assert(r.got =~= before.got);
        }
    }
}

/// Nothing is to be told where the headers give the length.
proof fn lemma_length_tells(sent: SentResponse, reads: Seq<Option<ReadView>>, cap: nat)
    requires
        sent.chunks is None,
    ensures
        reads_tell(seq![sent], reads, cap),
    decreases reads.len(),
{
    if reads.len() > 0 {
        lemma_length_tells(sent, reads.drop_last(), cap);
        assert forall|i: int| 0 <= i < 1 implies (#[trigger] seq![sent][i]).can_be_told(
            reading(reads, cap).got.len() - stream_of(seq![sent].take(i)).len(),
        ) by {}
    }
}

/// A response that was written is given as it was, by the time all its bytes have come and however
/// they are cut, provided that its headers can be told from their lines and give the length of its
/// body, and that its head fits into the buffer of the reader.
pub proof fn law_written_response_is_read(
    response: ResponseView,
    phrase: Seq<char>,
    bytes: Seq<u8>,
    reads: Seq<Option<ReadView>>,
    cap: nat,
)
    requires
        is_written(response, phrase, bytes),
        !phrase.contains('\n'),
        plain_table(response.headers),
        header_length(response.headers) == Some(response.body.len()),
        bytes.len() - response.body.len() <= cap,
        reads_fit(reads, cap),
        reading(reads, cap).got == bytes,
    ensures
        reading(reads, cap).given == seq![response],
        reading(reads, cap).header.data.len() == 0,
        reading(reads, cap).state is Empty,
{
    let list = choose|list: Seq<HeaderEntry>|
        #[trigger] lists(response.headers, list) && bytes == response_bytes(
            response.status,
            phrase,
            list,
            response.body,
        );
    let sent = SentResponse { response, phrase, list, chunks: None };
    assert forall|i: int| 0 <= i < list.len() implies plain_header(#[trigger] list[i]) by {
        assert(response.headers.contains_pair(lower(list[i].name), list[i]));
    }
    assert(sent.bytes() =~= bytes);
    lemma_length_tells(sent, reads, cap);
    law_response_is_given_whole(sent, reads, cap);
}

/// A response that was put together, with a status that has a phrase and with a body, is given as
/// it was written, however the bytes are cut, by a reader with a buffer for 8096 bytes.
pub proof fn law_built_response_is_read(
    code: u16,
    phrase: Seq<char>,
    body: Seq<u8>,
    bytes: Seq<u8>,
    reads: Seq<Option<ReadView>>,
)
    requires
        body.len() <= usize::MAX,
        is_phrase(phrase),
        is_written(response_with_body(empty_response(code), body), phrase, bytes),
        reads_fit(reads, 8096),
        reading(reads, 8096).got == bytes,
    ensures
        reading(reads, 8096).given == seq![response_with_body(empty_response(code), body)],
        reading(reads, 8096).header.data.len() == 0,
        reading(reads, 8096).state is Empty,
{
    let response = response_with_body(empty_response(code), body);
    let list = choose|list: Seq<HeaderEntry>|
        #[trigger] lists(response.headers, list) && bytes == response_bytes(
            response.status,
            phrase,
            list,
            response.body,
        );
    lemma_built_head(code, body, list);
    lemma_built_plain(code, body);
    lemma_number_of_decimal(body.len());
    lemma_encode_len(head_text(code, phrase, list));
    lemma_digits_few(code as nat);
    lemma_digits_few(body.len());
    reveal_strlit("HTTP/1.1 ");
    reveal_strlit(" ");
    reveal_strlit("\r\n");
    reveal_strlit(": ");
    reveal_strlit("Content-Length");
    assert(status_line(code, phrase).len() <= 63);
    assert(header_line(list[0]).len() <= 38);
    assert(header_lines(list) =~= header_line(list[0])) by {
        assert(header_lines(list.drop_last()) =~= Seq::<char>::empty());
    }
    assert(bytes =~= encode_utf8(head_text(code, phrase, list)) + body);
    law_written_response_is_read(response, phrase, bytes, reads, 8096);
}

/// The headers of a response that was put together.
proof fn lemma_built_head(code: u16, body: Seq<u8>, list: Seq<HeaderEntry>)
    requires
        lists(response_with_body(empty_response(code), body).headers, list),
    ensures
        list.len() == 1,
        list[0] == (HeaderEntry { name: "Content-Length"@, value: decimal(body.len()) }),
{
    let map = response_with_body(empty_response(code), body).headers;
    let key = lower("Content-Length"@);
    assert(map.contains_key(key));
    let i = choose|i: int| 0 <= i < list.len() && lower((#[trigger] list[i]).name) == key;
    assert(map.contains_pair(lower(list[i].name), list[i]));
    if list.len() > 1 {
        assert(map.contains_pair(lower(list[0].name), list[0]));
        assert(map.contains_pair(lower(list[1].name), list[1]));
        assert(lower(list[0].name) != lower(list[1].name));
    }
}

proof fn lemma_built_plain(code: u16, body: Seq<u8>)
    ensures
        plain_table(response_with_body(empty_response(code), body).headers),
{
    let none = ResponseView { status: code, headers: Map::empty(), body: Seq::empty() };
    let header = HeaderEntry { name: Seq::empty(), value: Seq::empty() };
    assert(plain_header(header));
    law_built_response_is_plain(none, header, Seq::empty());
    law_built_response_is_plain(empty_response(code), header, body);
}

/// A machine word has at most twenty digits.
proof fn lemma_digits_few(n: nat)
    requires
        n <= usize::MAX,
    ensures
        decimal(n).len() <= 20,
{
    reveal_with_fuel(pow, 21);
    assert(pow(10, 20) == 100_000_000_000_000_000_000int);
    lemma_decimal_len(n, 20);
}

} // verus!
