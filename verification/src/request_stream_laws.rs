//! What holds of requests that come one behind the other, however their bytes are cut.
use crate::buffer::BufferView;
use crate::error::{HttpErrorView, HttpParseError};
use crate::headers::HeaderEntry;
use crate::request::{declared_length, request_head, request_in, request_size, RequestView};
use crate::request_build::request_text;
use crate::request_read::{
    request_room, request_turn, size_limit, RequestStepView, RequestTurn,
};
use crate::sent_request::{
    begins_head, can_be_sent, lemma_begun_read, lemma_sent_read, received, sent_head,
    starts_with_head,
};
use crate::stream::{read_fits, ReadView};
use vstd::prelude::*;
use vstd::utf8::encode_utf8;

verus! {

/// A request as a client sends it.
pub struct SentRequest {
    pub method: Seq<char>,
    pub resource: Seq<char>,
    pub list: Seq<HeaderEntry>,
    pub body: Seq<u8>,
}

impl SentRequest {
    pub open spec fn head(self) -> Seq<u8> {
        encode_utf8(request_text(self.method, self.resource, self.list))
    }

    pub open spec fn bytes(self) -> Seq<u8> {
        self.head() + self.body
    }

    /// Whether the request can be sent to a reader with a buffer for `cap` bytes: its head fits,
    /// its headers give the length of its body, and it is not too large.
    pub open spec fn fits(self, cap: nat, max_body: Option<usize>) -> bool {
        &&& can_be_sent(self.method, self.resource, self.list)
        &&& declared_length(received(self.list)) == Some(self.body.len())
        &&& self.head().len() <= cap
        &&& self.bytes().len() <= usize::MAX
        &&& self.bytes().len() <= size_limit(max_body)
    }

    /// The request as it is read.
    pub open spec fn as_read(self, peer_ip: Option<Seq<char>>) -> RequestView {
        request_in(self.bytes(), sent_head(self.method, self.resource, self.list), peer_ip)
    }
}

/// The bytes of requests, one behind the other.
pub open spec fn stream_of(requests: Seq<SentRequest>) -> Seq<u8>
    decreases requests.len(),
{
    if requests.len() == 0 {
        Seq::empty()
    } else {
        stream_of(requests.drop_last()) + requests.last().bytes()
    }
}

/// What a reader has not given yet of what it was given.
pub open spec fn held(header: BufferView, pending: Option<BufferView>) -> Seq<u8> {
    match pending {
        None => header.data,
        Some(buf) => buf.data,
    }
}

/// Whether a reader that was given `got`, out of the bytes of `requests`, has given the first
/// `count` of them and lost nothing of what is behind them.
pub open spec fn read_so_far(
    requests: Seq<SentRequest>,
    got: Seq<u8>,
    count: int,
    header: BufferView,
    pending: Option<BufferView>,
) -> bool {
    &&& 0 <= count <= requests.len()
    &&& got.is_prefix_of(stream_of(requests))
    &&& got == stream_of(requests.take(count)) + held(header, pending)
    &&& pending matches Some(buf) ==> {
        &&& count < requests.len()
        &&& header.data.len() == 0
        &&& buf.cap == requests[count].bytes().len()
        &&& requests[count].head().is_prefix_of(buf.data)
        &&& buf.data.len() < buf.cap
    }
}

/// The first `k + 1` of some requests.
proof fn lemma_stream_step(requests: Seq<SentRequest>, k: int)
    requires
        0 <= k < requests.len(),
    ensures
        stream_of(requests.take(k + 1)) == stream_of(requests.take(k)) + requests[k].bytes(),
{
    assert(requests.take(k + 1).drop_last() =~= requests.take(k));
}

/// The bytes of the first requests are the first bytes.
proof fn lemma_stream_prefix(requests: Seq<SentRequest>, k: int)
    requires
        0 <= k <= requests.len(),
    ensures
        stream_of(requests.take(k)).is_prefix_of(stream_of(requests)),
    decreases requests.len() - k,
{
    if k < requests.len() {
        lemma_stream_step(requests, k);
        lemma_stream_prefix(requests, k + 1);
        let a = stream_of(requests.take(k));
        let b = stream_of(requests.take(k + 1));
        assert(a =~= b.subrange(0, a.len() as int));
        assert(a =~= stream_of(requests).subrange(0, a.len() as int));
    } else {
        assert(requests.take(k) =~= requests);
        let a = stream_of(requests);
        assert(a =~= a.subrange(0, a.len() as int));
    }
}

/// What is held is the begin of the next request and of what follows it.
proof fn lemma_held(requests: Seq<SentRequest>, got: Seq<u8>, count: int, rest: Seq<u8>)
    requires
        0 <= count <= requests.len(),
        got.is_prefix_of(stream_of(requests)),
        got == stream_of(requests.take(count)) + rest,
    ensures
        count == requests.len() ==> rest.len() == 0,
        count < requests.len() ==> {
            let next = requests[count];
            &&& rest.len() <= next.bytes().len() ==> rest.is_prefix_of(next.bytes())
            &&& rest.len() >= next.bytes().len() ==> next.bytes().is_prefix_of(rest)
        },
{
    let before = stream_of(requests.take(count));
    let all = stream_of(requests);
    assert(got =~= all.subrange(0, got.len() as int));
    assert forall|i: int| 0 <= i < rest.len() implies rest[i] == all[before.len() + i] by {
        assert(got[before.len() + i] == rest[i]);
    }
    if count == requests.len() {
        assert(requests.take(count) =~= requests);
    } else {
        let next = requests[count].bytes();
        lemma_stream_step(requests, count);
        lemma_stream_prefix(requests, count + 1);
        let through = stream_of(requests.take(count + 1));
        assert(through =~= all.subrange(0, through.len() as int));
        assert forall|i: int| 0 <= i < next.len() implies next[i] == all[before.len() + i] by {
            assert(through[before.len() + i] == next[i]);
        }
        if rest.len() <= next.len() {
            assert(rest =~= next.subrange(0, rest.len() as int));
        }
        if rest.len() >= next.len() {
            assert(next =~= rest.subrange(0, next.len() as int));
        }
    }
}

/// What comes of what is held, where no head was read.
proof fn lemma_look(
    next: SentRequest,
    header: BufferView,
    max_body: Option<usize>,
    peer_ip: Option<Seq<char>>,
)
    requires
        next.fits(header.cap, max_body),
        header.data.len() <= next.bytes().len() ==> header.data.is_prefix_of(next.bytes()),
        header.data.len() >= next.bytes().len() ==> next.bytes().is_prefix_of(header.data),
    ensures
        request_turn(None, header, None, max_body, peer_ip) == if header.data.len()
            < next.head().len() {
            RequestTurn {
                step: RequestStepView::NeedRead(header.room()),
                header,
                pending: None,
            }
        } else if header.data.len() < next.bytes().len() {
            RequestTurn {
                step: RequestStepView::NeedRead(next.bytes().len() - header.data.len()),
                header: BufferView { data: Seq::empty(), cap: header.cap },
                pending: Some(BufferView { data: header.data, cap: next.bytes().len() }),
            }
        } else {
            RequestTurn {
                step: RequestStepView::Done(next.as_read(peer_ip)),
                header: header.consumed(next.bytes().len() as int),
                pending: None,
            }
        },
{
    let data = header.data;
    let head = next.head();
    let bytes = next.bytes();
    assert(head =~= bytes.subrange(0, head.len() as int));
    if data.len() < head.len() {
        assert(data =~= head.subrange(0, data.len() as int)) by {
            assert(data =~= bytes.subrange(0, data.len() as int));
        }
        assert(begins_head(data, next.method, next.resource, next.list));
        lemma_begun_read(data, next.method, next.resource, next.list, request_head(data));
    } else {
        assert(head =~= data.subrange(0, head.len() as int)) by {
            if data.len() <= bytes.len() {
                assert(data =~= bytes.subrange(0, data.len() as int));
            } else {
                assert(bytes =~= data.subrange(0, bytes.len() as int));
            }
        }
        assert(starts_with_head(data, next.method, next.resource, next.list));
        lemma_sent_read(data, next.method, next.resource, next.list, request_head(data));
        assert(request_size(data) == Ok::<Option<nat>, HttpParseError>(
            Some(bytes.len()),
        ));
        if data.len() >= bytes.len() {
            assert(data.take(bytes.len() as int) =~= bytes);
        }
    }
}

/// However the bytes of requests that come one behind the other are cut, a reader gives the
/// requests, each as it was sent and in their order, and loses nothing: whatever it is called with,
/// it gives the next request, or keeps all that it was given and asks for more, with room for it.
/// It asks for more only where the next request is not there as a whole.
pub proof fn law_next_request_is_read(
    requests: Seq<SentRequest>,
    got: Seq<u8>,
    count: int,
    header: BufferView,
    pending: Option<BufferView>,
    read: Option<ReadView>,
    more: Seq<u8>,
    max_body: Option<usize>,
    peer_ip: Option<Seq<char>>,
)
    requires
        requests.len() > 0,
        forall|i: int|
            0 <= i < requests.len() ==> (#[trigger] requests[i]).fits(header.cap, max_body),
        read_so_far(requests, got, count, header, pending),
        header.data.len() <= header.cap,
        read_fits(read, request_room(header, pending)),
        match read {
            Some(ReadView::Data(bytes)) => more == bytes,
            Some(ReadView::WouldBlock) | None => more.len() == 0,
            _ => false,
        },
        (got + more).is_prefix_of(stream_of(requests)),
    ensures
        ({
            let turn = request_turn(read, header, pending, max_body, peer_ip);
            &&& turn.header.cap == header.cap
            &&& turn.header.data.len() <= turn.header.cap
            &&& match turn.step {
                RequestStepView::Done(request) => {
                    &&& count < requests.len()
                    &&& request == requests[count].as_read(peer_ip)
                    &&& read_so_far(requests, got + more, count + 1, turn.header, turn.pending)
                },
                RequestStepView::NeedRead(n) => {
                    &&& read_so_far(requests, got + more, count, turn.header, turn.pending)
                    &&& n == request_room(turn.header, turn.pending)
                    &&& n > 0
                    &&& count < requests.len() ==> (got + more).len() < stream_of(
                        requests.take(count + 1),
                    ).len()
                },
                RequestStepView::NotReady => {
                    &&& read == Some(ReadView::WouldBlock)
                    &&& read_so_far(requests, got, count, turn.header, turn.pending)
                },
                _ => false,
            }
        }),
{
    let before = stream_of(requests.take(count));
    let rest = held(header, pending) + more;
    let turn = request_turn(read, header, pending, max_body, peer_ip);
    assert(got + more =~= before + rest);
    lemma_held(requests, got + more, count, rest);
    if count < requests.len() {
        lemma_stream_step(requests, count);
    }
    if read == Some(ReadView::WouldBlock) {
    } else if pending is None {
        let full = header.appended(more);
        assert(full.data =~= rest);
        if more.len() == 0 {
            assert(full.data =~= header.data);
        }
        assert(turn == request_turn(None, full, None, max_body, peer_ip));
        if count == requests.len() {
            let any = requests[0];
            assert(any.fits(header.cap, max_body));
            assert(full.data =~= any.bytes().subrange(0, 0));
            lemma_some_head(any);
            lemma_look(any, full, max_body, peer_ip);
        } else {
            let next = requests[count];
            assert(next.fits(header.cap, max_body));
            lemma_look(next, full, max_body, peer_ip);
            if turn.step is Done {
                assert(next.bytes() =~= rest.subrange(0, next.bytes().len() as int));
                assert(got + more =~= stream_of(requests.take(count + 1)) + turn.header.data);
            } else if turn.pending is Some {
                assert(next.head() =~= rest.subrange(0, next.head().len() as int)) by {
                    assert(rest =~= next.bytes().subrange(0, rest.len() as int));
                }
            }
        }
    } else {
        let buf = pending->0;
        let next = requests[count];
        assert(next.fits(header.cap, max_body));
        let full = buf.appended(more);
        assert(full.data =~= rest);
        assert(next.head() =~= rest.subrange(0, next.head().len() as int)) by {
            assert(next.head() =~= buf.data.subrange(0, next.head().len() as int));
        }
        if full.is_full() {
            assert(rest =~= next.bytes());
            assert(starts_with_head(rest, next.method, next.resource, next.list));
            lemma_sent_read(rest, next.method, next.resource, next.list, request_head(rest));
            assert(header.data =~= Seq::<u8>::empty());
            assert(got + more =~= stream_of(requests.take(count + 1)) + header.data);
        } else if more.len() == 0 {
            assert(full.data =~= buf.data);
        }
    }
}

/// A stream that ends or fails, in a request or between two, is told from one that pauses.
pub proof fn law_end_of_stream_is_told(
    header: BufferView,
    pending: Option<BufferView>,
    max_body: Option<usize>,
    peer_ip: Option<Seq<char>>,
)
    ensures
        request_turn(Some(ReadView::Eof), header, pending, max_body, peer_ip) == (RequestTurn {
            step: RequestStepView::Failed(HttpErrorView::ReadEOF),
            header,
            pending,
        }),
        request_turn(Some(ReadView::Failed), header, pending, max_body, peer_ip)
            == request_turn(Some(ReadView::Eof), header, pending, max_body, peer_ip),
{
}

/// A head is not empty.
proof fn lemma_some_head(request: SentRequest)
    ensures
        request.head().len() > 0,
{
    let text = request_text(request.method, request.resource, request.list);
    reveal_strlit(" ");
    reveal_strlit(" HTTP/1.1\r\n");
    assert(text.len() > 0);
}

/// Calls of a reader, one after the other: the requests that it gave, and where it is then.
pub struct Reading {
    pub given: Seq<RequestView>,
    pub got: Seq<u8>,
    pub header: BufferView,
    pub pending: Option<BufferView>,
    /// What was to be done at last.
    pub step: RequestStepView,
}

/// The bytes that a read has given.
pub open spec fn bytes_of(read: Option<ReadView>) -> Seq<u8> {
    match read {
        Some(ReadView::Data(bytes)) => bytes,
        _ => Seq::empty(),
    }
}

/// What calls of a reader without anything in its buffer come to.
pub open spec fn reading(
    reads: Seq<Option<ReadView>>,
    cap: nat,
    max_body: Option<usize>,
    peer_ip: Option<Seq<char>>,
) -> Reading
    decreases reads.len(),
{
    if reads.len() == 0 {
        Reading {
            given: Seq::empty(),
            got: Seq::empty(),
            header: BufferView { data: Seq::empty(), cap },
            pending: None,
            step: RequestStepView::NotReady,
        }
    } else {
        let before = reading(reads.drop_last(), cap, max_body, peer_ip);
        let turn = request_turn(reads.last(), before.header, before.pending, max_body, peer_ip);
        Reading {
            given: match turn.step {
                RequestStepView::Done(request) => before.given.push(request),
                _ => before.given,
            },
            got: before.got + bytes_of(reads.last()),
            header: turn.header,
            pending: turn.pending,
            step: turn.step,
        }
    }
}

/// Whether each read gives bytes for which there is room, or none yet.
pub open spec fn reads_fit(
    reads: Seq<Option<ReadView>>,
    cap: nat,
    max_body: Option<usize>,
    peer_ip: Option<Seq<char>>,
) -> bool
    decreases reads.len(),
{
    reads.len() > 0 ==> {
        let before = reading(reads.drop_last(), cap, max_body, peer_ip);
        &&& reads_fit(reads.drop_last(), cap, max_body, peer_ip)
        &&& !(reads.last() matches Some(ReadView::Eof))
        &&& !(reads.last() matches Some(ReadView::Failed))
        &&& read_fits(reads.last(), request_room(before.header, before.pending))
    }
}

/// The requests as they are read.
pub open spec fn as_read(requests: Seq<SentRequest>, peer_ip: Option<Seq<char>>) -> Seq<
    RequestView,
> {
    Seq::new(requests.len(), |i: int| requests[i].as_read(peer_ip))
}

/// From a stream of requests that come one behind the other, cut anywhere and with pauses anywhere,
/// a reader gives the first of these requests, as they were sent and in their order; and when it
/// asks for more, it has given all that came as a whole.
pub proof fn law_requests_in_a_row(
    requests: Seq<SentRequest>,
    reads: Seq<Option<ReadView>>,
    cap: nat,
    max_body: Option<usize>,
    peer_ip: Option<Seq<char>>,
)
    requires
        requests.len() > 0,
        forall|i: int| 0 <= i < requests.len() ==> (#[trigger] requests[i]).fits(cap, max_body),
        reads_fit(reads, cap, max_body, peer_ip),
        reading(reads, cap, max_body, peer_ip).got.is_prefix_of(stream_of(requests)),
    ensures
        ({
            let r = reading(reads, cap, max_body, peer_ip);
            let n = r.given.len() as int;
            &&& n <= requests.len()
            &&& r.given == as_read(requests.take(n), peer_ip)
            &&& read_so_far(requests, r.got, n, r.header, r.pending)
            &&& r.header.cap == cap
            &&& r.header.data.len() <= cap
            &&& r.step is NeedRead && n < requests.len() ==> r.got.len() < stream_of(
                requests.take(n + 1),
            ).len()
            &&& r.step is NeedRead && r.got == stream_of(requests) ==> r.given == as_read(
                requests,
                peer_ip,
            )
        }),
    decreases reads.len(),
{
    let r = reading(reads, cap, max_body, peer_ip);
    if reads.len() == 0 {
        assert(requests.take(0) =~= Seq::<SentRequest>::empty());
        assert(r.given =~= as_read(requests.take(0), peer_ip));
        assert(r.got =~= stream_of(requests.take(0)) + r.header.data);
    } else {
        let before = reading(reads.drop_last(), cap, max_body, peer_ip);
        let more = bytes_of(reads.last());
        let k = before.given.len() as int;
        let all = stream_of(requests);
        assert(before.got =~= r.got.subrange(0, before.got.len() as int));
        assert(before.got =~= all.subrange(0, before.got.len() as int));
        law_requests_in_a_row(requests, reads.drop_last(), cap, max_body, peer_ip);
        law_next_request_is_read(
            requests,
            before.got,
            k,
            before.header,
            before.pending,
            reads.last(),
            more,
            max_body,
            peer_ip,
        );
        if r.step is NotReady {
            assert(r.got =~= before.got);
        }
        let n = r.given.len() as int;
        if r.step is Done {
            assert(r.given =~= as_read(requests.take(k + 1), peer_ip)) by {
                assert(requests.take(k + 1).drop_last() =~= requests.take(k));
                assert forall|i: int| 0 <= i < k implies r.given[i]
                    == requests.take(k + 1)[i].as_read(peer_ip) by {
                    assert(before.given[i] == requests.take(k)[i].as_read(peer_ip));
                }
            }
        }
        if r.step is NeedRead && r.got == all && n < requests.len() {
            lemma_stream_prefix(requests, n + 1);
        }
        if n == requests.len() {
            assert(requests.take(n) =~= requests);
        }
    }
}

} // verus!
