//! Reading requests off a stream, as their bytes come in.
use crate::buffer::{BufferVec, BufferView};
use crate::error::{HttpError, HttpErrorView, HttpParseError};
use crate::request::{
    head_settled, parsed_request, request_in, request_size, HttpRequestReaderEx, RequestView,
};
use crate::stream::{read_fits, read_view, text_view, ReadView, StreamRead};
use vstd::prelude::*;
use vstd::slice::slice_to_vec;

verus! {

/// How far the request that is being read was read.
#[derive(Debug)]
pub enum HttpRequestReadState {
    /// No head was read.
    Empty,
    /// The head was read, and the request is longer than what was there with it. The buffer has
    /// room for the whole request.
    ReadBody(BufferVec),
}

impl View for HttpRequestReadState {
    type V = Option<BufferView>;

    open spec fn view(&self) -> Option<BufferView> {
        match *self {
            HttpRequestReadState::Empty => None,
            HttpRequestReadState::ReadBody(buf) => Some(buf@),
        }
    }
}

impl HttpRequestReadState {
    pub open spec fn wf(&self) -> bool {
        *self matches HttpRequestReadState::ReadBody(buf) ==> buf.wf()
    }

    /// Takes the buffer of an unfinished request out.
    pub fn take_buffer(&mut self) -> (r: Option<BufferVec>)
        requires
            old(self).wf(),
        ensures
            r is Some <==> old(self)@ is Some,
            r matches Some(buf) ==> buf.wf() && old(self)@ == Some(buf@),
            *final(self) == HttpRequestReadState::Empty,
    {
        let mut state = HttpRequestReadState::Empty;
        core::mem::swap(self, &mut state);
        match state {
            HttpRequestReadState::Empty => None,
            HttpRequestReadState::ReadBody(buf) => Some(buf),
        }
    }
}

/// Why a server cannot go on with what a client sent. There is no answer to that but to stop.
#[derive(Debug, Clone, Copy, PartialEq, Eq, Structural)]
pub enum RequestFault {
    /// The size of the request does not fit a machine word.
    SizeOverflow,
    /// The head that was read before is not there any more.
    HeadLost,
}

/// What is to be done next to read a request.
#[derive(Debug)]
pub enum RequestStep {
    /// Read at most this many bytes off the stream, and tell what that gave. With no room at
    /// all, the head of the request is longer than the buffer.
    NeedRead(usize),
    /// The rest of the request has not come yet.
    NotReady,
    /// Here is the request.
    Done(HttpRequestReaderEx),
    Failed(HttpError),
    Fault(RequestFault),
}

/// What a [`RequestStep`] stands for.
pub enum RequestStepView {
    NeedRead(int),
    NotReady,
    Done(RequestView),
    Failed(HttpErrorView),
    Fault(RequestFault),
}

impl View for RequestStep {
    type V = RequestStepView;

    open spec fn view(&self) -> RequestStepView {
        match *self {
            RequestStep::NeedRead(n) => RequestStepView::NeedRead(n as int),
            RequestStep::NotReady => RequestStepView::NotReady,
            RequestStep::Done(req) => RequestStepView::Done(req@),
            RequestStep::Failed(e) => RequestStepView::Failed(e@),
            RequestStep::Fault(f) => RequestStepView::Fault(f),
        }
    }
}

/// One turn of reading a request: what is to be done next, what the header buffer then holds, and
/// the buffer of the request if only part of it was there.
pub struct RequestTurn {
    pub step: RequestStepView,
    pub header: BufferView,
    pub pending: Option<BufferView>,
}

/// The size up to which a request is taken: 100 MiB where nothing else is said.
pub open spec fn size_limit(max_body: Option<usize>) -> int {
    match max_body {
        Some(n) => n as int,
        None => 104857600,
    }
}

/// What the bytes of a whole request give, once they are together.
pub open spec fn finished(buf: Seq<u8>, peer_ip: Option<Seq<char>>) -> RequestStepView {
    match parsed_request(buf) {
        Ok(Some(head)) => RequestStepView::Done(request_in(buf, head, peer_ip)),
        Ok(None) => RequestStepView::Fault(RequestFault::HeadLost),
        Err(e) => RequestStepView::Failed(HttpErrorView::ParseError(e)),
    }
}

/// The turn where no head was read before and the header buffer holds what came in. Bytes past
/// the end of the request stay there.
pub open spec fn head_turn(
    header: BufferView,
    max_body: Option<usize>,
    peer_ip: Option<Seq<char>>,
) -> RequestTurn {
    match request_size(header.data) {
        Err(e) => RequestTurn {
            step: RequestStepView::Failed(HttpErrorView::ParseError(e)),
            header,
            pending: None,
        },
        Ok(None) => RequestTurn {
            step: RequestStepView::NeedRead(header.room()),
            header,
            pending: None,
        },
        Ok(Some(size)) => if size > usize::MAX {
            RequestTurn {
                step: RequestStepView::Fault(RequestFault::SizeOverflow),
                header,
                pending: None,
            }
        } else if size > size_limit(max_body) {
            RequestTurn {
                step: RequestStepView::Failed(HttpErrorView::BodyTooLarge),
                header,
                pending: None,
            }
        } else if size <= header.data.len() {
            RequestTurn {
                step: RequestStepView::Done(
                    request_in(
                        header.data.take(size as int),
                        parsed_request(header.data)->Ok_0->0,
                        peer_ip,
                    ),
                ),
                header: header.consumed(size as int),
                pending: None,
            }
        } else {
            RequestTurn {
                step: RequestStepView::NeedRead(size - header.data.len()),
                header: BufferView { data: Seq::empty(), cap: header.cap },
                pending: Some(BufferView { data: header.data, cap: size }),
            }
        },
    }
}

/// The turn where the head was read before.
pub open spec fn body_turn(
    header: BufferView,
    buf: BufferView,
    peer_ip: Option<Seq<char>>,
) -> RequestTurn {
    if buf.is_full() {
        RequestTurn { step: finished(buf.data, peer_ip), header, pending: None }
    } else {
        RequestTurn { step: RequestStepView::NeedRead(buf.room()), header, pending: Some(buf) }
    }
}

/// One turn of reading a request, given what reading the stream gave, if it was read.
pub open spec fn request_turn(
    read: Option<ReadView>,
    header: BufferView,
    pending: Option<BufferView>,
    max_body: Option<usize>,
    peer_ip: Option<Seq<char>>,
) -> RequestTurn {
    match read {
        Some(ReadView::WouldBlock) => RequestTurn {
            step: RequestStepView::NotReady,
            header,
            pending,
        },
        Some(ReadView::Eof) | Some(ReadView::Failed) => RequestTurn {
            step: RequestStepView::Failed(HttpErrorView::ReadEOF),
            header,
            pending,
        },
        Some(ReadView::Data(bytes)) => match pending {
            None => head_turn(header.appended(bytes), max_body, peer_ip),
            Some(buf) => body_turn(header, buf.appended(bytes), peer_ip),
        },
        None => match pending {
            None => head_turn(header, max_body, peer_ip),
            Some(buf) => RequestTurn {
                step: RequestStepView::NeedRead(buf.room()),
                header,
                pending,
            },
        },
    }
}

/// How many bytes the next read may give.
pub open spec fn request_room(header: BufferView, pending: Option<BufferView>) -> int {
    match pending {
        None => header.room(),
        Some(buf) => buf.room(),
    }
}

impl HttpRequestReaderEx {
    /// What is done with the bytes of a whole request.
    fn finish(buf: Vec<u8>, peer_ip: Option<String>) -> (r: RequestStep)
        ensures
            r@ == finished(buf@, text_view(peer_ip)),
    {
        match Self::new(buf, peer_ip) {
            Ok(Some(req)) => RequestStep::Done(req),
            Ok(None) => RequestStep::Fault(RequestFault::HeadLost),
            Err(e) => RequestStep::Failed(e),
        }
    }

    /// Looks for a request in the header buffer.
    fn read_head(
        header_buffer: &mut BufferVec,
        state: &mut HttpRequestReadState,
        max_body: Option<usize>,
        peer_ip: Option<String>,
    ) -> (r: RequestStep)
        requires
            old(header_buffer).wf(),
            old(state)@ is None,
        ensures
            final(header_buffer).wf(),
            final(state).wf(),
            ({
                let turn = head_turn(old(header_buffer)@, max_body, text_view(peer_ip));
                &&& r@ == turn.step
                &&& final(header_buffer)@ == turn.header
                &&& final(state)@ == turn.pending
            }),
    {
        let size = match Self::try_request_size(header_buffer.read()) {
            None => return RequestStep::Fault(RequestFault::SizeOverflow),
            Some(Err(e)) => return RequestStep::Failed(e),
            Some(Ok(None)) => return RequestStep::NeedRead(header_buffer.room()),
            Some(Ok(Some(size))) => size,
        };
        let limit: usize = match max_body {
            Some(n) => n,
            None => 104857600,
        };
        if size > limit {
            return RequestStep::Failed(HttpError::BodyTooLarge);
        }
        if let Some(bytes) = header_buffer.read_n(size) {
            let buf = slice_to_vec(bytes);
            proof {
                let head = parsed_request(header_buffer@.data)->Ok_0->0;
                assert(buf@.take(head.len as int) =~= header_buffer@.data.take(head.len as int));
            }
            header_buffer.rotate_left(size);
            return Self::finish(buf, peer_ip);
        }
        let mut buf = BufferVec::new(size);
        let ghost before = header_buffer@;
        header_buffer.move_to(&mut buf);
        assert(before.data.take(before.data.len() as int) =~= before.data);
        assert(buf@.data =~= before.data);
        assert(header_buffer@.data =~= Seq::<u8>::empty());
        let room = buf.room();
        *state = HttpRequestReadState::ReadBody(buf);
        RequestStep::NeedRead(room)
    }

    /// Reads a request: `read` is what reading the stream gave, nothing at first. The answer says
    /// what to do next; after [`RequestStep::NeedRead`] the function is called again with what
    /// reading gave.
    pub fn read_from(
        read: Option<StreamRead>,
        header_buffer: &mut BufferVec,
        state: &mut HttpRequestReadState,
        max_body: Option<usize>,
        peer_ip: Option<String>,
    ) -> (r: RequestStep)
        requires
            old(header_buffer).wf(),
            old(state).wf(),
            read_fits(read_view(read), request_room(old(header_buffer)@, old(state)@)),
        ensures
            final(header_buffer).wf(),
            final(state).wf(),
            ({
                let turn = request_turn(
                    read_view(read),
                    old(header_buffer)@,
                    old(state)@,
                    max_body,
                    text_view(peer_ip),
                );
                &&& r@ == turn.step
                &&& final(header_buffer)@ == turn.header
                &&& final(state)@ == turn.pending
            }),
    {
        match read {
            Some(StreamRead::WouldBlock) => RequestStep::NotReady,
            Some(StreamRead::Eof) | Some(StreamRead::Failed) => {
                RequestStep::Failed(HttpError::ReadEOF)
            },
            Some(StreamRead::Data(bytes)) => match state.take_buffer() {
                None => {
                    header_buffer.append(bytes.as_slice());
                    Self::read_head(header_buffer, state, max_body, peer_ip)
                },
                Some(mut buf) => {
                    buf.append(bytes.as_slice());
                    if buf.is_full() {
                        return Self::finish(buf.to_vec(), peer_ip);
                    }
                    let room = buf.room();
                    *state = HttpRequestReadState::ReadBody(buf);
                    RequestStep::NeedRead(room)
                },
            },
            None => match state {
                HttpRequestReadState::Empty => Self::read_head(
                    header_buffer,
                    state,
                    max_body,
                    peer_ip,
                ),
                HttpRequestReadState::ReadBody(buf) => RequestStep::NeedRead(buf.room()),
            },
        }
    }
}

/// However the body of a request is cut in two, reading one part after the other ends as reading
/// both at once does, and asks for no more and no less.
pub proof fn law_request_body_in_parts(
    a: Seq<u8>,
    b: Seq<u8>,
    header: BufferView,
    buf: BufferView,
    max_body: Option<usize>,
    peer_ip: Option<Seq<char>>,
)
    requires
        a.len() < buf.room(),
        a.len() + b.len() <= buf.room(),
    ensures
        ({
            let first = request_turn(Some(ReadView::Data(a)), header, Some(buf), max_body, peer_ip);
            &&& first.step == RequestStepView::NeedRead(buf.room() - a.len())
            &&& request_turn(
                Some(ReadView::Data(b)),
                first.header,
                first.pending,
                max_body,
                peer_ip,
            ) == request_turn(Some(ReadView::Data(a + b)), header, Some(buf), max_body, peer_ip)
        }),
{
    assert(buf.appended(a).appended(b).data =~= buf.appended(a + b).data);
}

/// A request that is cut anywhere behind its head is read as one that comes in one piece.
pub proof fn law_request_in_parts(
    data: Seq<u8>,
    k: int,
    cap: nat,
    max_body: Option<usize>,
    peer_ip: Option<Seq<char>>,
)
    requires
        head_settled(data),
        request_size(data) == Ok::<Option<nat>, HttpParseError>(Some(data.len())),
        data.len() <= usize::MAX,
        data.len() <= size_limit(max_body),
        parsed_request(data)->Ok_0->0.len <= k < data.len(),
    ensures
        ({
            let none = BufferView { data: Seq::empty(), cap };
            let whole = request_turn(Some(ReadView::Data(data)), none, None, max_body, peer_ip);
            let first = request_turn(
                Some(ReadView::Data(data.take(k))),
                none,
                None,
                max_body,
                peer_ip,
            );
            let second = request_turn(
                Some(ReadView::Data(data.skip(k))),
                first.header,
                first.pending,
                max_body,
                peer_ip,
            );
            &&& whole.step == RequestStepView::Done(
                request_in(data, parsed_request(data)->Ok_0->0, peer_ip),
            )
            &&& first.step == RequestStepView::NeedRead(data.len() - k)
            &&& second == whole
        }),
{
    let none = BufferView { data: Seq::empty(), cap };
    let head = parsed_request(data)->Ok_0->0;
    let part = data.take(k);
    assert(none.appended(data).data =~= data);
    assert(none.appended(part).data =~= part);
    assert(data.take(data.len() as int) =~= data);
    assert(part.take(head.len as int) =~= data.take(head.len as int));
    assert(parsed_request(part) == parsed_request(data));
    assert(part + data.skip(k) =~= data);
    assert(none.appended(data).consumed(data.len() as int).data =~= Seq::<u8>::empty());
}

} // verus!
