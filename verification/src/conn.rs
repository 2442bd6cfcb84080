//! Connections that requests and responses go over.
use crate::buffer::{BufferVec, BufferView};
use crate::error::{HttpError, HttpErrorView};
use crate::request::{HttpRequestReader, RequestView};
use crate::request_build::{is_message_of, HttpRequestBuilder};
use crate::request_read::{
    request_room, request_turn, HttpRequestReadState, RequestFault, RequestStep, RequestStepView,
};
use crate::response::{HttpResponse, ResponseView};
use crate::response_read::{
    response_room, response_turn, HttpResponseReadState, ResponseFault, ResponseStateView,
    ResponseStep, ResponseStepView,
};
use crate::stream::{read_fits, read_view, text_view, IOError, ReadView, StreamRead};
use crate::uri::{bad_scheme, no_host, tls_scheme, uri_parts, Uri, UriView};
use core::marker::PhantomData;
use vstd::prelude::*;

verus! {

/// Why a connection did not do what it was asked to.
#[derive(Debug)]
pub enum HttpConnError {
    /// The other side has closed the connection.
    EOF,
    /// The other side is not ready.
    WouldBlock,
    IoError(String),
    Error(HttpError),
    Timeout,
}

/// What an [`HttpConnError`] tells.
pub enum HttpConnErrorView {
    EOF,
    WouldBlock,
    IoError(Seq<char>),
    Error(HttpErrorView),
    Timeout,
}

impl View for HttpConnError {
    type V = HttpConnErrorView;

    open spec fn view(&self) -> HttpConnErrorView {
        match *self {
            HttpConnError::EOF => HttpConnErrorView::EOF,
            HttpConnError::WouldBlock => HttpConnErrorView::WouldBlock,
            HttpConnError::IoError(text) => HttpConnErrorView::IoError(text@),
            HttpConnError::Error(e) => HttpConnErrorView::Error(e@),
            HttpConnError::Timeout => HttpConnErrorView::Timeout,
        }
    }
}

/// What an error of a stream is to a connection.
pub open spec fn io_conn_error(e: IOError) -> HttpConnErrorView {
    match e {
        IOError::EOF { .. } => HttpConnErrorView::EOF,
        IOError::WouldBlock => HttpConnErrorView::WouldBlock,
        IOError::Other(text) => HttpConnErrorView::IoError(text@),
    }
}

/// What an error in reading HTTP is to a connection.
pub open spec fn conn_error(e: HttpErrorView) -> HttpConnErrorView {
    if e is ReadEOF {
        HttpConnErrorView::EOF
    } else {
        HttpConnErrorView::Error(e)
    }
}

impl vstd::std_specs::convert::FromSpecImpl<IOError> for HttpConnError {
    open spec fn obeys_from_spec() -> bool {
        false
    }

    open spec fn from_spec(e: IOError) -> HttpConnError {
        arbitrary()
    }
}

impl From<IOError> for HttpConnError {
    fn from(e: IOError) -> (r: HttpConnError)
        ensures
            r@ == io_conn_error(e),
    {
        match e {
            IOError::EOF { .. } => HttpConnError::EOF,
            IOError::WouldBlock => HttpConnError::WouldBlock,
            IOError::Other(text) => HttpConnError::IoError(text),
        }
    }
}

impl vstd::std_specs::convert::FromSpecImpl<HttpError> for HttpConnError {
    open spec fn obeys_from_spec() -> bool {
        false
    }

    open spec fn from_spec(e: HttpError) -> HttpConnError {
        arbitrary()
    }
}

impl From<HttpError> for HttpConnError {
    fn from(e: HttpError) -> (r: HttpConnError)
        ensures
            r@ == conn_error(e@),
    {
        match e {
            HttpError::ReadEOF => HttpConnError::EOF,
            other => HttpConnError::Error(other),
        }
    }
}

/// Marks a connection of a server.
#[derive(Debug)]
pub struct HttpConnServerType {}

/// Marks a connection of a client that does not wait.
#[derive(Debug)]
pub struct HttpConnClientType {}

/// Marks a connection of a client that waits for each response.
#[derive(Debug)]
pub struct HttpConnBlockingClientType {}

pub type HttpConnClient<S> = HttpConn<S, HttpConnClientType>;

pub type HttpConnBlockingClient<S> = HttpConn<S, HttpConnBlockingClientType>;

pub type HttpConnServer<S> = HttpConn<S, HttpConnServerType>;

/// A connection over the stream `S`; `T` marks what it is for.
pub struct HttpConn<S, T> {
    uri: Uri,
    pub stream: S,
    header_buffer: BufferVec,
    wbuf: Vec<u8>,
    request: HttpRequestReadState,
    response: HttpResponseReadState,
    inflight_id: Vec<usize>,
    max_body_length: Option<usize>,
    marker: PhantomData<T>,
    closed: bool,
    request_cnt: usize,
}

/// What an [`HttpConn`] holds.
pub struct ConnView<S> {
    pub uri: UriView,
    pub stream: S,
    /// What was read and not understood yet.
    pub header: BufferView,
    /// What is written and not sent yet.
    pub output: Seq<u8>,
    /// The request that is being read.
    pub request: Option<BufferView>,
    /// The response that is being read.
    pub response: ResponseStateView,
    /// What is not answered yet, the oldest first.
    pub inflight: Seq<usize>,
    pub max_body: Option<usize>,
    /// The connection takes no new requests.
    pub closed: bool,
    /// How many requests were answered.
    pub request_cnt: usize,
}

impl<S, T> View for HttpConn<S, T> {
    type V = ConnView<S>;

    closed spec fn view(&self) -> ConnView<S> {
        ConnView {
            uri: self.uri@,
            stream: self.stream,
            header: self.header_buffer@,
            output: self.wbuf@,
            request: self.request@,
            response: self.response@,
            inflight: self.inflight_id@,
            max_body: self.max_body_length,
            closed: self.closed,
            request_cnt: self.request_cnt,
        }
    }
}

/// A connection that was just made.
pub open spec fn fresh_conn<S>(uri: UriView, stream: S, max_body: Option<usize>) -> ConnView<S> {
    ConnView {
        uri,
        stream,
        header: BufferView { data: Seq::empty(), cap: 8096 },
        output: Seq::empty(),
        request: None,
        response: ResponseStateView::Empty,
        inflight: Seq::empty(),
        max_body,
        closed: false,
        request_cnt: 0,
    }
}

impl<S, T> HttpConn<S, T> {
    pub closed spec fn wf(&self) -> bool {
        self.header_buffer.wf() && self.request.wf() && self.response.wf()
    }

    /// A connection over a stream.
    pub(crate) fn new(uri: Uri, stream: S, max_body_length: Option<usize>) -> (r: Self)
        ensures
            r.wf(),
            r@ == fresh_conn(uri@, stream, max_body_length),
    {
        HttpConn {
            uri,
            stream,
            header_buffer: BufferVec::new(8096),
            wbuf: Vec::new(),
            request: HttpRequestReadState::Empty,
            response: HttpResponseReadState::Empty,
            inflight_id: Vec::new(),
            max_body_length,
            marker: PhantomData,
            closed: false,
            request_cnt: 0,
        }
    }

    /// The stream, and what was read off it and not understood yet.
    pub fn into_raw(self) -> (r: (S, BufferVec))
        requires
            self.wf(),
        ensures
            r.0 == self@.stream,
            r.1@ == self@.header,
            r.1.wf(),
    {
        (self.stream, self.header_buffer)
    }

    /// Takes no new requests from now on; those that are not answered yet still are.
    pub fn try_close(&mut self)
        requires
            old(self).wf(),
        ensures
            final(self).wf(),
            final(self)@ == (ConnView { closed: true, ..old(self)@ }),
    {
        self.closed = true;
    }

    /// What is written and not sent yet.
    pub fn unsent(&self) -> (r: &[u8])
        ensures
            r@ == self@.output,
    {
        self.wbuf.as_slice()
    }

    /// Takes note that the first `n` bytes of what is to be sent are sent.
    pub fn sent(&mut self, n: usize)
        requires
            old(self).wf(),
            n <= old(self)@.output.len(),
        ensures
            final(self).wf(),
            final(self)@ == (ConnView { output: old(self)@.output.skip(n as int), ..old(self)@ }),
    {
        let rest = self.wbuf.split_off(n);
        assert(rest@ =~= old(self)@.output.skip(n as int));
        self.wbuf = rest;
    }

    /// Goes on with reading a response.
    pub(crate) fn read_one(&mut self, read: Option<StreamRead>) -> (r: ResponseStep)
        requires
            old(self).wf(),
            read_fits(read_view(read), response_room(old(self)@.header, old(self)@.response)),
        ensures
            final(self).wf(),
            ({
                let turn = response_turn(read_view(read), old(self)@.header, old(self)@.response);
                &&& r@ == turn.step
                &&& final(self)@ == (ConnView {
                    header: turn.header,
                    response: turn.state,
                    ..old(self)@
                })
            }),
    {
        HttpResponse::read_from(read, &mut self.header_buffer, &mut self.response)
    }

    /// How many bytes of a response there is room for.
    pub(crate) fn response_space(&self) -> (r: usize)
        requires
            self.wf(),
        ensures
            r == response_room(self@.header, self@.response),
    {
        match &self.response {
            HttpResponseReadState::ReadBody(_, buf) => buf.room(),
            _ => self.header_buffer.room(),
        }
    }

    /// How many requests are not answered yet.
    pub(crate) fn load(&self) -> (r: usize)
        ensures
            r == self@.inflight.len(),
    {
        self.inflight_id.len()
    }

    fn queue(&mut self, bytes: &[u8])
        requires
            old(self).wf(),
        ensures
            final(self).wf(),
            final(self)@ == (ConnView { output: old(self)@.output + bytes@, ..old(self)@ }),
    {
        self.wbuf.extend_from_slice(bytes);
        assert(self.wbuf@ =~= old(self)@.output + bytes@);
    }
}

/// The name that a server must prove over TLS, if the address is to be reached over TLS.
pub open spec fn tls_name(uri: UriView) -> Result<Option<Seq<char>>, HttpConnErrorView> {
    match (tls_scheme(uri.scheme), uri.host) {
        (None, _) => Err(HttpConnErrorView::Error(bad_scheme(uri.scheme))),
        (Some(false), _) => Ok(None),
        (Some(true), None) => Err(HttpConnErrorView::Error(no_host())),
        (Some(true), Some(host)) => Ok(Some(host)),
    }
}

/// The name that a server must prove over TLS, if the address is to be reached over TLS.
pub fn tls_client(uri: &Uri) -> (r: Result<Option<String>, HttpConnError>)
    ensures
        tls_name(uri@) == (match r {
            Ok(name) => Ok(text_view(name)),
            Err(e) => Err(e@),
        }),
{
    match uri.is_tls() {
        Ok(true) => match uri.host() {
            Ok(host) => Ok(Some(host.to_owned())),
            Err(e) => Err(HttpConnError::from(e)),
        },
        Ok(false) => Ok(None),
        Err(e) => Err(HttpConnError::from(e)),
    }
}

/// What has come of what was asked for last, or a new wish for a response or a request.
pub enum ConnReadEvent {
    Start,
    /// Writing out what was left to be sent gave this.
    Flushed(Result<(), IOError>),
    /// Reading gave this.
    Read(StreamRead),
}

/// Whether there is room for what was read.
pub open spec fn event_fits(event: ConnReadEvent, room: int) -> bool {
    event matches ConnReadEvent::Read(read) ==> read_fits(Some(read@), room)
}

/// Why a client cannot go on. There is no answer to that but to stop.
pub enum ClientFault {
    Response(ResponseFault),
    /// A response came that nothing had asked for.
    Unsolicited,
}

/// What is to be done next to read a response.
pub enum ClientStep {
    /// Write out all that is to be sent.
    Flush,
    /// Read at most this many bytes off the stream.
    NeedRead(usize),
    /// Here is the response, and the number of the request that it answers.
    Done(usize, HttpResponse),
    Failed(HttpConnError),
    Fault(ClientFault),
}

/// What a [`ClientStep`] stands for.
pub enum ClientStepView {
    Flush,
    NeedRead(int),
    Done(usize, ResponseView),
    Failed(HttpConnErrorView),
    IllegalBody(Seq<char>),
    ChunkOverflow,
    Unsolicited,
}

impl View for ClientStep {
    type V = ClientStepView;

    open spec fn view(&self) -> ClientStepView {
        match *self {
            ClientStep::Flush => ClientStepView::Flush,
            ClientStep::NeedRead(n) => ClientStepView::NeedRead(n as int),
            ClientStep::Done(id, response) => ClientStepView::Done(id, response@),
            ClientStep::Failed(e) => ClientStepView::Failed(e@),
            ClientStep::Fault(ClientFault::Response(ResponseFault::IllegalBody(text))) => {
                ClientStepView::IllegalBody(text@)
            },
            ClientStep::Fault(ClientFault::Response(ResponseFault::ChunkOverflow)) => {
                ClientStepView::ChunkOverflow
            },
            ClientStep::Fault(ClientFault::Unsolicited) => ClientStepView::Unsolicited,
        }
    }
}

/// One turn of reading a response off a connection. A response answers the oldest request that is
/// not answered yet; one to the request with the largest number is dropped.
pub open spec fn response_in<S>(c: ConnView<S>, read: Option<ReadView>) -> (
    ClientStepView,
    ConnView<S>,
) {
    let turn = response_turn(read, c.header, c.response);
    let next = ConnView { header: turn.header, response: turn.state, ..c };
    match turn.step {
        ResponseStepView::NeedRead(n) => (ClientStepView::NeedRead(n), next),
        ResponseStepView::NotReady => (ClientStepView::Failed(HttpConnErrorView::WouldBlock), next),
        ResponseStepView::Failed(e) => (ClientStepView::Failed(conn_error(e)), next),
        ResponseStepView::IllegalBody(text) => (ClientStepView::IllegalBody(text), next),
        ResponseStepView::ChunkOverflow => (ClientStepView::ChunkOverflow, next),
        ResponseStepView::Done(response) => if c.inflight.len() == 0 {
            (ClientStepView::Unsolicited, next)
        } else {
            let answered = ConnView { inflight: c.inflight.skip(1), ..next };
            if c.inflight[0] == usize::MAX {
                (ClientStepView::NeedRead(answered.header.room()), answered)
            } else {
                (
                    ClientStepView::Done(c.inflight[0], response),
                    ConnView { request_cnt: (c.request_cnt + 1) as usize, ..answered },
                )
            }
        },
    }
}

/// What an event comes to where a response is wanted.
pub open spec fn client_read_turn<S>(c: ConnView<S>, event: ConnReadEvent) -> (
    ClientStepView,
    ConnView<S>,
) {
    match event {
        ConnReadEvent::Start => (ClientStepView::Flush, c),
        ConnReadEvent::Flushed(Err(e)) => (ClientStepView::Failed(io_conn_error(e)), c),
        ConnReadEvent::Flushed(Ok(_)) => if c.inflight.len() == 0 {
            (ClientStepView::Failed(HttpConnErrorView::WouldBlock), c)
        } else {
            response_in(c, None)
        },
        ConnReadEvent::Read(read) => response_in(c, Some(read@)),
    }
}

/// What has come of what was asked for last, or a new wish to send a request.
pub enum ConnWriteEvent {
    Start,
    /// Reading nothing off the stream, to see whether it is still there, gave this.
    Probed(Result<usize, IOError>),
    /// Writing out what is to be sent gave this.
    Sent(Result<(), IOError>),
}

/// What is to be done next to send something.
pub enum ConnWriteStep {
    /// Read nothing off the stream, to see whether it is still there.
    Probe,
    /// Write out what is to be sent; what the stream does not take now may stay for later.
    Send,
    Done,
    Failed(HttpConnError),
}

/// What a [`ConnWriteStep`] stands for.
pub enum ConnWriteStepView {
    Probe,
    Send,
    Done,
    Failed(HttpConnErrorView),
}

impl View for ConnWriteStep {
    type V = ConnWriteStepView;

    open spec fn view(&self) -> ConnWriteStepView {
        match *self {
            ConnWriteStep::Probe => ConnWriteStepView::Probe,
            ConnWriteStep::Send => ConnWriteStepView::Send,
            ConnWriteStep::Done => ConnWriteStepView::Done,
            ConnWriteStep::Failed(e) => ConnWriteStepView::Failed(e@),
        }
    }
}

/// A connection with more to be sent.
pub open spec fn queued<S>(c: ConnView<S>, bytes: Seq<u8>) -> ConnView<S> {
    ConnView { output: c.output + bytes, ..c }
}

/// What sending a request comes to, once the stream was given it: the request then waits for its
/// answer.
pub open spec fn request_sent<S>(c: ConnView<S>, req_id: usize, outcome: Result<(), IOError>) -> (
    ConnWriteStepView,
    ConnView<S>,
) {
    match outcome {
        Ok(_) => (ConnWriteStepView::Done, ConnView { inflight: c.inflight.push(req_id), ..c }),
        Err(e) => (ConnWriteStepView::Failed(io_conn_error(e)), c),
    }
}

/// What sending a request as it is comes to.
pub open spec fn raw_write_turn<S>(
    c: ConnView<S>,
    req_id: usize,
    bytes: Seq<u8>,
    outcome: Option<Result<(), IOError>>,
) -> (ConnWriteStepView, ConnView<S>) {
    match outcome {
        None => (ConnWriteStepView::Send, queued(c, bytes)),
        Some(sent) => request_sent(c, req_id, sent),
    }
}

/// The time after which a stream that nothing was written to is looked at before it is used.
pub const IDLE_LIMIT: u64 = 10_000_000_000;

/// What sending a request comes to. Where it is written, `bytes` are what it is written as.
pub open spec fn write_request_turn<S>(
    c: ConnView<S>,
    req_id: usize,
    idle: u64,
    event: ConnWriteEvent,
    bytes: Seq<u8>,
) -> (ConnWriteStepView, ConnView<S>) {
    let written = (ConnWriteStepView::Send, queued(c, bytes));
    match event {
        ConnWriteEvent::Start => if idle > IDLE_LIMIT {
            (ConnWriteStepView::Probe, c)
        } else {
            written
        },
        ConnWriteEvent::Probed(Ok(n)) => if n == 0 {
            (ConnWriteStepView::Failed(HttpConnErrorView::EOF), c)
        } else {
            written
        },
        ConnWriteEvent::Probed(Err(IOError::WouldBlock)) => written,
        ConnWriteEvent::Probed(Err(e)) => (ConnWriteStepView::Failed(io_conn_error(e)), c),
        ConnWriteEvent::Sent(sent) => request_sent(c, req_id, sent),
    }
}

impl<S> HttpConn<S, HttpConnClientType> {
    /// The connection over a stream to what an address names.
    pub fn connect(uri: Uri, stream: S) -> (r: Self)
        ensures
            r.wf(),
            r@ == fresh_conn(uri@, stream, None),
    {
        Self::new(uri, stream, None)
    }

    /// How many requests are not answered yet.
    pub fn inflight_len(&self) -> (r: usize)
        ensures
            r == self@.inflight.len(),
    {
        self.inflight_id.len()
    }

    /// How many requests were answered.
    pub fn request_cnt(&self) -> (r: usize)
        ensures
            r == self@.request_cnt,
    {
        self.request_cnt
    }

    fn respond(&mut self, read: Option<StreamRead>) -> (r: ClientStep)
        requires
            old(self).wf(),
            old(self)@.request_cnt < usize::MAX,
            read_fits(read_view(read), response_room(old(self)@.header, old(self)@.response)),
        ensures
            final(self).wf(),
            (r@, final(self)@) == response_in(old(self)@, read_view(read)),
    {
        match self.read_one(read) {
            ResponseStep::NeedRead(n) => ClientStep::NeedRead(n),
            ResponseStep::NotReady => ClientStep::Failed(HttpConnError::WouldBlock),
            ResponseStep::Failed(e) => ClientStep::Failed(HttpConnError::from(e)),
            ResponseStep::Fault(fault) => ClientStep::Fault(ClientFault::Response(fault)),
            ResponseStep::Done(response) => {
                if self.inflight_id.len() == 0 {
                    return ClientStep::Fault(ClientFault::Unsolicited);
                }
                let id = self.inflight_id.remove(0);
                assert(self.inflight_id@ =~= old(self)@.inflight.skip(1));
                if id == usize::MAX {
                    return ClientStep::NeedRead(self.header_buffer.room());
                }
                self.request_cnt += 1;
                ClientStep::Done(id, response)
            },
        }
    }

    /// Reads a response, and tells which request it answers.
    pub fn read_response(&mut self, event: ConnReadEvent) -> (r: ClientStep)
        requires
            old(self).wf(),
            old(self)@.request_cnt < usize::MAX,
            event_fits(event, response_room(old(self)@.header, old(self)@.response)),
        ensures
            final(self).wf(),
            (r@, final(self)@) == client_read_turn(old(self)@, event),
    {
        match event {
            ConnReadEvent::Start => ClientStep::Flush,
            ConnReadEvent::Flushed(Err(e)) => ClientStep::Failed(HttpConnError::from(e)),
            ConnReadEvent::Flushed(Ok(_)) => {
                if self.inflight_id.len() == 0 {
                    return ClientStep::Failed(HttpConnError::WouldBlock);
                }
                self.respond(None)
            },
            ConnReadEvent::Read(read) => self.respond(Some(read)),
        }
    }

    fn after_request(&mut self, req_id: usize, outcome: Result<(), IOError>) -> (r: ConnWriteStep)
        requires
            old(self).wf(),
        ensures
            final(self).wf(),
            (r@, final(self)@) == request_sent(old(self)@, req_id, outcome),
    {
        match outcome {
            Ok(_) => {
                self.inflight_id.push(req_id);
                ConnWriteStep::Done
            },
            Err(e) => ConnWriteStep::Failed(HttpConnError::from(e)),
        }
    }

    /// Sends a request as it is, with a number to know it by.
    pub fn write_raw_request(
        &mut self,
        req_id: usize,
        buf: &[u8],
        outcome: Option<Result<(), IOError>>,
    ) -> (r: ConnWriteStep)
        requires
            old(self).wf(),
        ensures
            final(self).wf(),
            (r@, final(self)@) == raw_write_turn(old(self)@, req_id, buf@, outcome),
    {
        match outcome {
            None => {
                self.queue(buf);
                ConnWriteStep::Send
            },
            Some(sent) => self.after_request(req_id, sent),
        }
    }

    /// Sends a request, with a number to know it by. `idle` is how long nothing was written.
    pub fn write_request(
        &mut self,
        req_id: usize,
        req: &HttpRequestBuilder,
        idle: u64,
        event: ConnWriteEvent,
    ) -> (r: ConnWriteStep)
        requires
            old(self).wf(),
        ensures
            final(self).wf(),
            exists|bytes: Seq<u8>|
                is_message_of(req@, bytes) && (r@, final(self)@) == #[trigger] write_request_turn(
                    old(self)@,
                    req_id,
                    idle,
                    event,
                    bytes,
                ),
    {
        let msg = req.parse_msg();
        let ghost bytes = msg@;
        let ghost turn = write_request_turn(self@, req_id, idle, event, bytes);
        match event {
            ConnWriteEvent::Start => {
                if idle > IDLE_LIMIT {
                    return ConnWriteStep::Probe;
                }
            },
            ConnWriteEvent::Probed(Ok(n)) => {
                if n == 0 {
                    return ConnWriteStep::Failed(HttpConnError::EOF);
                }
            },
            ConnWriteEvent::Probed(Err(IOError::WouldBlock)) => {},
            ConnWriteEvent::Probed(Err(e)) => {
                return ConnWriteStep::Failed(HttpConnError::from(e));
            },
            ConnWriteEvent::Sent(sent) => return self.after_request(req_id, sent),
        }
        self.queue(msg.as_slice());
        ConnWriteStep::Send
    }
}

/// Why a server cannot go on. There is no answer to that but to stop.
pub enum ServerFault {
    Request(RequestFault),
    /// The head of a request is longer than the buffer for it.
    HeadTooLong,
}

/// What is to be done next to read a request.
pub enum ServerStep {
    /// Write out all that is to be sent.
    Flush,
    /// Read at most this many bytes off the stream.
    NeedRead(usize),
    /// There is no request yet.
    NotReady,
    Done(HttpRequestReader),
    Failed(HttpConnError),
    Fault(ServerFault),
}

/// What a [`ServerStep`] stands for.
pub enum ServerStepView {
    Flush,
    NeedRead(int),
    NotReady,
    Done(RequestView),
    Failed(HttpConnErrorView),
    Fault(ServerFault),
}

impl View for ServerStep {
    type V = ServerStepView;

    open spec fn view(&self) -> ServerStepView {
        match *self {
            ServerStep::Flush => ServerStepView::Flush,
            ServerStep::NeedRead(n) => ServerStepView::NeedRead(n as int),
            ServerStep::NotReady => ServerStepView::NotReady,
            ServerStep::Done(req) => ServerStepView::Done(req@),
            ServerStep::Failed(e) => ServerStepView::Failed(e@),
            ServerStep::Fault(fault) => ServerStepView::Fault(fault),
        }
    }
}

/// One turn of reading a request off a connection. It then waits for its answer.
pub open spec fn request_in_turn<S>(
    c: ConnView<S>,
    read: Option<ReadView>,
    peer_ip: Option<Seq<char>>,
) -> (ServerStepView, ConnView<S>) {
    let turn = request_turn(read, c.header, c.request, c.max_body, peer_ip);
    let next = ConnView { header: turn.header, request: turn.pending, ..c };
    match turn.step {
        RequestStepView::NeedRead(n) => if n == 0 {
            (ServerStepView::Fault(ServerFault::HeadTooLong), next)
        } else {
            (ServerStepView::NeedRead(n), next)
        },
        RequestStepView::NotReady => (ServerStepView::NotReady, next),
        RequestStepView::Done(req) => (
            ServerStepView::Done(req),
            ConnView { inflight: c.inflight.push(0), ..next },
        ),
        RequestStepView::Failed(e) => (ServerStepView::Failed(conn_error(e)), next),
        RequestStepView::Fault(fault) => (
            ServerStepView::Fault(ServerFault::Request(fault)),
            next,
        ),
    }
}

/// What an event comes to where a request is wanted. A connection that is to be closed gives no
/// more requests, and ends once all are answered.
pub open spec fn server_read_turn<S>(
    c: ConnView<S>,
    event: ConnReadEvent,
    peer_ip: Option<Seq<char>>,
) -> (ServerStepView, ConnView<S>) {
    match event {
        ConnReadEvent::Start => (ServerStepView::Flush, c),
        ConnReadEvent::Flushed(Err(e)) => (ServerStepView::Failed(io_conn_error(e)), c),
        ConnReadEvent::Flushed(Ok(_)) => if !c.closed {
            request_in_turn(c, None, peer_ip)
        } else if c.inflight.len() > 0 {
            (ServerStepView::NotReady, c)
        } else {
            (ServerStepView::Failed(HttpConnErrorView::EOF), c)
        },
        ConnReadEvent::Read(read) => request_in_turn(c, Some(read@), peer_ip),
    }
}

/// Whether the connection of a server is in order, and one more answer can be counted.
pub open spec fn conn_ok<S>(conn: HttpConnServer<S>) -> bool {
    conn.wf() && conn@.request_cnt < usize::MAX
}

/// What sending a response comes to.
pub open spec fn write_response_turn<S>(
    c: ConnView<S>,
    bytes: Seq<u8>,
    outcome: Option<Result<(), IOError>>,
) -> (ConnWriteStepView, ConnView<S>) {
    if c.inflight.len() == 0 {
        (ConnWriteStepView::Failed(HttpConnErrorView::EOF), c)
    } else {
        match outcome {
            None => (ConnWriteStepView::Send, queued(c, bytes)),
            Some(Err(e)) => (ConnWriteStepView::Failed(io_conn_error(e)), c),
            Some(Ok(_)) => (
                ConnWriteStepView::Done,
                ConnView {
                    inflight: c.inflight.drop_last(),
                    request_cnt: (c.request_cnt + 1) as usize,
                    ..c
                },
            ),
        }
    }
}

impl<S> HttpConn<S, HttpConnServerType> {
    /// The connection over a stream that a client opened. A word stands for the address, which a
    /// server does not know.
    pub fn accept(stream: S, max_body_length: Option<usize>) -> (r: Self)
        ensures
            r.wf(),
            r@ == fresh_conn(uri_parts("server"@)->0, stream, max_body_length),
    {
        proof {
            reveal_strlit("server");
        }
        Self::new(Uri::word("server"), stream, max_body_length)
    }

    fn receive(&mut self, read: Option<StreamRead>, peer_ip: Option<String>) -> (r: ServerStep)
        requires
            old(self).wf(),
            read_fits(read_view(read), request_room(old(self)@.header, old(self)@.request)),
        ensures
            final(self).wf(),
            (r@, final(self)@) == request_in_turn(
                old(self)@,
                read_view(read),
                text_view(peer_ip),
            ),
    {
        match HttpRequestReader::read_from(
            read,
            &mut self.header_buffer,
            &mut self.request,
            self.max_body_length,
            peer_ip,
        ) {
            RequestStep::NeedRead(n) => {
                if n == 0 {
                    return ServerStep::Fault(ServerFault::HeadTooLong);
                }
                ServerStep::NeedRead(n)
            },
            RequestStep::NotReady => ServerStep::NotReady,
            RequestStep::Done(req) => {
                self.inflight_id.push(0);
                ServerStep::Done(req)
            },
            RequestStep::Failed(e) => ServerStep::Failed(HttpConnError::from(e)),
            RequestStep::Fault(fault) => ServerStep::Fault(ServerFault::Request(fault)),
        }
    }

    /// Reads a request.
    pub fn read_request(&mut self, event: ConnReadEvent, peer_ip: Option<String>) -> (r: ServerStep)
        requires
            old(self).wf(),
            event_fits(event, request_room(old(self)@.header, old(self)@.request)),
        ensures
            final(self).wf(),
            (r@, final(self)@) == server_read_turn(old(self)@, event, text_view(peer_ip)),
    {
        match event {
            ConnReadEvent::Start => ServerStep::Flush,
            ConnReadEvent::Flushed(Err(e)) => ServerStep::Failed(HttpConnError::from(e)),
            ConnReadEvent::Flushed(Ok(_)) => {
                if self.closed {
                    if self.inflight_id.len() > 0 {
                        return ServerStep::NotReady;
                    }
                    return ServerStep::Failed(HttpConnError::EOF);
                }
                self.receive(None, peer_ip)
            },
            ConnReadEvent::Read(read) => self.receive(Some(read), peer_ip),
        }
    }

    /// How many requests were answered.
    pub fn answered(&self) -> (r: usize)
        ensures
            r == self@.request_cnt,
    {
        self.request_cnt
    }

    /// Sends the answer to a request.
    pub fn write_response(&mut self, buf: &[u8], outcome: Option<Result<(), IOError>>) -> (r:
        ConnWriteStep)
        requires
            old(self).wf(),
            old(self)@.request_cnt < usize::MAX,
        ensures
            final(self).wf(),
            (r@, final(self)@) == write_response_turn(old(self)@, buf@, outcome),
    {
        if self.inflight_id.len() == 0 {
            return ConnWriteStep::Failed(HttpConnError::EOF);
        }
        match outcome {
            None => {
                self.queue(buf);
                ConnWriteStep::Send
            },
            Some(Err(e)) => ConnWriteStep::Failed(HttpConnError::from(e)),
            Some(Ok(_)) => {
                let _ = self.inflight_id.pop();
                self.request_cnt += 1;
                ConnWriteStep::Done
            },
        }
    }
}

} // verus!
