//! WebSocket streams of servers.
use crate::buffer::BufferView;
use crate::conn::{
    conn_ok, event_fits, fresh_conn, server_read_turn, write_response_turn, ConnReadEvent, ConnView,
    ConnWriteStep, ConnWriteStepView, HttpConnError, HttpConnErrorView, HttpConnServer, ServerFault,
    ServerStep, ServerStepView,
};
use crate::request_read::request_room;
use crate::stream::{text_view, IOError, StreamRead};
use crate::text::{quote, quoted};
use crate::uri::{lemma_local_divisible, uri_parts, Uri, UriView};
use crate::ws_client::{conn_error_text, describe, init_error, init_failed};
use crate::ws_handshake::{
    accept_string, ctx_end, handshake_error_text, offered, try_get_websocket_ctx, WsContext,
    KEY_LIMIT,
};
use crate::ws_parser::{
    accept_text, new_parser, parser_accept, parser_new_server, ws_parser_state, WsParser,
    WsParserState, WsPhase,
};
use crate::ws_stream::{
    gone, message_sent, plain_turn, read_turn, turned, ReadTurn, WsReadEvent,
    WsReadStep, WsReadStepView, WsStream, WsStreamConfig, WsView, WsWriteStep,
    WsWriteStepView,
};
use crate::ws_types::{WsDataType, WsError, WsErrorView, WsSendType};
use vstd::prelude::*;
use vstd::slice::slice_subrange;
use vstd::std_specs::convert::FromSpec;
use vstd::string::StringExecFns;
use vstd::utf8::encode_utf8;

verus! {

/// How far the handshake of a server is. Times tell when it began.
pub enum WsServerHandshakeState<S> {
    NotStarted,
    /// The request is to be read.
    WaitRequest(u64, HttpConnServer<S>),
    /// The response to the key is to be sent, for this path.
    SendResponse(u64, String, HttpConnServer<S>, String),
    /// The response is being sent; the stream will lead to this address.
    WaitSent(WsParser, HttpConnServer<S>, Uri),
}

/// The size up to which a request for a WebSocket is taken, where nothing else may be asked for.
pub const REQUEST_LIMIT: usize = 2048;

/// A WebSocket stream of a server.
pub type WsStreamServer<S> = WsStream<S, WsServerHandshakeState<S>>;

/// What a [`WsServerHandshakeState`] holds.
pub enum ServerHandshake<S> {
    NotStarted,
    WaitRequest { start: u64, conn: ConnView<S> },
    SendResponse { start: u64, key: Seq<char>, conn: ConnView<S>, path: Seq<char> },
    WaitSent { parser: WsParserState, conn: ConnView<S>, endpoint: UriView },
}

impl<S> View for WsServerHandshakeState<S> {
    type V = ServerHandshake<S>;

    open spec fn view(&self) -> ServerHandshake<S> {
        match *self {
            WsServerHandshakeState::NotStarted => ServerHandshake::NotStarted,
            WsServerHandshakeState::WaitRequest(start, conn) => ServerHandshake::WaitRequest {
                start,
                conn: conn@,
            },
            WsServerHandshakeState::SendResponse(start, key, conn, path) => {
                ServerHandshake::SendResponse { start, key: key@, conn: conn@, path: path@ }
            },
            WsServerHandshakeState::WaitSent(parser, conn, endpoint) => ServerHandshake::WaitSent {
                parser: ws_parser_state(parser),
                conn: conn@,
                endpoint: endpoint@,
            },
        }
    }
}

impl<S> WsServerHandshakeState<S> {
    pub open spec fn wf(&self) -> bool {
        match *self {
            WsServerHandshakeState::NotStarted => true,
            WsServerHandshakeState::WaitRequest(_, conn) => conn_ok(conn),
            WsServerHandshakeState::SendResponse(_, key, conn, _) => {
                conn_ok(conn) && encode_utf8(key@).len() <= KEY_LIMIT
            },
            WsServerHandshakeState::WaitSent(parser, conn, _) => {
                &&& conn_ok(conn)
                &&& !ws_parser_state(parser).continuing
                &&& !ws_parser_state(parser).is_client
            },
        }
    }
}

/// What has come of what was asked for last, or a new wish for a connection.
pub enum WsAcceptEvent<S> {
    /// A connection is wanted, over this one if no handshake has begun.
    Start(Option<HttpConnServer<S>>),
    /// Waiting for the request gave this.
    Conn(ConnReadEvent),
    /// Writing out the response gave this.
    Sent(Result<(), IOError>),
}

/// Why a server cannot go on with a handshake. There is no answer to that but to stop.
pub enum WsAcceptFault {
    Request(ServerFault),
    /// The key, or the name of a protocol, is too long.
    KeyTooLong,
    /// The response could not be sent.
    NoAnswer(HttpConnError),
}

/// What is to be done next to get a connection, on the connection of the handshake.
pub enum WsAcceptStep {
    /// Write out all that is to be sent.
    Flush,
    /// Read at most this many bytes off the stream.
    NeedRead(usize),
    /// Write out what is to be sent; what the stream does not take now may stay for later.
    Send,
    Connected,
    Failed(WsError),
    Fault(WsAcceptFault),
}

/// What a [`WsAcceptStep`] stands for.
pub enum WsAcceptStepView {
    Flush,
    NeedRead(int),
    Send,
    Connected,
    Failed(WsErrorView),
    BadRequest(ServerFault),
    KeyTooLong,
    NoAnswer(HttpConnErrorView),
}

impl View for WsAcceptStep {
    type V = WsAcceptStepView;

    open spec fn view(&self) -> WsAcceptStepView {
        match *self {
            WsAcceptStep::Flush => WsAcceptStepView::Flush,
            WsAcceptStep::NeedRead(n) => WsAcceptStepView::NeedRead(n as int),
            WsAcceptStep::Send => WsAcceptStepView::Send,
            WsAcceptStep::Connected => WsAcceptStepView::Connected,
            WsAcceptStep::Failed(e) => WsAcceptStepView::Failed(e@),
            WsAcceptStep::Fault(WsAcceptFault::Request(fault)) => {
                WsAcceptStepView::BadRequest(fault)
            },
            WsAcceptStep::Fault(WsAcceptFault::KeyTooLong) => WsAcceptStepView::KeyTooLong,
            WsAcceptStep::Fault(WsAcceptFault::NoAnswer(e)) => WsAcceptStepView::NoAnswer(e@),
        }
    }
}

/// One turn of a handshake: what is to be done next, the stream, and the handshake.
pub struct AcceptTurn<S> {
    pub step: WsAcceptStepView,
    pub stream: WsView<S>,
    pub handshake: ServerHandshake<S>,
}

/// Whether a handshake has taken too long.
pub open spec fn late(start: u64, timeout: Option<u64>, now: u64) -> bool {
    timeout matches Some(time) && now - start > time
}

/// The error that a handshake has taken too long.
pub open spec fn timed_out() -> WsAcceptStepView {
    WsAcceptStepView::Failed(WsErrorView::InitError("timeout"@))
}

/// The complaint that the path of a request is part of no address.
pub open spec fn bad_path(path: Seq<char>) -> WsErrorView {
    init_error(
        "WebSocket Protocol Error: invalid path="@,
        quoted(path) + ": Parse(UriErr)"@,
    )
}

/// The turn where the response to a key is due.
pub open spec fn respond_turn<S>(
    w: WsView<S>,
    start: u64,
    key: Seq<char>,
    conn: ConnView<S>,
    path: Seq<char>,
    timeout: Option<u64>,
    now: u64,
) -> AcceptTurn<S> {
    let handshake = ServerHandshake::SendResponse { start, key, conn, path };
    if late(start, timeout, now) {
        AcceptTurn { step: timed_out(), stream: w, handshake }
    } else {
        match uri_parts("ws://localhost"@ + path) {
            None => AcceptTurn {
                step: WsAcceptStepView::Failed(bad_path(path)),
                stream: w,
                handshake,
            },
            Some(endpoint) => {
                let response = encode_utf8(accept_text(accept_string(key)));
                let (step, sent) = write_response_turn(conn, response, None);
                match step {
                    ConnWriteStepView::Failed(e) => AcceptTurn {
                        step: WsAcceptStepView::NoAnswer(e),
                        stream: w,
                        handshake,
                    },
                    _ => AcceptTurn {
                        step: WsAcceptStepView::Send,
                        stream: w,
                        handshake: ServerHandshake::WaitSent {
                            parser: WsParserState { phase: WsPhase::Open, ..new_parser(false) },
                            conn: sent,
                            endpoint,
                        },
                    },
                }
            },
        }
    }
}

/// The turn where a request is wanted.
pub open spec fn request_wait_turn<S>(
    w: WsView<S>,
    start: u64,
    conn: ConnView<S>,
    event: ConnReadEvent,
    peer_ip: Option<Seq<char>>,
    timeout: Option<u64>,
    now: u64,
) -> AcceptTurn<S> {
    let (step, read) = server_read_turn(conn, event, peer_ip);
    let handshake = ServerHandshake::WaitRequest { start, conn: read };
    let stay = |step: WsAcceptStepView| AcceptTurn { step, stream: w, handshake };
    match step {
        ServerStepView::Flush => stay(WsAcceptStepView::Flush),
        ServerStepView::NeedRead(n) => stay(WsAcceptStepView::NeedRead(n)),
        ServerStepView::NotReady => stay(WsAcceptStepView::Failed(WsErrorView::WouldBlock)),
        ServerStepView::Failed(e) => stay(
            WsAcceptStepView::Failed(init_error("err: "@, conn_error_text(e))),
        ),
        ServerStepView::Fault(fault) => stay(WsAcceptStepView::BadRequest(fault)),
        ServerStepView::Done(req) => if ctx_end(req.headers) is TooLong {
            stay(WsAcceptStepView::KeyTooLong)
        } else {
            match offered(ctx_end(req.headers)) {
                Err(e) => stay(
                    WsAcceptStepView::Failed(
                        init_error("receive handshake header fail: "@, handshake_error_text(e)),
                    ),
                ),
                Ok(None) => stay(
                    WsAcceptStepView::Failed(
                        WsErrorView::InitError(
                            "WebSocket Protocol Error: expect a websocket context"@,
                        ),
                    ),
                ),
                Ok(Some(ctx)) => respond_turn(
                    w,
                    start,
                    ctx.key,
                    read,
                    match req.path {
                        Some(path) => path,
                        None => "/"@,
                    },
                    timeout,
                    now,
                ),
            }
        },
    }
}

/// A stream with the connection that a handshake has led to. What came behind the request is the
/// first that is read.
pub open spec fn accepted<S>(
    w: WsView<S>,
    conn: ConnView<S>,
    parser: WsParserState,
    endpoint: UriView,
) -> WsView<S> {
    WsView { connected: Some((conn.stream, parser)), input: conn.header, endpoint, ..w }
}

/// The view of an optional connection.
pub open spec fn conn_view<S>(conn: Option<HttpConnServer<S>>) -> Option<ConnView<S>> {
    match conn {
        Some(c) => Some(c@),
        None => None,
    }
}

/// What an event comes to where a server wants a connection. A stream that was shut down gets none.
pub open spec fn accept_turn<S>(
    w: WsView<S>,
    h: ServerHandshake<S>,
    alive: bool,
    timeout: Option<u64>,
    now: u64,
    event: WsAcceptEvent<S>,
    peer_ip: Option<Seq<char>>,
) -> AcceptTurn<S> {
    if !alive {
        AcceptTurn { step: WsAcceptStepView::Failed(gone(false)), stream: w, handshake: h }
    } else {
        accept_on(w, h, timeout, now, event, peer_ip)
    }
}

/// What an event comes to where a server that was not shut down wants a connection.
pub open spec fn accept_on<S>(
    w: WsView<S>,
    h: ServerHandshake<S>,
    timeout: Option<u64>,
    now: u64,
    event: WsAcceptEvent<S>,
    peer_ip: Option<Seq<char>>,
) -> AcceptTurn<S> {
    match event {
        WsAcceptEvent::Start(conn) => if w.connected is Some {
            AcceptTurn { step: WsAcceptStepView::Connected, stream: w, handshake: h }
        } else {
            match h {
                ServerHandshake::NotStarted => match conn_view(conn) {
                    None => AcceptTurn {
                        step: WsAcceptStepView::Failed(gone(false)),
                        stream: w,
                        handshake: h,
                    },
                    Some(c) => AcceptTurn {
                        step: WsAcceptStepView::Flush,
                        stream: w,
                        handshake: ServerHandshake::WaitRequest { start: now, conn: c },
                    },
                },
                ServerHandshake::WaitRequest { start, conn: c } => AcceptTurn {
                    step: if late(start, timeout, now) {
                        timed_out()
                    } else {
                        WsAcceptStepView::Flush
                    },
                    stream: w,
                    handshake: h,
                },
                ServerHandshake::SendResponse { start, key, conn: c, path } => respond_turn(
                    w,
                    start,
                    key,
                    c,
                    path,
                    timeout,
                    now,
                ),
                ServerHandshake::WaitSent { .. } => AcceptTurn {
                    step: WsAcceptStepView::Send,
                    stream: w,
                    handshake: h,
                },
            }
        },
        WsAcceptEvent::Conn(event) => match h {
            ServerHandshake::WaitRequest { start, conn } => request_wait_turn(
                w,
                start,
                conn,
                event,
                peer_ip,
                timeout,
                now,
            ),
            _ => arbitrary(),
        },
        WsAcceptEvent::Sent(outcome) => match h {
            ServerHandshake::WaitSent { parser, conn, endpoint } => {
                let (step, sent) = write_response_turn(conn, Seq::empty(), Some(outcome));
                match step {
                    ConnWriteStepView::Failed(e) => AcceptTurn {
                        step: WsAcceptStepView::NoAnswer(e),
                        stream: w,
                        handshake: ServerHandshake::NotStarted,
                    },
                    _ => AcceptTurn {
                        step: WsAcceptStepView::Connected,
                        stream: accepted(w, sent, parser, endpoint),
                        handshake: ServerHandshake::NotStarted,
                    },
                }
            },
            _ => arbitrary(),
        },
    }
}

/// The handshake over a stream that a client opened, before anything was read.
pub open spec fn awaiting_request<S>(stream: S, now: u64) -> ServerHandshake<S> {
    ServerHandshake::WaitRequest {
        start: now,
        conn: fresh_conn(uri_parts("server"@)->0, stream, Some(REQUEST_LIMIT)),
    }
}

impl<S> WsStream<S, WsServerHandshakeState<S>> {
    /// The configuration of a stream whose address is not known yet.
    fn config(frame_size: usize) -> (r: WsStreamConfig)
        ensures
            r.endpoint@ == uri_parts("/"@)->0,
            r.frame_size == frame_size,
            r.keep_alive is None,
            !r.auto_reconnect,
    {
        proof {
            reveal_strlit("/");
        }
        WsStreamConfig {
            endpoint: Uri::word("/"),
            frame_size,
            keep_alive: None,
            auto_reconnect: false,
        }
    }

    /// A stream that opens over a connection, once the request for it was read: the response is
    /// to be sent.
    pub fn from_http_conn(
        conn: HttpConnServer<S>,
        path: &str,
        frame_size: usize,
        ctx: WsContext,
        now: u64,
    ) -> (r: Self)
        requires
            2 * frame_size <= usize::MAX,
            conn_ok(conn),
            encode_utf8(ctx.sec_websocket_key@).len() <= KEY_LIMIT,
        ensures
            r.wf(),
            r.handshake().wf(),
            r@ == unnamed::<S>(frame_size, r@.buffer, now),
            r.handshake()@ == (ServerHandshake::SendResponse {
                start: now,
                key: ctx.sec_websocket_key@,
                conn: conn@,
                path: path@,
            }),
    {
        let state = WsServerHandshakeState::SendResponse(
            now,
            ctx.sec_websocket_key,
            conn,
            path.to_owned(),
        );
        Self::init(Self::config(frame_size), state, now)
    }

    /// A stream that opens over one that a client opened: the request for it is to be read.
    pub fn accept(stream: S, frame_size: usize, now: u64) -> (r: Self)
        requires
            2 * frame_size <= usize::MAX,
        ensures
            r.wf(),
            r.handshake().wf(),
            r@ == unnamed::<S>(frame_size, r@.buffer, now),
            r.handshake()@ == (ServerHandshake::WaitRequest {
                start: now,
                conn: fresh_conn(uri_parts("server"@)->0, stream, Some(REQUEST_LIMIT)),
            }),
            r.handshake()@ == awaiting_request(stream, now),
    {
        let conn = HttpConnServer::accept(stream, Some(REQUEST_LIMIT));
        let state = WsServerHandshakeState::WaitRequest(now, conn);
        Self::init(Self::config(frame_size), state, now)
    }

    /// The connection that the handshake goes over.
    pub fn handshake_conn(&mut self) -> (r: Option<&mut HttpConnServer<S>>)
        requires
            old(self).wf(),
            old(self).handshake().wf(),
        ensures
            final(self).wf(),
            final(self)@ == old(self)@,
            match r {
                Some(conn) => {
                    &&& conn_ok(*conn)
                    &&& conn_ok(*final(conn)) ==> final(self).handshake().wf()
                    &&& handshake_over(old(self).handshake()@) == Some(conn@)
                    &&& final(self).handshake()@ == over(
                        old(self).handshake()@,
                        final(conn)@,
                    )
                },
                None => {
                    &&& old(self).handshake()@ is NotStarted
                    &&& final(self).handshake() == old(self).handshake()
                },
            },
    {
        match self.handshake_mut() {
            WsServerHandshakeState::NotStarted => None,
            WsServerHandshakeState::WaitRequest(_, conn) => Some(conn),
            WsServerHandshakeState::SendResponse(_, _, conn, _) => Some(conn),
            WsServerHandshakeState::WaitSent(_, conn, _) => Some(conn),
        }
    }

    /// Goes on with the handshake: reads the request for a WebSocket, and sends the response.
    /// `alive` tells whether the stream was not shut down.
    pub fn server_handshake(
        &mut self,
        alive: bool,
        timeout: Option<u64>,
        now: u64,
        event: WsAcceptEvent<S>,
        peer_ip: Option<String>,
    ) -> (r: WsAcceptStep)
        requires
            old(self).wf(),
            old(self).handshake().wf(),
            match event {
                WsAcceptEvent::Start(conn) => conn matches Some(c) ==> conn_ok(c),
                WsAcceptEvent::Conn(e) => old(self).handshake()@
                    matches ServerHandshake::WaitRequest { conn, .. } && event_fits(
                    e,
                    request_room(conn.header, conn.request),
                ),
                WsAcceptEvent::Sent(_) => old(self).handshake()@ is WaitSent,
            },
        ensures
            final(self).wf(),
            final(self).handshake().wf(),
            accept_turn(
                old(self)@,
                old(self).handshake()@,
                alive,
                timeout,
                now,
                event,
                text_view(peer_ip),
            ) == (AcceptTurn {
                step: r@,
                stream: final(self)@,
                handshake: final(self).handshake()@,
            }),
    {
        if !alive {
            return WsAcceptStep::Failed(WsError::ServerDisconnected { temporary: false });
        }
        let mut state = WsServerHandshakeState::NotStarted;
        core::mem::swap(&mut state, self.handshake_mut());
        match event {
            WsAcceptEvent::Start(conn) => {
                if self.is_connected() {
                    *self.handshake_mut() = state;
                    return WsAcceptStep::Connected;
                }
                match state {
                    WsServerHandshakeState::NotStarted => match conn {
                        None => WsAcceptStep::Failed(
                            WsError::ServerDisconnected { temporary: false },
                        ),
                        Some(conn) => {
                            *self.handshake_mut() = WsServerHandshakeState::WaitRequest(now, conn);
                            WsAcceptStep::Flush
                        },
                    },
                    WsServerHandshakeState::WaitRequest(start, conn) => {
                        *self.handshake_mut() = WsServerHandshakeState::WaitRequest(start, conn);
                        if is_late(start, timeout, now) {
                            return WsAcceptStep::Failed(WsError::InitError("timeout".to_owned()));
                        }
                        WsAcceptStep::Flush
                    },
                    WsServerHandshakeState::SendResponse(start, key, conn, path) => {
                        self.respond(start, key, conn, path, timeout, now)
                    },
                    WsServerHandshakeState::WaitSent(parser, conn, endpoint) => {
                        *self.handshake_mut() = WsServerHandshakeState::WaitSent(
                            parser,
                            conn,
                            endpoint,
                        );
                        WsAcceptStep::Send
                    },
                }
            },
            WsAcceptEvent::Conn(event) => match state {
                WsServerHandshakeState::WaitRequest(start, conn) => {
                    self.wait_request(start, conn, event, peer_ip, timeout, now)
                },
                _ => WsAcceptStep::Connected,
            },
            WsAcceptEvent::Sent(outcome) => match state {
                WsServerHandshakeState::WaitSent(parser, conn, endpoint) => {
                    let mut conn = conn;
                    let empty: [u8; 0] = [];
                    assert(empty@ =~= Seq::<u8>::empty());
                    match conn.write_response(&empty, Some(outcome)) {
                        ConnWriteStep::Failed(e) => {
                            WsAcceptStep::Fault(WsAcceptFault::NoAnswer(e))
                        },
                        _ => {
                            let (stream, buffer) = conn.into_raw();
                            let epoch = self.epoch();
                            self.open(stream, parser, false, buffer, epoch);
                            self.set_endpoint(endpoint);
                            WsAcceptStep::Connected
                        },
                    }
                },
                _ => WsAcceptStep::Connected,
            },
        }
    }

    fn wait_request(
        &mut self,
        start: u64,
        conn: HttpConnServer<S>,
        event: ConnReadEvent,
        peer_ip: Option<String>,
        timeout: Option<u64>,
        now: u64,
    ) -> (r: WsAcceptStep)
        requires
            old(self).wf(),
            old(self).handshake()@ is NotStarted,
            conn_ok(conn),
            event_fits(event, request_room(conn@.header, conn@.request)),
        ensures
            final(self).wf(),
            final(self).handshake().wf(),
            request_wait_turn(
                old(self)@,
                start,
                conn@,
                event,
                text_view(peer_ip),
                timeout,
                now,
            ) == (AcceptTurn {
                step: r@,
                stream: final(self)@,
                handshake: final(self).handshake()@,
            }),
    {
        let mut conn = conn;
        let step = conn.read_request(event, peer_ip);
        let req = match step {
            ServerStep::Done(req) => req,
            other => {
                *self.handshake_mut() = WsServerHandshakeState::WaitRequest(start, conn);
                return match other {
                    ServerStep::Flush => WsAcceptStep::Flush,
                    ServerStep::NeedRead(n) => WsAcceptStep::NeedRead(n),
                    ServerStep::Failed(e) => WsAcceptStep::Failed(
                        init_failed("err: ", describe(&e).as_str()),
                    ),
                    ServerStep::Fault(fault) => WsAcceptStep::Fault(WsAcceptFault::Request(fault)),
                    _ => WsAcceptStep::Failed(WsError::WouldBlock),
                };
            },
        };
        let ctx = match try_get_websocket_ctx(&req) {
            Some(Ok(Some(ctx))) => ctx,
            other => {
                *self.handshake_mut() = WsServerHandshakeState::WaitRequest(start, conn);
                return match other {
                    None => WsAcceptStep::Fault(WsAcceptFault::KeyTooLong),
                    Some(Err(e)) => WsAcceptStep::Failed(
                        init_failed("receive handshake header fail: ", e.text().as_str()),
                    ),
                    _ => WsAcceptStep::Failed(
                        WsError::InitError(
                            "WebSocket Protocol Error: expect a websocket context".to_owned(),
                        ),
                    ),
                };
            },
        };
        let path = req.path().to_owned();
        self.respond(start, ctx.sec_websocket_key, conn, path, timeout, now)
    }

    fn respond(
        &mut self,
        start: u64,
        key: String,
        conn: HttpConnServer<S>,
        path: String,
        timeout: Option<u64>,
        now: u64,
    ) -> (r: WsAcceptStep)
        requires
            old(self).wf(),
            old(self).handshake()@ is NotStarted,
            conn_ok(conn),
            encode_utf8(key@).len() <= KEY_LIMIT,
        ensures
            final(self).wf(),
            final(self).handshake().wf(),
            respond_turn(
                old(self)@,
                start,
                key@,
                conn@,
                path@,
                timeout,
                now,
            ) == (AcceptTurn {
                step: r@,
                stream: final(self)@,
                handshake: final(self).handshake()@,
            }),
    {
        if is_late(start, timeout, now) {
            *self.handshake_mut() = WsServerHandshakeState::SendResponse(start, key, conn, path);
            return WsAcceptStep::Failed(WsError::InitError("timeout".to_owned()));
        }
        let mut text = "ws://localhost".to_owned();
        text.append(path.as_str());
        proof {
            lemma_local_divisible(path@);
        }
        let endpoint = match Uri::new(text.as_str()) {
            Ok(endpoint) => endpoint,
            Err(_) => {
                let mut why = quote(path.as_str());
                why.append(": Parse(UriErr)");
                let e = init_failed("WebSocket Protocol Error: invalid path=", why.as_str());
                *self.handshake_mut() = WsServerHandshakeState::SendResponse(
                    start,
                    key,
                    conn,
                    path,
                );
                return WsAcceptStep::Failed(e);
            },
        };
        let mut parser = parser_new_server();
        let mut buffer: Vec<u8> = vec![0u8; 8096];
        let written = parser_accept(&mut parser, key.as_str(), &mut buffer);
        let response = slice_subrange(buffer.as_slice(), 0, written);
        assert(response@ =~= buffer@.take(written as int));
        let mut conn = conn;
        match conn.write_response(response, None) {
            ConnWriteStep::Failed(e) => {
                *self.handshake_mut() = WsServerHandshakeState::SendResponse(
                    start,
                    key,
                    conn,
                    path,
                );
                WsAcceptStep::Fault(WsAcceptFault::NoAnswer(e))
            },
            _ => {
                *self.handshake_mut() = WsServerHandshakeState::WaitSent(parser, conn, endpoint);
                WsAcceptStep::Send
            },
        }
    }

    /// Sends a message of a kind.
    pub fn write_ty(&mut self, alive: bool, now: u64, ty: WsDataType, buf: &[u8]) -> (r:
        WsWriteStep)
        requires
            old(self).wf(),
        ensures
            final(self).wf(),
            final(self).handshake() == old(self).handshake(),
            server_writes(
                old(self)@,
                alive,
                now,
                WsSendType::from_spec(ty),
                buf@,
                r@,
                final(self)@,
            ),
    {
        if !self.is_connected() {
            if !alive {
                return WsWriteStep::Failed(WsError::ServerDisconnected { temporary: false });
            }
            return WsWriteStep::Connect;
        }
        self.write_msg(alive, now, WsSendType::from(ty), buf)
    }

    /// Sends a binary message.
    pub fn write(&mut self, alive: bool, now: u64, buf: &[u8]) -> (r: WsWriteStep)
        requires
            old(self).wf(),
        ensures
            final(self).wf(),
            final(self).handshake() == old(self).handshake(),
            server_writes(old(self)@, alive, now, WsSendType::Binary, buf@, r@, final(self)@),
    {
        self.write_ty(alive, now, WsDataType::Binary, buf)
    }

    /// What [`Self::write`] fails with, where `e` came of writing, or of the handshake before that:
    /// as long as the handshake is not over, there is no connection, and where it failed, there
    /// will be none.
    pub fn not_written(&self, e: WsError) -> (r: WsError)
        ensures
            r@ == (match e@ {
                WsErrorView::InitError(_) => gone(false),
                WsErrorView::WouldBlock => gone(true),
                other => other,
            }),
    {
        match e {
            WsError::InitError(_) => WsError::ServerDisconnected { temporary: false },
            WsError::WouldBlock => WsError::ServerDisconnected { temporary: true },
            other => other,
        }
    }

    /// Reads a message of data to the end of `data`. Messages of other kinds are dealt with on the
    /// way.
    pub fn read(&mut self, alive: bool, now: u64, event: WsReadEvent, data: &mut Vec<u8>) -> (r:
        WsReadStep)
        requires
            old(self).wf(),
            event matches WsReadEvent::Read(StreamRead::Data(bytes)) ==> bytes@.len() <= old(
                self,
            )@.input.room(),
        ensures
            final(self).wf(),
            final(self).handshake() == old(self).handshake(),
            ({
                let turn = server_reads(old(self)@, alive, now, event);
                &&& r@ == turn.step
                &&& turned(old(self)@, final(self)@, turn)
                &&& final(data)@ == old(data)@ + turn.data
            }),
            !(r is Done) ==> final(data)@ == old(data)@,
    {
        if let WsReadEvent::Start = event {
            if !self.is_connected() {
                if !alive {
                    return WsReadStep::Failed(WsError::ServerDisconnected { temporary: false });
                }
                return WsReadStep::Connect;
            }
        }
        self.generic_read(alive, now, event, data)
    }
}

/// A stream of a server that was just made.
pub open spec fn unnamed<S>(frame_size: usize, buffer: Seq<u8>, now: u64) -> WsView<S> {
    let size: usize = if frame_size == 0 {
        4096
    } else {
        frame_size
    };
    WsView {
        endpoint: uri_parts("/"@)->0,
        frame_size: size,
        keep_alive: None,
        auto_reconnect: false,
        connected: None,
        epoch: 1,
        buffer,
        input: BufferView { data: Seq::empty(), cap: 2 * size as nat },
        last_msg_time: now,
        pieces: Seq::empty(),
        output: Seq::empty(),
        loop_cnt: 0,
    }
}

/// The connection that a handshake goes over.
pub open spec fn handshake_over<S>(h: ServerHandshake<S>) -> Option<ConnView<S>> {
    match h {
        ServerHandshake::NotStarted => None,
        ServerHandshake::WaitRequest { conn, .. } => Some(conn),
        ServerHandshake::SendResponse { conn, .. } => Some(conn),
        ServerHandshake::WaitSent { conn, .. } => Some(conn),
    }
}

/// A handshake over another connection.
pub open spec fn over<S>(h: ServerHandshake<S>, conn: ConnView<S>) -> ServerHandshake<S> {
    match h {
        ServerHandshake::NotStarted => h,
        ServerHandshake::WaitRequest { start, .. } => ServerHandshake::WaitRequest { start, conn },
        ServerHandshake::SendResponse { start, key, path, .. } => ServerHandshake::SendResponse {
            start,
            key,
            conn,
            path,
        },
        ServerHandshake::WaitSent { parser, endpoint, .. } => ServerHandshake::WaitSent {
            parser,
            conn,
            endpoint,
        },
    }
}

/// Whether sending a message makes `after` of the stream of a server, and `step` the next thing to
/// do.
pub open spec fn server_writes<S>(
    w: WsView<S>,
    alive: bool,
    now: u64,
    ty: WsSendType,
    message: Seq<u8>,
    step: WsWriteStepView,
    after: WsView<S>,
) -> bool {
    if w.connected is None {
        &&& after == w
        &&& if alive {
            step is Connect
        } else {
            step == WsWriteStepView::Failed(gone(false))
        }
    } else {
        message_sent(w, alive, now, ty, message, step, after)
    }
}

/// What an event comes to where a server wants a message.
pub open spec fn server_reads<S>(
    w: WsView<S>,
    alive: bool,
    now: u64,
    event: WsReadEvent,
) -> ReadTurn<S> {
    if event is Start && w.connected is None {
        plain_turn(
            if alive {
                WsReadStepView::Connect
            } else {
                WsReadStepView::Failed(gone(false))
            },
            w,
        )
    } else {
        read_turn(w, alive, now, event)
    }
}

fn is_late(start: u64, timeout: Option<u64>, now: u64) -> (r: bool)
    ensures
        r == late(start, timeout, now),
{
    match timeout {
        Some(time) => now > start && now - start > time,
        None => false,
    }
}

} // verus!
