//! WebSocket streams of clients.
use crate::buffer::BufferVec;
use crate::conn::{
    client_read_turn, event_fits, fresh_conn, queued, raw_write_turn, ClientFault, ClientStep,
    ClientStepView, ConnReadEvent, ConnView, ConnWriteStep, ConnWriteStepView, HttpConnClient,
    HttpConnError, HttpConnErrorView,
};
use crate::error::{bracket, bracketed, error_text};
use crate::response_read::response_room;
use crate::stream::{IOError, StreamRead};
use crate::uri::{no_host, path_of, Uri, UriView};
use crate::ws_handshake::{handshake_error_text, handshake_outcome, read_handshake_response};
use crate::ws_parser::{
    client_key, connect_fits, is_connect_request, new_parser, parser_connect, parser_new_client,
    parser_set_open, ws_parser_random, ws_parser_state, WsParser, WsParserState, WsPhase,
};
use crate::ws_stream::{
    fresh, gone, message_sent, plain_turn, read_turn, turned, ReadTurn, WsReadEvent,
    WsReadStep, WsReadStepView, WsStream, WsStreamConfig, WsView, WsWriteStep,
    WsWriteStepView,
};
use crate::ws_types::{WsDataType, WsError, WsErrorView, WsSendType};
use vstd::prelude::*;
use vstd::slice::slice_subrange;
use vstd::std_specs::convert::FromSpec;
use vstd::string::StringExecFns;

verus! {

/// How far the handshake of a client is.
pub enum WsClientHandshakeState<S> {
    NotStarted,
    /// The request is to be sent.
    WaitSend(BufferVec, String, WsParser, HttpConnClient<S>),
    /// The request was sent; the response is to be read.
    Send(String, WsParser, HttpConnClient<S>),
}

/// A WebSocket stream of a client.
pub type WsStreamClient<S> = WsStream<S, WsClientHandshakeState<S>>;

/// What a [`WsClientHandshakeState`] holds.
pub enum ClientHandshake<S> {
    NotStarted,
    WaitSend { request: Seq<u8>, key: Seq<char>, parser: WsParserState, conn: ConnView<S> },
    Send { key: Seq<char>, parser: WsParserState, conn: ConnView<S> },
}

impl<S> View for WsClientHandshakeState<S> {
    type V = ClientHandshake<S>;

    open spec fn view(&self) -> ClientHandshake<S> {
        match *self {
            WsClientHandshakeState::NotStarted => ClientHandshake::NotStarted,
            WsClientHandshakeState::WaitSend(buf, key, parser, conn) => ClientHandshake::WaitSend {
                request: buf@.data,
                key: key@,
                parser: ws_parser_state(parser),
                conn: conn@,
            },
            WsClientHandshakeState::Send(key, parser, conn) => ClientHandshake::Send {
                key: key@,
                parser: ws_parser_state(parser),
                conn: conn@,
            },
        }
    }
}

impl<S> WsClientHandshakeState<S> {
    pub open spec fn wf(&self) -> bool {
        match *self {
            WsClientHandshakeState::NotStarted => true,
            WsClientHandshakeState::WaitSend(buf, _, parser, conn) => {
                &&& buf.wf()
                &&& conn.wf()
                &&& conn@.request_cnt == 0
                &&& !ws_parser_state(parser).continuing
                &&& ws_parser_state(parser).is_client
            },
            WsClientHandshakeState::Send(_, parser, conn) => {
                &&& conn.wf()
                &&& conn@.request_cnt == 0
                &&& !ws_parser_state(parser).continuing
                &&& ws_parser_state(parser).is_client
            },
        }
    }
}

/// What has come of what was asked for last, or a new wish for a connection.
pub enum WsConnectEvent<S> {
    Start,
    /// A stream to the address was opened; the bytes start the random numbers of the connection.
    Opened(S, [u8; 32]),
    /// No stream to the address could be opened.
    NotOpened(HttpConnError),
    /// Writing out the request gave this.
    Sent(Result<(), IOError>),
    /// Waiting for the response gave this.
    Conn(ConnReadEvent),
}

/// What is to be done next to get a connection.
pub enum WsConnectStep {
    /// Open a stream to the address.
    Open,
    /// Write out what is to be sent on the connection of the handshake; what the stream does not
    /// take now may stay for later.
    Send,
    /// Write out all that is to be sent on the connection of the handshake.
    Flush,
    /// Read at most this many bytes off the stream of the handshake.
    NeedRead(usize),
    Connected,
    Failed(WsError),
    Fault(ClientFault),
}

/// What a [`WsConnectStep`] stands for.
pub enum WsConnectStepView {
    Open,
    Send,
    Flush,
    NeedRead(int),
    Connected,
    Failed(WsErrorView),
    Fault(ClientStepView),
}

impl View for WsConnectStep {
    type V = WsConnectStepView;

    open spec fn view(&self) -> WsConnectStepView {
        match *self {
            WsConnectStep::Open => WsConnectStepView::Open,
            WsConnectStep::Send => WsConnectStepView::Send,
            WsConnectStep::Flush => WsConnectStepView::Flush,
            WsConnectStep::NeedRead(n) => WsConnectStepView::NeedRead(n as int),
            WsConnectStep::Connected => WsConnectStepView::Connected,
            WsConnectStep::Failed(e) => WsConnectStepView::Failed(e@),
            WsConnectStep::Fault(fault) => WsConnectStepView::Fault(ClientStep::Fault(fault)@),
        }
    }
}

/// The name of an error of a connection, with what it tells.
pub open spec fn conn_error_text(e: HttpConnErrorView) -> Seq<char> {
    match e {
        HttpConnErrorView::EOF => "EOF"@,
        HttpConnErrorView::WouldBlock => "WouldBlock"@,
        HttpConnErrorView::IoError(text) => bracketed("IoError"@, text),
        HttpConnErrorView::Error(e) => bracketed("Error"@, error_text(e)),
        HttpConnErrorView::Timeout => "Timeout"@,
    }
}

/// The name of an error of a connection, with what it tells.
pub(crate) fn describe(e: &HttpConnError) -> (r: String)
    ensures
        r@ == conn_error_text(e@),
{
    match e {
        HttpConnError::EOF => "EOF".to_owned(),
        HttpConnError::WouldBlock => "WouldBlock".to_owned(),
        HttpConnError::IoError(text) => bracket("IoError", text.as_str()),
        HttpConnError::Error(e) => bracket("Error", e.text().as_str()),
        HttpConnError::Timeout => "Timeout".to_owned(),
    }
}

/// The error that a connection could not be set up, in two words.
pub open spec fn init_error(what: Seq<char>, why: Seq<char>) -> WsErrorView {
    WsErrorView::InitError(what + why)
}

/// The error that a connection could not be set up, in two words.
pub(crate) fn init_failed(what: &str, why: &str) -> (r: WsError)
    ensures
        r@ == init_error(what@, why@),
{
    let mut text = what.to_owned();
    text.append(why);
    WsError::InitError(text)
}

/// Where a client says that it comes from.
pub open spec fn origin_of(uri: UriView) -> Seq<char> {
    uri.scheme + "://"@ + uri.host->0
}

/// Whether `event` makes `then` and `after` of a stream and its handshake, and `step` the next
/// thing to do.
pub open spec fn connects<S>(
    w: WsView<S>,
    h: ClientHandshake<S>,
    alive: bool,
    event: WsConnectEvent<S>,
    step: WsConnectStepView,
    after: WsView<S>,
    then: ClientHandshake<S>,
) -> bool {
    match event {
        WsConnectEvent::Start => after == w && if !alive {
            step == WsConnectStepView::Failed(gone(false)) && then == h
        } else if w.connected is Some {
            step is Connected && then == h
        } else {
            match h {
                ClientHandshake::NotStarted => step is Open && then == h,
                ClientHandshake::WaitSend { request, key, parser, conn } => {
                    &&& step is Send
                    &&& then == (ClientHandshake::WaitSend {
                        request,
                        key,
                        parser,
                        conn: queued(conn, request),
                    })
                },
                ClientHandshake::Send { .. } => step is Flush && then == h,
            }
        },
        WsConnectEvent::NotOpened(e) => {
            &&& step == WsConnectStepView::Failed(WsErrorView::InitError(conn_error_text(e@)))
            &&& after == w
            &&& then == h
        },
        WsConnectEvent::Opened(stream, seed) => after == w && opens(
            w.endpoint,
            stream,
            seed@,
            step,
            then,
        ),
        WsConnectEvent::Sent(outcome) => after == w && if let ClientHandshake::WaitSend {
            request,
            key,
            parser,
            conn,
        } = h {
            let (done, sent) = raw_write_turn(conn, 0, request, Some(outcome));
            match done {
                ConnWriteStepView::Failed(HttpConnErrorView::WouldBlock) => {
                    step == WsConnectStepView::Failed(WsErrorView::WouldBlock) && then == h
                },
                ConnWriteStepView::Failed(e) => {
                    &&& step == WsConnectStepView::Failed(
                        init_error("write error: "@, conn_error_text(e)),
                    )
                    &&& then is NotStarted
                },
                _ => step is Flush && then == (ClientHandshake::Send { key, parser, conn: sent }),
            }
        } else {
            false
        },
        WsConnectEvent::Conn(event) => if let ClientHandshake::Send { key, parser, conn } = h {
            let (done, read) = client_read_turn(conn, event);
            let waiting = ClientHandshake::Send { key, parser, conn: read };
            match done {
                ClientStepView::Flush => step is Flush && after == w && then == waiting,
                ClientStepView::NeedRead(n) => {
                    step == WsConnectStepView::NeedRead(n) && after == w && then == waiting
                },
                ClientStepView::Done(_, response) => then is NotStarted
                    && match handshake_outcome(response, key) {
                    Some(e) => {
                        &&& step == WsConnectStepView::Failed(
                            init_error("Handshake accept error: "@, handshake_error_text(e)),
                        )
                        &&& after == w
                    },
                    None => step is Connected && after == opened(w, read, parser),
                },
                ClientStepView::Failed(HttpConnErrorView::WouldBlock) => {
                    &&& step == WsConnectStepView::Failed(WsErrorView::WouldBlock)
                    &&& after == w
                    &&& then == waiting
                },
                ClientStepView::Failed(e) => {
                    &&& step == WsConnectStepView::Failed(
                        init_error("Handshake read error: "@, conn_error_text(e)),
                    )
                    &&& after == w
                    &&& then is NotStarted
                },
                fault => step == WsConnectStepView::Fault(fault) && after == w && then == waiting,
            }
        } else {
            false
        },
    }
}

/// Whether a stream that was opened to an address makes `then` of a handshake, and `step` the next
/// thing to do: the request with a key that comes of the seed is to be sent.
pub open spec fn opens<S>(
    uri: UriView,
    stream: S,
    seed: Seq<u8>,
    step: WsConnectStepView,
    then: ClientHandshake<S>,
) -> bool {
    if uri.host is None {
        &&& step == WsConnectStepView::Failed(
            init_error("invalid host: "@, error_text(no_host())),
        )
        &&& then is NotStarted
    } else if !connect_fits(path_of(uri), uri.host->0, origin_of(uri)) {
        &&& step == WsConnectStepView::Failed(init_error("Handshake connect error: "@, "Unknown"@))
        &&& then is NotStarted
    } else if let ClientHandshake::WaitSend { request, key, parser, conn } = then {
        &&& step is Send
        &&& key == client_key(seed)
        &&& is_connect_request(path_of(uri), uri.host->0, origin_of(uri), key, request)
        &&& parser == (WsParserState { phase: WsPhase::Connecting, ..new_parser(true) })
        &&& conn == queued(fresh_conn(uri, stream, None), request)
    } else {
        false
    }
}

/// A stream with the connection that a handshake has led to. What came behind the response is the
/// first that is read.
pub open spec fn opened<S>(w: WsView<S>, conn: ConnView<S>, parser: WsParserState) -> WsView<S> {
    WsView {
        connected: Some((conn.stream, WsParserState { phase: WsPhase::Open, ..parser })),
        input: conn.header,
        epoch: next_epoch(w.epoch),
        ..w
    }
}

/// The count of connections after one more.
pub open spec fn next_epoch(epoch: usize) -> usize {
    if epoch == usize::MAX {
        0
    } else {
        (epoch + 1) as usize
    }
}

impl<S> WsStream<S, WsClientHandshakeState<S>> {
    /// A stream to an address, without a connection yet.
    pub fn new(cfg: WsStreamConfig, now: u64) -> (r: Self)
        requires
            2 * cfg.frame_size <= usize::MAX,
        ensures
            r.wf(),
            r.handshake().wf(),
            r@ == fresh::<S>(cfg, r@.buffer, now),
            r.handshake()@ is NotStarted,
    {
        Self::init(cfg, WsClientHandshakeState::NotStarted, now)
    }

    /// Drops the connection and gets another.
    pub fn reconnect(&mut self, alive: bool) -> (r: WsConnectStep)
        requires
            old(self).wf(),
            old(self).handshake().wf(),
        ensures
            final(self).wf(),
            final(self).handshake().wf(),
            connects(
                old(self)@.disconnected(),
                old(self).handshake()@,
                alive,
                WsConnectEvent::Start,
                r@,
                final(self)@,
                final(self).handshake()@,
            ),
    {
        self.disconnect();
        self.connect(alive, WsConnectEvent::Start)
    }

    /// The connection that the handshake goes over.
    pub fn handshake_conn(&mut self) -> (r: Option<&mut HttpConnClient<S>>)
        requires
            old(self).wf(),
            old(self).handshake().wf(),
        ensures
            final(self).wf(),
            final(self)@ == old(self)@,
            match r {
                Some(conn) => {
                    &&& conn.wf()
                    &&& final(conn).wf() && final(conn)@.request_cnt == 0
                        ==> final(self).handshake().wf()
                    &&& match old(self).handshake()@ {
                        ClientHandshake::NotStarted => false,
                        ClientHandshake::WaitSend { request, key, parser, conn: c } => {
                            &&& conn@ == c
                            &&& final(self).handshake()@ == (ClientHandshake::WaitSend {
                                request,
                                key,
                                parser,
                                conn: final(conn)@,
                            })
                        },
                        ClientHandshake::Send { key, parser, conn: c } => {
                            &&& conn@ == c
                            &&& final(self).handshake()@ == (ClientHandshake::Send {
                                key,
                                parser,
                                conn: final(conn)@,
                            })
                        },
                    }
                },
                None => {
                    &&& old(self).handshake()@ is NotStarted
                    &&& final(self).handshake() == old(self).handshake()
                },
            },
    {
        match self.handshake_mut() {
            WsClientHandshakeState::NotStarted => None,
            WsClientHandshakeState::WaitSend(_, _, _, conn) => Some(conn),
            WsClientHandshakeState::Send(_, _, conn) => Some(conn),
        }
    }

    /// The request that opens a WebSocket under an address, and the key in it.
    fn client_write_handshake_info(uri: &Uri, parser: &mut WsParser) -> (r: Result<
        (BufferVec, String),
        WsError,
    >)
        requires
            ws_parser_state(*old(parser)) == new_parser(true),
        ensures
            match r {
                Ok((buffer, key)) => {
                    &&& buffer.wf()
                    &&& uri@.host is Some
                    &&& connect_fits(path_of(uri@), uri@.host->0, origin_of(uri@))
                    &&& key@ == client_key(ws_parser_random(*old(parser)))
                    &&& is_connect_request(
                        path_of(uri@),
                        uri@.host->0,
                        origin_of(uri@),
                        key@,
                        buffer@.data,
                    )
                    &&& ws_parser_state(*final(parser)) == (WsParserState {
                        phase: WsPhase::Connecting,
                        ..new_parser(true)
                    })
                },
                Err(e) => if uri@.host is None {
                    e@ == init_error("invalid host: "@, error_text(no_host()))
                } else {
                    &&& !connect_fits(path_of(uri@), uri@.host->0, origin_of(uri@))
                    &&& e@ == init_error("Handshake connect error: "@, "Unknown"@)
                },
            },
    {
        let host = match uri.host() {
            Ok(host) => host,
            Err(e) => return Err(init_failed("invalid host: ", e.text().as_str())),
        };
        let mut origin = uri.scheme().to_owned();
        origin.append("://");
        origin.append(host);
        let mut buffer: Vec<u8> = vec![0u8; 8096];
        match parser_connect(parser, uri.path(), host, origin.as_str(), &mut buffer) {
            Some((length, key)) => {
                let request = slice_subrange(buffer.as_slice(), 0, length);
                assert(request@ =~= buffer@.take(length as int));
                Ok((BufferVec::from_slice(request, 8096), key))
            },
            None => Err(init_failed("Handshake connect error: ", "Unknown")),
        }
    }

    /// Gets a connection: opens a stream to the address, sends the request for a WebSocket and
    /// reads the response.
    pub fn connect(&mut self, alive: bool, event: WsConnectEvent<S>) -> (r: WsConnectStep)
        requires
            old(self).wf(),
            old(self).handshake().wf(),
            match event {
                WsConnectEvent::Start => true,
                WsConnectEvent::Opened(_, _) | WsConnectEvent::NotOpened(_) => old(
                    self,
                ).handshake()@ is NotStarted,
                WsConnectEvent::Sent(_) => old(self).handshake()@ is WaitSend,
                WsConnectEvent::Conn(e) => old(self).handshake()@ matches ClientHandshake::Send {
                    conn,
                    ..
                } && event_fits(e, response_room(conn.header, conn.response)),
            },
        ensures
            final(self).wf(),
            final(self).handshake().wf(),
            connects(
                old(self)@,
                old(self).handshake()@,
                alive,
                event,
                r@,
                final(self)@,
                final(self).handshake()@,
            ),
    {
        let mut state = WsClientHandshakeState::NotStarted;
        core::mem::swap(&mut state, self.handshake_mut());
        match event {
            WsConnectEvent::Start => {
                if !alive {
                    *self.handshake_mut() = state;
                    return WsConnectStep::Failed(WsError::ServerDisconnected { temporary: false });
                }
                if self.is_connected() {
                    *self.handshake_mut() = state;
                    return WsConnectStep::Connected;
                }
                match state {
                    WsClientHandshakeState::NotStarted => WsConnectStep::Open,
                    WsClientHandshakeState::WaitSend(buffer, key, parser, conn) => {
                        let mut conn = conn;
                        let _ = conn.write_raw_request(0, buffer.read(), None);
                        *self.handshake_mut() = WsClientHandshakeState::WaitSend(
                            buffer,
                            key,
                            parser,
                            conn,
                        );
                        WsConnectStep::Send
                    },
                    WsClientHandshakeState::Send(key, parser, conn) => {
                        *self.handshake_mut() = WsClientHandshakeState::Send(key, parser, conn);
                        WsConnectStep::Flush
                    },
                }
            },
            WsConnectEvent::NotOpened(e) => WsConnectStep::Failed(WsError::InitError(describe(&e))),
            WsConnectEvent::Opened(stream, seed) => {
                let mut parser = parser_new_client(seed);
                match Self::client_write_handshake_info(self.endpoint(), &mut parser) {
                    Ok((buffer, key)) => {
                        let mut conn = HttpConnClient::connect(self.endpoint().clone(), stream);
                        let _ = conn.write_raw_request(0, buffer.read(), None);
                        *self.handshake_mut() = WsClientHandshakeState::WaitSend(
                            buffer,
                            key,
                            parser,
                            conn,
                        );
                        WsConnectStep::Send
                    },
                    Err(e) => WsConnectStep::Failed(e),
                }
            },
            WsConnectEvent::Sent(outcome) => match state {
                WsClientHandshakeState::WaitSend(buffer, key, parser, conn) => {
                    let mut conn = conn;
                    match conn.write_raw_request(0, buffer.read(), Some(outcome)) {
                        ConnWriteStep::Failed(HttpConnError::WouldBlock) => {
                            *self.handshake_mut() = WsClientHandshakeState::WaitSend(
                                buffer,
                                key,
                                parser,
                                conn,
                            );
                            WsConnectStep::Failed(WsError::WouldBlock)
                        },
                        ConnWriteStep::Failed(e) => {
                            let why = describe(&e);
                            WsConnectStep::Failed(init_failed("write error: ", why.as_str()))
                        },
                        _ => {
                            *self.handshake_mut() = WsClientHandshakeState::Send(key, parser, conn);
                            WsConnectStep::Flush
                        },
                    }
                },
                _ => WsConnectStep::Open,
            },
            WsConnectEvent::Conn(event) => match state {
                WsClientHandshakeState::Send(key, parser, conn) => {
                    self.client_get_handshake_response(key, parser, conn, event)
                },
                _ => WsConnectStep::Open,
            },
        }
    }

    /// Goes on with reading the response to the request for a WebSocket.
    fn client_get_handshake_response(
        &mut self,
        key: String,
        parser: WsParser,
        conn: HttpConnClient<S>,
        event: ConnReadEvent,
    ) -> (r: WsConnectStep)
        requires
            old(self).wf(),
            old(self).handshake()@ is NotStarted,
            conn.wf(),
            conn@.request_cnt == 0,
            !ws_parser_state(parser).continuing,
            ws_parser_state(parser).is_client,
            event_fits(event, response_room(conn@.header, conn@.response)),
        ensures
            final(self).wf(),
            final(self).handshake().wf(),
            connects(
                old(self)@,
                ClientHandshake::Send {
                    key: key@,
                    parser: ws_parser_state(parser),
                    conn: conn@,
                },
                true,
                WsConnectEvent::Conn(event),
                r@,
                final(self)@,
                final(self).handshake()@,
            ),
    {
        let mut conn = conn;
        let mut parser = parser;
        match conn.read_response(event) {
            ClientStep::Flush => {
                *self.handshake_mut() = WsClientHandshakeState::Send(key, parser, conn);
                WsConnectStep::Flush
            },
            ClientStep::NeedRead(n) => {
                *self.handshake_mut() = WsClientHandshakeState::Send(key, parser, conn);
                WsConnectStep::NeedRead(n)
            },
            ClientStep::Done(_, response) => match read_handshake_response(
                &response,
                key.as_str(),
            ) {
                Ok(_) => {
                    parser_set_open(&mut parser);
                    let (stream, buffer) = conn.into_raw();
                    let epoch = self.epoch();
                    let epoch = if epoch == usize::MAX {
                        0
                    } else {
                        epoch + 1
                    };
                    self.open(stream, parser, true, buffer, epoch);
                    WsConnectStep::Connected
                },
                Err(e) => {
                    let why = e.text();
                    WsConnectStep::Failed(init_failed("Handshake accept error: ", why.as_str()))
                },
            },
            ClientStep::Failed(HttpConnError::WouldBlock) => {
                *self.handshake_mut() = WsClientHandshakeState::Send(key, parser, conn);
                WsConnectStep::Failed(WsError::WouldBlock)
            },
            ClientStep::Failed(e) => {
                let why = describe(&e);
                WsConnectStep::Failed(init_failed("Handshake read error: ", why.as_str()))
            },
            ClientStep::Fault(fault) => {
                *self.handshake_mut() = WsClientHandshakeState::Send(key, parser, conn);
                WsConnectStep::Fault(fault)
            },
        }
    }

    /// Why there is no connection to use, if there is none.
    fn auto_reconnect(&self) -> (r: Option<Result<(), WsError>>)
        ensures
            match (r, connection_wanted(self@, self.handshake()@)) {
                (None, None) => true,
                (Some(Ok(_)), Some(None)) => true,
                (Some(Err(e)), Some(Some(f))) => e@ == f,
                _ => false,
            },
    {
        if self.is_connected() {
            return None;
        }
        if !self.auto_reconnects() {
            if let WsClientHandshakeState::NotStarted = self.handshake_state() {
                return Some(Err(WsError::ServerDisconnected { temporary: false }));
            }
        }
        Some(Ok(()))
    }

    /// Sends a message of a kind.
    pub fn write_ty(&mut self, alive: bool, now: u64, ty: WsDataType, buf: &[u8]) -> (r:
        WsWriteStep)
        requires
            old(self).wf(),
        ensures
            final(self).wf(),
            final(self).handshake() == old(self).handshake(),
            client_writes(
                old(self)@,
                old(self).handshake()@,
                alive,
                now,
                WsSendType::from_spec(ty),
                buf@,
                r@,
                final(self)@,
            ),
    {
        match self.auto_reconnect() {
            None => self.write_msg(alive, now, WsSendType::from(ty), buf),
            Some(Ok(_)) => WsWriteStep::Connect,
            Some(Err(e)) => WsWriteStep::Failed(e),
        }
    }

    /// Sends a binary message.
    pub fn write(&mut self, alive: bool, now: u64, buf: &[u8]) -> (r: WsWriteStep)
        requires
            old(self).wf(),
        ensures
            final(self).wf(),
            final(self).handshake() == old(self).handshake(),
            client_writes(
                old(self)@,
                old(self).handshake()@,
                alive,
                now,
                WsSendType::Binary,
                buf@,
                r@,
                final(self)@,
            ),
    {
        self.write_ty(alive, now, WsDataType::Binary, buf)
    }

    /// What [`Self::write`] fails with, where `e` came of writing, or of getting a connection for
    /// that: where none could be set up, there is none.
    pub fn not_written(&self, e: WsError) -> (r: WsError)
        ensures
            r@ == (match e@ {
                WsErrorView::InitError(_) => gone(self@.auto_reconnect),
                other => other,
            }),
    {
        match e {
            WsError::InitError(_) => WsError::ServerDisconnected {
                temporary: self.auto_reconnects(),
            },
            other => other,
        }
    }

    /// Reads a message of data to the end of `data`. Messages of other kinds are dealt with on the
    /// way.
    pub fn read(&mut self, alive: bool, now: u64, event: WsReadEvent, data: &mut Vec<u8>) -> (r:
        WsReadStep)
        requires
            old(self).wf(),
            event matches WsReadEvent::Read(StreamRead::Data(bytes)) ==> bytes@.len() <= old(
                self,
            )@.input.room(),
        ensures
            final(self).wf(),
            final(self).handshake() == old(self).handshake(),
            ({
                let turn = client_read(old(self)@, old(self).handshake()@, alive, now, event);
                &&& r@ == turn.step
                &&& turned(old(self)@, final(self)@, turn)
                &&& final(data)@ == old(data)@ + turn.data
            }),
            !(r is Done) ==> final(data)@ == old(data)@,
    {
        if let WsReadEvent::Start = event {
            match self.auto_reconnect() {
                None => {},
                Some(Ok(_)) => return WsReadStep::Connect,
                Some(Err(e)) => return WsReadStep::Failed(e),
            }
        }
        self.generic_read(alive, now, event, data)
    }
}

/// Whether a client must get a connection first: it need not where there is one; it does where it
/// may, or is about to; and else that is an error.
pub open spec fn connection_wanted<S>(w: WsView<S>, h: ClientHandshake<S>) -> Option<
    Option<WsErrorView>,
> {
    if w.connected is Some {
        None
    } else if !w.auto_reconnect && h is NotStarted {
        Some(Some(gone(false)))
    } else {
        Some(None)
    }
}

/// Whether sending a message makes `after` of the stream of a client, and `step` the next thing to
/// do.
pub open spec fn client_writes<S>(
    w: WsView<S>,
    h: ClientHandshake<S>,
    alive: bool,
    now: u64,
    ty: WsSendType,
    message: Seq<u8>,
    step: WsWriteStepView,
    after: WsView<S>,
) -> bool {
    match connection_wanted(w, h) {
        Some(None) => step is Connect && after == w,
        Some(Some(e)) => step == WsWriteStepView::Failed(e) && after == w,
        None => message_sent(w, alive, now, ty, message, step, after),
    }
}

/// What an event comes to where a client wants a message.
pub open spec fn client_read<S>(
    w: WsView<S>,
    h: ClientHandshake<S>,
    alive: bool,
    now: u64,
    event: WsReadEvent,
) -> ReadTurn<S> {
    match (event, connection_wanted(w, h)) {
        (WsReadEvent::Start, Some(None)) => plain_turn(WsReadStepView::Connect, w),
        (WsReadEvent::Start, Some(Some(e))) => plain_turn(WsReadStepView::Failed(e), w),
        _ => read_turn(w, alive, now, event),
    }
}

} // verus!
