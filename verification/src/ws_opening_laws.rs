//! How WebSockets are opened, one event after the other, on both sides.
use crate::buffer::BufferView;
use crate::conn::{
    client_read_turn, server_read_turn, ClientStepView, ConnReadEvent, ConnView,
    HttpConnErrorView, HttpConnServer, ServerStepView,
};
use crate::error::{error_text, HttpErrorView};
use crate::headers::lower;
use crate::request::HeaderView;
use crate::response::ResponseView;
use crate::sent_request::{is_field, is_target};
use crate::stream::{IOError, StreamRead};
use crate::text::{decimal, quoted};
use crate::uri::{path_of, uri_parts};
use crate::ws_accept::{
    accept_turn, awaiting_request, unnamed, ServerHandshake, WsAcceptEvent, WsAcceptStepView,
};
use crate::ws_client::{
    conn_error_text, connects, ClientHandshake, WsConnectEvent, WsConnectStepView,
};
use crate::ws_handshake::{
    accept_string, base64_text, ctx_end, ctx_scan, handshake_error_text, handshake_outcome,
    kept_protocols, list_items, offered, sha1_of, CtxEnd, CtxScan, WsContextView, WsHandshakeError,
};
use crate::ws_handshake_laws::{law_answer_is_accepted, law_handshake_is_understood};
use crate::ws_parser::{
    accept_text, client_key, connect_fits, is_connect_request, WsParserState, WsPhase,
};
use crate::ws_stream::WsView;
use crate::ws_types::WsErrorView;
use vstd::prelude::*;
use vstd::utf8::{decode_utf8, encode_utf8, valid_utf8};

verus! {

/// Who wants a connection goes on with the handshake: opens a stream where none is under way, sends
/// the request, or waits for the response. Nothing is done where there is a connection, and none is
/// got for a stream that was shut down.
pub proof fn law_connecting_goes_on<S>(
    w: WsView<S>,
    h: ClientHandshake<S>,
    alive: bool,
    step: WsConnectStepView,
    after: WsView<S>,
    then: ClientHandshake<S>,
)
    requires
        connects(w, h, alive, WsConnectEvent::Start, step, after, then),
    ensures
        after == w,
        !alive ==> then == h && step == WsConnectStepView::Failed(
            WsErrorView::ServerDisconnected { temporary: false },
        ),
        alive && w.connected is Some ==> step is Connected && then == h,
        alive && w.connected is None ==> match h {
            ClientHandshake::NotStarted => step is Open && then == h,
            ClientHandshake::Send { .. } => step is Flush && then == h,
            ClientHandshake::WaitSend { request, key, parser, conn } => {
                &&& step is Send
                &&& then == (ClientHandshake::WaitSend {
                    request,
                    key,
                    parser,
                    conn: ConnView { output: conn.output + request, ..conn },
                })
            },
        },
{
}

/// Over a stream that was opened to an address with a host, a client sends the request for a
/// WebSocket under the path of the address, with the key that comes of the seed, and nothing else.
pub proof fn law_handshake_begins<S>(
    w: WsView<S>,
    h: ClientHandshake<S>,
    alive: bool,
    stream: S,
    seed: [u8; 32],
    step: WsConnectStepView,
    after: WsView<S>,
    then: ClientHandshake<S>,
)
    requires
        connects(w, h, alive, WsConnectEvent::Opened(stream, seed), step, after, then),
        w.endpoint.host is Some,
        connect_fits(
            path_of(w.endpoint),
            w.endpoint.host->0,
            w.endpoint.scheme + "://"@ + w.endpoint.host->0,
        ),
    ensures
        step is Send,
        after == w,
        then matches ClientHandshake::WaitSend { request, key, parser, conn } && {
            &&& key == client_key(seed@)
            &&& is_connect_request(
                path_of(w.endpoint),
                w.endpoint.host->0,
                w.endpoint.scheme + "://"@ + w.endpoint.host->0,
                key,
                request,
            )
            &&& conn.stream == stream
            &&& conn.uri == w.endpoint
            &&& conn.output == request
            &&& conn.header == (BufferView { data: Seq::empty(), cap: 8096 })
            &&& conn.response is Empty
            &&& conn.inflight.len() == 0
            &&& parser.is_client
            &&& parser.part is None
            &&& parser.message is None
        },
{
    let request = then->WaitSend_request;
    assert(Seq::<u8>::empty() + request =~= request);
}

/// Where no stream can be opened, or the address has no host, or the request for it would be too
/// long, no connection is set up: the reason is told, and the next time it starts over.
pub proof fn law_handshake_cannot_begin<S>(
    w: WsView<S>,
    h: ClientHandshake<S>,
    alive: bool,
    event: WsConnectEvent<S>,
    step: WsConnectStepView,
    after: WsView<S>,
    then: ClientHandshake<S>,
)
    requires
        event is NotOpened || event is Opened,
        connects(w, h, alive, event, step, after, then),
    ensures
        after == w,
        event matches WsConnectEvent::NotOpened(e) ==> then == h && step
            == WsConnectStepView::Failed(WsErrorView::InitError(conn_error_text(e@))),
        event is Opened && w.endpoint.host is None ==> then is NotStarted && step
            == WsConnectStepView::Failed(
            WsErrorView::InitError(
                "invalid host: "@ + error_text(HttpErrorView::InvalidURI("missing host"@)),
            ),
        ),
        event is Opened && w.endpoint.host is Some && !connect_fits(
            path_of(w.endpoint),
            w.endpoint.host->0,
            w.endpoint.scheme + "://"@ + w.endpoint.host->0,
        ) ==> then is NotStarted && step == WsConnectStepView::Failed(
            WsErrorView::InitError("Handshake connect error: "@ + "Unknown"@),
        ),
{
}

/// The text of an error of a connection, or of a handshake, is its name, with what it tells in
/// brackets.
pub proof fn law_connection_errors_are_named(e: HttpConnErrorView, f: WsHandshakeError)
    ensures
        conn_error_text(e) == match e {
            HttpConnErrorView::EOF => "EOF"@,
            HttpConnErrorView::WouldBlock => "WouldBlock"@,
            HttpConnErrorView::Timeout => "Timeout"@,
            HttpConnErrorView::IoError(text) => "IoError"@ + "("@ + text + ")"@,
            HttpConnErrorView::Error(inner) => "Error"@ + "("@ + error_text(inner) + ")"@,
        },
        handshake_error_text(f) == match f {
            WsHandshakeError::HttpResponseCodeInvalid(Some(code)) => {
                "HttpResponseCodeInvalid(Some("@ + decimal(code as nat) + "))"@
            },
            WsHandshakeError::HttpResponseCodeInvalid(None) => "HttpResponseCodeInvalid(None)"@,
            WsHandshakeError::AcceptStringInvalid => "AcceptStringInvalid"@,
            WsHandshakeError::Utf8Error => "Utf8Error"@,
        },
{
}

/// Where the request was sent, its response is waited for, with the same key; where the stream
/// takes no more, the client would have to wait; and else it starts over.
pub proof fn law_handshake_request_is_sent<S>(
    w: WsView<S>,
    h: ClientHandshake<S>,
    alive: bool,
    outcome: Result<(), IOError>,
    step: WsConnectStepView,
    after: WsView<S>,
    then: ClientHandshake<S>,
)
    requires
        h is WaitSend,
        connects(w, h, alive, WsConnectEvent::Sent(outcome), step, after, then),
    ensures
        after == w,
        outcome is Ok ==> step is Flush && (then matches ClientHandshake::Send {
            key,
            parser,
            conn,
        } && {
            &&& key == h->WaitSend_key
            &&& parser == h->WaitSend_parser
            &&& conn.inflight == h->WaitSend_conn.inflight.push(0)
            &&& conn == (ConnView { inflight: conn.inflight, ..h->WaitSend_conn })
        }),
        outcome matches Err(e) ==> match e {
            IOError::WouldBlock => then == h && step == WsConnectStepView::Failed(
                WsErrorView::WouldBlock,
            ),
            IOError::EOF { .. } => then is NotStarted && step == WsConnectStepView::Failed(
                WsErrorView::InitError("write error: "@ + "EOF"@),
            ),
            IOError::Other(text) => then is NotStarted && step == WsConnectStepView::Failed(
                WsErrorView::InitError("write error: "@ + ("IoError"@ + "("@ + text@ + ")"@)),
            ),
        },
{
}

/// A response lets a client in exactly where its status is the one that switches protocols and the
/// answer to the key, if there is one, is the right one: the SHA-1 digest of the key and of a text
/// that all servers know, in Base64.
pub proof fn law_right_answer_lets_in(response: ResponseView, key: Seq<char>)
    ensures
        ({
            let name = "Sec-WebSocket-Accept"@;
            let answer = response.headers[lower(name)];
            let right = base64_text(
                sha1_of(encode_utf8(key + "258EAFA5-E914-47DA-95CA-C5AB0DC85B11"@)),
            );
            let wrong = response.headers.contains_key(lower(name)) && answer.name == name
                && answer.value != right;
            match handshake_outcome(response, key) {
                None => response.status == 101 && !wrong,
                Some(WsHandshakeError::HttpResponseCodeInvalid(code)) => response.status != 101
                    && code == Some(response.status),
                Some(WsHandshakeError::AcceptStringInvalid) => response.status == 101 && wrong,
                _ => false,
            }
        }),
{
}

/// A client that was let in has a connection over the stream of the handshake, and what came behind
/// the response is the first that is read; one that was not has none and starts over.
pub proof fn law_response_ends_handshake<S>(
    w: WsView<S>,
    h: ClientHandshake<S>,
    alive: bool,
    event: ConnReadEvent,
    step: WsConnectStepView,
    after: WsView<S>,
    then: ClientHandshake<S>,
)
    requires
        h is Send,
        connects(w, h, alive, WsConnectEvent::Conn(event), step, after, then),
    ensures
        ({
            let (done, read) = client_read_turn(h->Send_conn, event);
            &&& match done {
                ClientStepView::Done(_, response) => {
                    &&& then is NotStarted
                    &&& handshake_outcome(response, h->Send_key) is None ==> {
                        &&& step is Connected
                        &&& after.connected == Some(
                            (
                                h->Send_conn.stream,
                                WsParserState { phase: WsPhase::Open, ..h->Send_parser },
                            ),
                        )
                        &&& after.input == read.header
                        &&& after.epoch == if w.epoch == usize::MAX {
                            0
                        } else {
                            w.epoch + 1
                        }
                        &&& after == (WsView {
                            connected: after.connected,
                            input: after.input,
                            epoch: after.epoch,
                            ..w
                        })
                    }
                    &&& handshake_outcome(response, h->Send_key) matches Some(e) ==> {
                        &&& step == WsConnectStepView::Failed(
                            WsErrorView::InitError(
                                "Handshake accept error: "@ + handshake_error_text(e),
                            ),
                        )
                        &&& after == w
                    }
                },
                ClientStepView::Flush => step is Flush && after == w,
                ClientStepView::NeedRead(n) => {
                    step == WsConnectStepView::NeedRead(n) && after == w
                },
                ClientStepView::Failed(e) => {
                    &&& after == w
                    &&& e is WouldBlock ==> step == WsConnectStepView::Failed(
                        WsErrorView::WouldBlock,
                    )
                    &&& !(e is WouldBlock) ==> then is NotStarted && step
                        == WsConnectStepView::Failed(
                        WsErrorView::InitError("Handshake read error: "@ + conn_error_text(e)),
                    )
                },
                _ => step is Fault && after == w,
            }
            &&& !(then is NotStarted) ==> (then matches ClientHandshake::Send {
                key,
                parser,
                conn,
            } && key == h->Send_key && parser == h->Send_parser && conn == read)
        }),
{
}

/// What a server answers to the key of a client lets the client in: once it has come, the client
/// has a connection, over which messages can be read and written.
pub proof fn law_answer_lets_client_in<S>(
    w: WsView<S>,
    h: ClientHandshake<S>,
    alive: bool,
    data: Vec<u8>,
    step: WsConnectStepView,
    after: WsView<S>,
    then: ClientHandshake<S>,
)
    requires
        h is Send,
        h->Send_conn.header.data.len() == 0,
        h->Send_conn.response is Empty,
        h->Send_conn.inflight.len() > 0,
        h->Send_conn.inflight[0] == 0,
        data@ == encode_utf8(accept_text(accept_string(h->Send_key))),
        connects(
            w,
            h,
            alive,
            WsConnectEvent::Conn(ConnReadEvent::Read(StreamRead::Data(data))),
            step,
            after,
            then,
        ),
    ensures
        step is Connected,
        then is NotStarted,
        after.connected == Some(
            (h->Send_conn.stream, WsParserState { phase: WsPhase::Open, ..h->Send_parser }),
        ),
        after.input.data.len() == 0,
{
    let conn = h->Send_conn;
    law_answer_is_accepted(h->Send_key, conn.header.cap);
    assert(conn.header == (BufferView { data: Seq::<u8>::empty(), cap: conn.header.cap })) by {
        assert(conn.header.data =~= Seq::<u8>::empty());
    }
    law_response_ends_handshake(
        w,
        h,
        alive,
        ConnReadEvent::Read(StreamRead::Data(data)),
        step,
        after,
        then,
    );
}

/// What a client asks with is answered by the server: once the request has come, the answer to its
/// key, and nothing else, is to be sent over the same connection.
pub proof fn law_request_is_answered<S>(
    w: WsView<S>,
    h: ServerHandshake<S>,
    timeout: Option<u64>,
    now: u64,
    data: Vec<u8>,
    path: Seq<char>,
    host: Seq<char>,
    origin: Seq<char>,
    key: Seq<char>,
    peer_ip: Option<Seq<char>>,
)
    requires
        h is WaitRequest,
        timeout matches Some(time) ==> now - h->WaitRequest_start <= time,
        h->WaitRequest_conn.header.data.len() == 0,
        h->WaitRequest_conn.request is None,
        h->WaitRequest_conn.max_body == Some(2048usize),
        is_connect_request(path, host, origin, key, data@),
        is_target(path),
        is_field(host),
        is_field(origin),
        data@.len() <= 2048,
        uri_parts("ws://localhost"@ + path) is Some,
    ensures
        ({
            let turn = accept_turn(
                w,
                h,
                true,
                timeout,
                now,
                WsAcceptEvent::Conn(ConnReadEvent::Read(StreamRead::Data(data))),
                peer_ip,
            );
            let c = h->WaitRequest_conn;
            &&& turn.step is Send
            &&& turn.stream == w
            &&& turn.handshake matches ServerHandshake::WaitSent { parser, conn, endpoint }
            &&& conn.output == c.output + encode_utf8(accept_text(accept_string(key)))
            &&& conn.stream == c.stream
            &&& conn.header.data.len() == 0
            &&& conn.inflight.len() == c.inflight.len() + 1
            &&& endpoint == uri_parts("ws://localhost"@ + path)->0
            &&& parser.phase is Open
            &&& !parser.is_client
            &&& parser.message is None
            &&& parser.part is None
        }),
{
    let c = h->WaitRequest_conn;
    law_handshake_is_understood(
        path,
        host,
        origin,
        key,
        data@,
        c.header.cap,
        c.max_body,
        peer_ip,
    );
    assert(c.header == (BufferView { data: Seq::<u8>::empty(), cap: c.header.cap })) by {
        assert(c.header.data =~= Seq::<u8>::empty());
    }
}

/// What is read off the connection decides how the handshake of a server goes on: a request that
/// does not ask for a WebSocket, or asks badly, or for something that has no address, is refused;
/// any other is answered. What is to be done on the connection is done, and a server that is not
/// late waits where nothing has come.
pub proof fn law_only_asking_requests_are_answered<S>(
    w: WsView<S>,
    h: ServerHandshake<S>,
    timeout: Option<u64>,
    now: u64,
    event: ConnReadEvent,
    peer_ip: Option<Seq<char>>,
)
    requires
        h is WaitRequest,
    ensures
        ({
            let turn = accept_turn(
                w,
                h,
                true,
                timeout,
                now,
                WsAcceptEvent::Conn(event),
                peer_ip,
            );
            let (done, read) = server_read_turn(h->WaitRequest_conn, event, peer_ip);
            let stays = turn.handshake == (ServerHandshake::WaitRequest {
                start: h->WaitRequest_start,
                conn: read,
            });
            &&& turn.stream == w
            &&& match done {
                ServerStepView::Flush => turn.step is Flush && stays,
                ServerStepView::NeedRead(n) => turn.step == WsAcceptStepView::NeedRead(n) && stays,
                ServerStepView::NotReady => {
                    turn.step == WsAcceptStepView::Failed(WsErrorView::WouldBlock) && stays
                },
                ServerStepView::Failed(e) => {
                    &&& turn.step == WsAcceptStepView::Failed(
                        WsErrorView::InitError("err: "@ + conn_error_text(e)),
                    )
                    &&& stays
                },
                ServerStepView::Fault(fault) => {
                    turn.step == WsAcceptStepView::BadRequest(fault) && stays
                },
                ServerStepView::Done(req) => if ctx_end(req.headers) is TooLong {
                    turn.step is KeyTooLong && stays
                } else {
                    match offered(ctx_end(req.headers)) {
                        Ok(Some(offer)) => if timeout matches Some(time) && now
                            - h->WaitRequest_start > time {
                            turn.step == WsAcceptStepView::Failed(
                                WsErrorView::InitError("timeout"@),
                            )
                        } else {
                            let path = match req.path {
                                Some(path) => path,
                                None => "/"@,
                            };
                            match uri_parts("ws://localhost"@ + path) {
                                Some(address) => {
                                    &&& turn.step is Send
                                    &&& turn.handshake matches ServerHandshake::WaitSent {
                                        parser,
                                        conn,
                                        endpoint,
                                    }
                                    &&& conn.stream == read.stream
                                    &&& conn.header == read.header
                                    &&& conn.output == read.output + encode_utf8(
                                        accept_text(accept_string(offer.key)),
                                    )
                                    &&& endpoint == address
                                    &&& parser.phase is Open
                                    &&& !parser.is_client
                                },
                                None => {
                                    &&& turn.step == WsAcceptStepView::Failed(
                                        WsErrorView::InitError(
                                            "WebSocket Protocol Error: invalid path="@ + (quoted(
                                                path,
                                            ) + ": Parse(UriErr)"@),
                                        ),
                                    )
                                    &&& turn.handshake == (ServerHandshake::SendResponse {
                                        start: h->WaitRequest_start,
                                        key: offer.key,
                                        conn: read,
                                        path,
                                    })
                                },
                            }
                        },
                        Ok(None) => {
                            &&& turn.step == WsAcceptStepView::Failed(
                                WsErrorView::InitError(
                                    "WebSocket Protocol Error: expect a websocket context"@,
                                ),
                            )
                            &&& stays
                        },
                        Err(e) => {
                            &&& turn.step == WsAcceptStepView::Failed(
                                WsErrorView::InitError(
                                    "receive handshake header fail: "@ + handshake_error_text(e),
                                ),
                            )
                            &&& stays
                        },
                    }
                },
            }
        }),
{
}

/// Once the answer is written out, the server has a connection over the stream of the handshake,
/// and what came behind the request is the first that is read.
pub proof fn law_answer_opens_stream<S>(
    w: WsView<S>,
    h: ServerHandshake<S>,
    timeout: Option<u64>,
    now: u64,
    outcome: Result<(), IOError>,
    peer_ip: Option<Seq<char>>,
)
    requires
        h is WaitSent,
        h->WaitSent_conn.inflight.len() > 0,
    ensures
        ({
            let turn = accept_turn(
                w,
                h,
                true,
                timeout,
                now,
                WsAcceptEvent::Sent(outcome),
                peer_ip,
            );
            &&& turn.handshake is NotStarted
            &&& outcome is Ok ==> turn.step is Connected && turn.stream == (WsView {
                connected: Some((h->WaitSent_conn.stream, h->WaitSent_parser)),
                input: h->WaitSent_conn.header,
                endpoint: h->WaitSent_endpoint,
                ..w
            })
            &&& outcome is Err ==> turn.step is NoAnswer && turn.stream == w
        }),
{
}

/// A handshake that has taken longer than it may fails, and one that was shut down does not go on.
pub proof fn law_late_handshake_fails<S>(
    w: WsView<S>,
    h: ServerHandshake<S>,
    timeout: Option<u64>,
    now: u64,
    peer_ip: Option<Seq<char>>,
    event: WsAcceptEvent<S>,
)
    requires
        w.connected is None,
    ensures
        h matches ServerHandshake::WaitRequest { start, conn } ==> {
            let turn = accept_turn(
                w,
                h,
                true,
                timeout,
                now,
                WsAcceptEvent::Start(None),
                peer_ip,
            );
            let late = timeout matches Some(time) && now - start > time;
            &&& late ==> turn.step == WsAcceptStepView::Failed(
                WsErrorView::InitError("timeout"@),
            )
            &&& !late ==> turn.step is Flush
            &&& turn.stream == w
            &&& turn.handshake == h
        },
        ({
            let turn = accept_turn(w, h, false, timeout, now, event, peer_ip);
            &&& turn.step == WsAcceptStepView::Failed(
                WsErrorView::ServerDisconnected { temporary: false },
            )
            &&& turn.stream == w
            &&& turn.handshake == h
        }),
{
}

/// A server that wants a connection has it already, or goes on with the handshake: it reads the
/// request off the stream that it is given, or writes the answer out. Without a stream, it gets no
/// connection.
pub proof fn law_accepting_goes_on<S>(
    w: WsView<S>,
    h: ServerHandshake<S>,
    timeout: Option<u64>,
    now: u64,
    conn: Option<HttpConnServer<S>>,
    peer_ip: Option<Seq<char>>,
)
    ensures
        ({
            let turn = accept_turn(
                w,
                h,
                true,
                timeout,
                now,
                WsAcceptEvent::Start(conn),
                peer_ip,
            );
            &&& turn.stream == w
            &&& w.connected is Some ==> turn.step is Connected && turn.handshake == h
            &&& w.connected is None && h is NotStarted ==> match conn {
                Some(conn) => turn.step is Flush && turn.handshake == (
                ServerHandshake::WaitRequest { start: now, conn: conn@ }),
                None => turn.step == WsAcceptStepView::Failed(
                    WsErrorView::ServerDisconnected { temporary: false },
                ) && turn.handshake == h,
            }
            &&& w.connected is None && h is WaitSent ==> turn.step is Send && turn.handshake == h
            &&& w.connected is None && h is SendResponse && (timeout matches Some(time) && now
                - h->SendResponse_start > time) ==> turn.step == WsAcceptStepView::Failed(
                WsErrorView::InitError("timeout"@),
            ) && turn.handshake == h
        }),
{
}

/// Looking at some headers and then at one more.
proof fn lemma_one_more(headers: Seq<HeaderView>, header: HeaderView, found: CtxScan)
    ensures
        ctx_scan(headers.push(header), found) == match ctx_scan(headers, found) {
            CtxEnd::Done(sum) => ctx_scan(seq![header], sum),
            end => end,
        },
    decreases headers.len(),
{
    let all = headers.push(header);
    if headers.len() == 0 {
        assert(all =~= seq![header]);
    } else {
        assert(all.skip(1) =~= headers.skip(1).push(header));
        assert(all[0] == headers[0]);
        let text = decode_utf8(headers[0].value);
        lemma_one_more(headers.skip(1), header, found);
        lemma_one_more(
            headers.skip(1),
            header,
            CtxScan { is_websocket: text == "websocket"@, ..found },
        );
        lemma_one_more(headers.skip(1), header, CtxScan { key: text, ..found });
        if let Some(protocols) = kept_protocols(found.protocols, list_items(text)) {
            lemma_one_more(headers.skip(1), header, CtxScan { protocols, ..found });
        }
    }
}

/// What the headers of a request say of a WebSocket, header by header: nothing, where there are
/// none. One more named `Upgrade` decides whether a WebSocket is asked for, one named
/// `Sec-WebSocket-Key` gives the key, if it is not longer than 24 bytes, one named
/// `Sec-WebSocket-Protocol` adds protocols, and any other says nothing. The names are told apart by
/// the case of their letters.
pub proof fn law_headers_ask_for_websocket(
    headers: Seq<HeaderView>,
    header: HeaderView,
    found: CtxScan,
)
    requires
        ctx_end(headers) == CtxEnd::Done(found),
        valid_utf8(header.value),
    ensures
        headers.len() == 0 ==> !found.is_websocket && found.key.len() == 0
            && found.protocols.len() == 0,
        ({
            let text = decode_utf8(header.value);
            let end = ctx_end(headers.push(header));
            &&& header.name == "Upgrade"@ ==> (end matches CtxEnd::Done(all) && {
                &&& all.is_websocket == (text == "websocket"@)
                &&& all.key == found.key
                &&& all.protocols == found.protocols
            })
            &&& header.name == "Sec-WebSocket-Key"@ ==> if encode_utf8(text).len() <= 24 {
                end matches CtxEnd::Done(all) && {
                    &&& all.is_websocket == found.is_websocket
                    &&& all.key == text
                    &&& all.protocols == found.protocols
                }
            } else {
                end is TooLong
            }
            &&& header.name == "Sec-WebSocket-Protocol"@ ==> match end {
                CtxEnd::Done(all) => all.is_websocket == found.is_websocket && all.key == found.key,
                _ => end is TooLong,
            }
            &&& header.name != "Upgrade"@ && header.name != "Sec-WebSocket-Key"@ && header.name
                != "Sec-WebSocket-Protocol"@ ==> end == CtxEnd::Done(found)
        }),
{
    lemma_one_more(headers, header, crate::ws_handshake::nothing_found());
    reveal_with_fuel(ctx_scan, 2);
    reveal_strlit("Upgrade");
    reveal_strlit("Sec-WebSocket-Key");
    reveal_strlit("Sec-WebSocket-Protocol");
    assert("Upgrade"@.len() == 7);
    assert("Sec-WebSocket-Key"@.len() == 17);
    assert("Sec-WebSocket-Protocol"@.len() == 22);
    let text = decode_utf8(header.value);
    assert(seq![header].skip(1) =~= Seq::<HeaderView>::empty());
    assert(ctx_end(headers.push(header)) == ctx_scan(seq![header], found));
    assert(seq![header][0] == header);
    if header.name == "Upgrade"@ {
        let all = CtxScan { is_websocket: text == "websocket"@, ..found };
        assert(ctx_scan(seq![header], found) == CtxEnd::Done(all));
    } else if header.name == "Sec-WebSocket-Key"@ {
        let all = CtxScan { key: text, ..found };
        if encode_utf8(text).len() <= 24 {
            assert(ctx_scan(seq![header], found) == CtxEnd::Done(all));
        } else {
            assert(ctx_scan(seq![header], found) is TooLong);
        }
    } else if header.name == "Sec-WebSocket-Protocol"@ {
        if let Some(protocols) = kept_protocols(found.protocols, list_items(text)) {
            assert(ctx_scan(seq![header], found) == CtxEnd::Done(CtxScan { protocols, ..found }));
        }
    } else {
        assert(ctx_scan(seq![header], found) == CtxEnd::Done(found));
    }
}

/// A request asks for a WebSocket, with a key, exactly where its headers say so; one with headers
/// that cannot be read asks badly.
pub proof fn law_offer_is_what_headers_say(end: CtxEnd)
    ensures
        match end {
            CtxEnd::Done(found) => if found.is_websocket {
                offered(end) matches Ok(Some(offer)) && offer.key == found.key && offer.protocols
                    == found.protocols
            } else {
                offered(end) == Ok::<Option<WsContextView>, WsHandshakeError>(None)
            },
            _ => offered(end) is Err,
        },
{
}

/// A stream of a server that was just made has no connection, and nothing to read or to send; it
/// does not probe, and does not get another connection by itself.
pub proof fn law_new_server_stream<S>(frame_size: usize, buffer: Seq<u8>, now: u64)
    ensures
        ({
            let w = unnamed::<S>(frame_size, buffer, now);
            &&& w.connected is None
            &&& frame_size > 0 ==> w.frame_size == frame_size
            &&& frame_size == 0 ==> w.frame_size == 4096
            &&& w.keep_alive is None
            &&& !w.auto_reconnect
            &&& w.pieces.len() == 0
            &&& w.output.len() == 0
            &&& w.loop_cnt == 0
            &&& w.last_msg_time == now
            &&& w.buffer == buffer
        }),
{
}

/// A stream that opens over one that a client opened waits for a request of at most 2048 bytes: it
/// has read and written nothing yet, and its time begins now.
pub proof fn law_request_is_waited_for<S>(stream: S, now: u64)
    ensures
        ({
            let h = awaiting_request(stream, now);
            &&& h matches ServerHandshake::WaitRequest { start, conn }
            &&& start == now
            &&& conn.stream == stream
            &&& conn.max_body == Some(2048usize)
            &&& conn.header.data.len() == 0
            &&& conn.output.len() == 0
            &&& conn.request is None
            &&& conn.inflight.len() == 0
            &&& !conn.closed
        }),
{
}

} // verus!
