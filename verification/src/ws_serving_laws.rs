//! What a server for HTTP and WebSockets does for its clients and its handler, one event after the
//! other.
use crate::conn::ConnView;
use crate::http_server::{server_ticks, ServerTickEvent, ServerTickStepView, ServerView};
use crate::server_laws::law_upgraded_conn_is_answered;
use crate::stream::{IOError, StreamRead};
use crate::tick::TickResult;
use crate::uri::{path_of, uri_parts};
use crate::ws_accept::{server_reads, ServerHandshake};
use crate::ws_handshake::{accept_string, ctx_end, offered};
use crate::ws_laws::{at_rest, longest_piece, sent_as};
use crate::ws_parser::accept_text;
use crate::ws_server::{
    at_stream, goes_on, http_ws_ticks, look, looks_on, moved_over, next_pending, opens,
    opens_over, ws_ticks, HttpWsTickEvent, HttpWsTickStepView,
    HttpWsView, OpeningView, PendingView, WsHandlerView, WsTickEvent, WsTickStepView,
};
use crate::ws_stream::{
    message_frames, message_sent, ping_message, turned, WsReadEvent, WsReadStepView, WsView,
    WsWriteStepView,
};
use crate::ws_streaming_laws::law_sent_message_arrives;
use crate::ws_types::{WsDataType, WsErrorView, WsSendType};
use vstd::prelude::*;
use vstd::std_specs::convert::FromSpec;
use vstd::utf8::encode_utf8;

verus! {

/// Whether only the stream that is looked at has changed, and is now `stream`.
pub open spec fn only_stream_changed<S>(
    s: WsHandlerView<S>,
    stream: WsView<S>,
    after: WsHandlerView<S>,
) -> bool {
    &&& after.conns.contains_key(s.ids[s.at])
    &&& after.conns[s.ids[s.at]] == stream
    &&& forall|id: usize|
        id != s.ids[s.at] ==> (#[trigger] after.conns.contains_key(id) <==> s.conns.contains_key(
            id,
        )) && after.conns[id] == s.conns[id]
    &&& after.pending == s.pending
    &&& after.frame_size == s.frame_size
    &&& after.opening == s.opening
    &&& after.tick == s.tick
    &&& after.read == s.read
    &&& after.ids == s.ids
    &&& after.at == s.at
    &&& after.remove == s.remove
    &&& after.gone == s.gone
}

/// What the stream that is looked at wants is what is done next, on that stream: it is read off,
/// something is written out, or the handler is told of a message, with its kind, its bytes and the
/// path of the stream. The other streams, and the connections, are left alone.
pub proof fn law_stream_gets_what_it_wants<S>(
    s: HttpWsView<S>,
    now: u64,
    event: WsReadEvent,
    step: HttpWsTickStepView,
    after: HttpWsView<S>,
)
    requires
        at_stream(s.ws),
        http_ws_ticks(
            s,
            now,
            HttpWsTickEvent::Ws(WsTickEvent::Stream(event)),
            step,
            after,
        ),
    ensures
        ({
            let id = s.ws.ids[s.ws.at];
            let w = s.ws.conns[id];
            let turn = server_reads(w, true, now, event);
            let stream = after.ws.conns[id];
            let next = match turn.step {
                WsReadStepView::NeedRead(n) => Some(WsTickStepView::NeedRead(id, n)),
                WsReadStepView::Send => Some(WsTickStepView::Send(id)),
                WsReadStepView::SendPing => Some(WsTickStepView::SendPing(id)),
                WsReadStepView::Flush => Some(WsTickStepView::Flush(id)),
                WsReadStepView::NoRoom => Some(WsTickStepView::NoRoom(id)),
                WsReadStepView::Done(ty) => Some(
                    WsTickStepView::Message {
                        conn_id: id,
                        path: path_of(stream.endpoint),
                        is_close: false,
                        ty,
                        data: turn.data,
                    },
                ),
                _ => None,
            };
            &&& next matches Some(wanted) ==> {
                &&& step == HttpWsTickStepView::Ws(wanted)
                &&& turned(w, stream, turn)
                &&& only_stream_changed(s.ws, stream, after.ws)
            }
            &&& after.http == s.http
        }),
{
    reveal_with_fuel(look, 1);
    assert(after.http.conns.conns == s.http.conns.conns);
}

/// A message that a client sends is handed to the handler of the server: when the bytes that the
/// client has written arrive on a stream that is looked at, the handler is told of a message of
/// that connection, of the same kind and with the same bytes.
pub proof fn law_message_reaches_handler<S, T>(
    s: HttpWsView<S>,
    from: WsView<T>,
    sent_at: u64,
    ty: WsDataType,
    message: Seq<u8>,
    sent: WsWriteStepView,
    then: WsView<T>,
    data: Vec<u8>,
    rest: Seq<u8>,
    now: u64,
    step: HttpWsTickStepView,
    after: HttpWsView<S>,
)
    requires
        at_stream(s.ws),
        0 < message.len() <= usize::MAX,
        from.connected is Some,
        from.frame_size > 0,
        message_sent(from, true, sent_at, WsSendType::from_spec(ty), message, sent, then),
        sent is Send,
        message_frames(message, sent_as(ty), from.frame_size).last().payload != ping_message(),
        data@ == then.output.skip(from.output.len() as int) + rest,
        data@.len() <= usize::MAX,
        ({
            let w = s.ws.conns[s.ws.ids[s.ws.at]];
            &&& w.connected is Some
            &&& at_rest(w.parser())
            &&& w.pieces.len() == 0
            &&& w.input.data.len() == 0
            &&& w.buffer.len() >= longest_piece(message.len(), from.frame_size)
            &&& w.loop_cnt + message_frames(message, sent_as(ty), from.frame_size).len() <= 11000
        }),
        http_ws_ticks(
            s,
            now,
            HttpWsTickEvent::Ws(
                WsTickEvent::Stream(WsReadEvent::Read(StreamRead::Data(data))),
            ),
            step,
            after,
        ),
    ensures
        step matches HttpWsTickStepView::Ws(
            WsTickStepView::Message { conn_id, path, is_close, ty: kind, data: bytes },
        ) && {
            &&& conn_id == s.ws.ids[s.ws.at]
            &&& path == path_of(after.ws.conns[s.ws.ids[s.ws.at]].endpoint)
            &&& !is_close
            &&& kind == ty
            &&& bytes == message
        },
        after.ws.conns[s.ws.ids[s.ws.at]].input.data == rest,
        after.ws.conns[s.ws.ids[s.ws.at]].connected == s.ws.conns[s.ws.ids[s.ws.at]].connected,
        after.http == s.http,
{
    let w = s.ws.conns[s.ws.ids[s.ws.at]];
    let event = WsReadEvent::Read(StreamRead::Data(data));
    law_sent_message_arrives(from, sent_at, ty, message, sent, then, w, data, rest, now);
    law_stream_gets_what_it_wants(s, now, event, step, after);
}

/// A stream on which nothing has come is kept, and one that has failed is to be dropped; either way
/// the next is looked at.
pub proof fn law_failed_stream_is_dropped<S>(s: WsHandlerView<S>, now: u64, event: WsReadEvent)
    requires
        at_stream(s),
    ensures
        ({
            let id = s.ids[s.at];
            let turn = server_reads(s.conns[id], true, now, event);
            let next = WsHandlerView {
                conns: s.conns.insert(id, turn.stream),
                at: s.at + 1,
                ..s
            };
            &&& turn.step == WsReadStepView::Failed(WsErrorView::WouldBlock) ==> look(s, now, event)
                == look(next, now, WsReadEvent::Start)
            &&& (turn.step is Connect || (turn.step matches WsReadStepView::Failed(e) && !(e
                is WouldBlock))) ==> look(s, now, event) == look(
                WsHandlerView {
                    read: if s.read is Error {
                        TickResult::Error
                    } else {
                        TickResult::Busy
                    },
                    remove: s.remove.push(id),
                    ..next
                },
                now,
                WsReadEvent::Start,
            )
        }),
{
    reveal_with_fuel(look, 1);
}

/// A request that does not ask for a WebSocket is passed on to the handler as it is. One that asks
/// for it is not: its connection is kept, under its number, with the path and the key, to be opened
/// when the connections are done with. One that asks badly closes its connection.
pub proof fn law_request_is_passed_on_or_kept<S>(
    s: HttpWsView<S>,
    now: u64,
    event: ServerTickEvent<S>,
    http: ServerTickStepView,
    then: ServerView<S>,
    step: HttpWsTickStepView,
    after: HttpWsView<S>,
)
    requires
        event is Conn,
        server_ticks(s.http, event, http, then),
        http is Request,
        http_ws_ticks(s, now, HttpWsTickEvent::Http(event), step, after),
    ensures
        ({
            let end = ctx_end(http->req.headers);
            let told = HttpWsView { http: then, ws: s.ws };
            if end is TooLong {
                step is KeyTooLong && after == told
            } else {
                match offered(end) {
                    Ok(None) => step == HttpWsTickStepView::Http(http) && after == told,
                    Ok(Some(offer)) => exists|next: ServerTickStepView, left: ServerView<S>|
                        {
                            &&& #[trigger] server_ticks(
                                then,
                                ServerTickEvent::Handled(http->is_close),
                                next,
                                left,
                            )
                            &&& goes_on(
                                HttpWsView {
                                    http: left,
                                    ws: WsHandlerView {
                                        pending: s.ws.pending.push(
                                            PendingView {
                                                conn_id: http->conn_id,
                                                path: match http->req.path {
                                                    Some(path) => path,
                                                    None => "/"@,
                                                },
                                                key: offer.key,
                                            },
                                        ),
                                        ..s.ws
                                    },
                                },
                                next,
                                now,
                                step,
                                after,
                            )
                        },
                    Err(_) => exists|next: ServerTickStepView, left: ServerView<S>|
                        {
                            &&& #[trigger] server_ticks(
                                then,
                                ServerTickEvent::Handled(true),
                                next,
                                left,
                            )
                            &&& goes_on(HttpWsView { http: left, ws: s.ws }, next, now, step, after)
                        },
                }
            }
        }),
{
    let end = ctx_end(http->req.headers);
    let closes = if offered(end) is Err {
        true
    } else {
        http->is_close
    };
    let (next, left) = crate::http_server::handled_turn(then, closes);
    assert(server_ticks(then, ServerTickEvent::Handled(closes), next, left));
}

/// What is to be done for the connections is done as a server for HTTP does it; only when it would
/// tell the handler that the round is over are the WebSockets looked after.
pub proof fn law_websockets_come_last<S>(
    s: HttpWsView<S>,
    http: ServerTickStepView,
    now: u64,
    step: HttpWsTickStepView,
    after: HttpWsView<S>,
)
    requires
        goes_on(s, http, now, step, after),
    ensures
        !(http is OnTick) ==> step == HttpWsTickStepView::Http(http) && after == s,
        http is OnTick ==> (step matches HttpWsTickStepView::Ws(ws) && ws_ticks(
            s.ws,
            s.http.conns.conns,
            now,
            WsTickEvent::Start,
            ws,
            after.ws,
            after.http.conns.conns,
        )),
        http is OnTick ==> after.http == (ServerView { conns: after.http.conns, ..s.http })
            && after.http.conns.seq == s.http.conns.seq,
{
}

/// Once the answer to a handshake is written out, the handler is told of a new stream, with its
/// number and its path, and the stream is among the others, with a connection over the stream of
/// the handshake. Where the answer could not be written, there is no new stream.
pub proof fn law_new_stream_is_told<S>(
    s: WsHandlerView<S>,
    conns: Map<usize, ConnView<S>>,
    now: u64,
    outcome: Result<(), IOError>,
    step: WsTickStepView,
    after: WsHandlerView<S>,
    left: Map<usize, ConnView<S>>,
)
    requires
        s.opening is Some,
        s.opening->0.handshake is WaitSent,
        s.opening->0.handshake->WaitSent_conn.inflight.len() > 0,
        ws_ticks(s, conns, now, WsTickEvent::Answered(outcome), step, after, left),
    ensures
        left == conns,
        after.opening is None,
        outcome is Ok ==> {
            let o = s.opening->0;
            &&& step == (WsTickStepView::NewConn {
                conn_id: o.conn_id,
                path: o.path,
                is_close: false,
            })
            &&& after.opened == o.conn_id
            &&& after.conns == s.conns.insert(
                o.conn_id,
                WsView {
                    connected: Some(
                        (o.handshake->WaitSent_conn.stream, o.handshake->WaitSent_parser),
                    ),
                    input: o.handshake->WaitSent_conn.header,
                    endpoint: o.handshake->WaitSent_endpoint,
                    ..o.stream
                },
            )
        },
        outcome is Err ==> step is Fault && after.conns == s.conns,
{
}

/// A round ends with what all of it amounts to, for the connections, for the WebSockets and for the
/// handler.
pub proof fn law_whole_round_ends<S>(
    s: HttpWsView<S>,
    now: u64,
    told: TickResult,
    step: HttpWsTickStepView,
    after: HttpWsView<S>,
)
    requires
        http_ws_ticks(s, now, HttpWsTickEvent::Ws(WsTickEvent::Ticked(told)), step, after),
    ensures
        step matches HttpWsTickStepView::Http(ServerTickStepView::Done(all)) && {
            &&& all is Error <==> s.http.tick is Error || s.ws.tick is Error || told is Error
            &&& all is Idle <==> s.http.tick is Idle && s.ws.tick is Idle && told is Idle
        },
        after.http.conns == s.http.conns,
        after.ws.conns == s.ws.conns,
        after.ws.pending == s.ws.pending,
{
}

/// What comes of the WebSockets is dealt with as such, and leaves the connections to the server for
/// HTTP alone, but for those that become streams.
pub proof fn law_websocket_events_stay_apart<S>(
    s: HttpWsView<S>,
    now: u64,
    event: WsTickEvent,
    step: HttpWsTickStepView,
    after: HttpWsView<S>,
)
    requires
        !(event is Ticked),
        http_ws_ticks(s, now, HttpWsTickEvent::Ws(event), step, after),
    ensures
        step matches HttpWsTickStepView::Ws(ws) && ws_ticks(
            s.ws,
            s.http.conns.conns,
            now,
            event,
            ws,
            after.ws,
            after.http.conns.conns,
        ),
        after.http == (ServerView { conns: after.http.conns, ..s.http }),
        after.http.conns.seq == s.http.conns.seq,
{
}

/// What comes of the connections is dealt with as a server for HTTP does it, unless a request has
/// come.
pub proof fn law_http_events_are_passed_on<S>(
    s: HttpWsView<S>,
    now: u64,
    event: ServerTickEvent<S>,
    step: HttpWsTickStepView,
    after: HttpWsView<S>,
)
    requires
        http_ws_ticks(s, now, HttpWsTickEvent::Http(event), step, after),
    ensures
        exists|http: ServerTickStepView, then: ServerView<S>|
            {
                &&& #[trigger] server_ticks(s.http, event, http, then)
                &&& !(http is Request) ==> goes_on(
                    HttpWsView { http: then, ws: s.ws },
                    http,
                    now,
                    step,
                    after,
                )
            },
{
}

/// A connection whose client has asked for a WebSocket becomes a new stream, with frames of the
/// size that the server is set to, and the answer to the key of that client is to be sent over it.
pub proof fn law_handshake_is_answered_with_key<S>(
    s: WsHandlerView<S>,
    conns: Map<usize, ConnView<S>>,
    now: u64,
    event: WsTickEvent,
    step: WsTickStepView,
    after: WsHandlerView<S>,
    left: Map<usize, ConnView<S>>,
)
    requires
        event is Start || event is Announced,
        ws_ticks(s, conns, now, event, step, after, left),
        step is Answer,
        s.pending.len() > 0,
    ensures
        after.opening matches Some(o) && {
            &&& exists|p: PendingView|
                {
                    &&& #[trigger] s.pending.contains(p)
                    &&& o.conn_id == p.conn_id
                    &&& o.path == p.path
                    &&& conns.contains_key(p.conn_id)
                    &&& !left.contains_key(p.conn_id)
                    &&& o.handshake matches ServerHandshake::WaitSent { parser, conn, endpoint }
                    &&& parser.phase is Open
                    &&& !parser.is_client
                    &&& conn.stream == conns[p.conn_id].stream
                    &&& conn.header == conns[p.conn_id].header
                    &&& conn.output == conns[p.conn_id].output + encode_utf8(
                        accept_text(accept_string(p.key)),
                    )
                    &&& endpoint == uri_parts("ws://localhost"@ + p.path)->0
                }
            &&& o.stream.connected is None
            &&& s.frame_size > 0 ==> o.stream.frame_size == s.frame_size
            &&& s.frame_size == 0 ==> o.stream.frame_size == 4096
            &&& o.stream.pieces.len() == 0
            &&& o.stream.output.len() == 0
            &&& o.stream.loop_cnt == 0
            &&& o.stream.keep_alive is None
            &&& !o.stream.auto_reconnect
        },
        after.frame_size == s.frame_size,
{
    let tick = if event is Start {
        TickResult::Idle
    } else {
        s.tick
    };
    law_upgraded_conn_is_answered(s.pending, conns, s.frame_size, now, tick);
    let next = next_pending(s.pending, conns, s.frame_size, now, tick);
    let from = match event {
        WsTickEvent::Announced(true) => WsHandlerView { conns: s.conns.remove(s.opened), ..s },
        WsTickEvent::Announced(false) => s,
        _ => WsHandlerView { tick: TickResult::Idle, ..s },
    };
    assert(opens(from, conns, now, step, after, left));
    if next.end is Empty {
        let seen = WsHandlerView {
            pending: next.pending,
            tick: next.tick,
            opening: None,
            read: TickResult::Idle,
            ids: after.ids,
            at: 0,
            remove: Seq::empty(),
            gone: 0,
            ..from
        };
        lemma_wanted(seen, now, WsReadEvent::Start);
        assert(looks_on(seen, now, WsReadEvent::Start, step, after));
        assert(!(step is Answer));
    }
    assert(s.pending.contains(next.end->pending));
}

/// A stream that is found to have something to do wants one of the things that can be done.
proof fn lemma_wanted<S>(s: WsHandlerView<S>, now: u64, event: WsReadEvent)
    ensures
        look(s, now, event).0 matches Some(turn) ==> !(turn.step is Failed) && !(turn.step
            is Connect),
    decreases s.ids.len() - s.at,
{
    reveal_with_fuel(look, 1);
    if s.at < s.ids.len() {
        let id = s.ids[s.at];
        let turn = server_reads(s.conns[id], true, now, event);
        let next = WsHandlerView { conns: s.conns.insert(id, turn.stream), at: s.at + 1, ..s };
        lemma_wanted(next, now, WsReadEvent::Start);
        lemma_wanted(
            WsHandlerView {
                read: s.read.merged(TickResult::Busy),
                remove: s.remove.push(id),
                ..next
            },
            now,
            WsReadEvent::Start,
        );
    }
}

/// What is written over the connection of a handshake goes over the connection of the stream that
/// is being opened, and changes nothing else of it.
pub proof fn law_answer_goes_over_its_conn<S>(
    opening: Option<OpeningView<S>>,
    conn: ConnView<S>,
    other: ConnView<S>,
)
    requires
        opening is Some,
        opening->0.handshake is WaitSent,
        opens_over(opening, conn),
    ensures
        opening->0.handshake->WaitSent_conn == conn,
        moved_over(opening, other) matches Some(o) && {
            &&& o.conn_id == opening->0.conn_id
            &&& o.path == opening->0.path
            &&& o.stream == opening->0.stream
            &&& o.handshake == (ServerHandshake::WaitSent {
                parser: opening->0.handshake->WaitSent_parser,
                conn: other,
                endpoint: opening->0.handshake->WaitSent_endpoint,
            })
        },
{
}

} // verus!
