//! A server for HTTP and for WebSockets: connections whose clients ask for a WebSocket become
//! WebSocket streams.
use crate::conn::{conn_ok, ConnView, HttpConnError, HttpConnErrorView, HttpConnServer};
use crate::http_server::{
    handled_turn, new_server, server_event_ok, server_ticks, ConnsView, HttpServer,
    HttpServerConfig, HttpServerConns, HttpServerContext, ServerTickEvent, ServerTickStep,
    ServerTickStepView, ServerView,
};
use crate::id_map::{ids_of, IdMap};
use crate::request::{HttpRequestReader, RequestView};
use crate::stream::{IOError, StreamRead};
use crate::tick::TickResult;
use crate::tls::TlsChoice;
use crate::uri::path_of;
use crate::ws_accept::{
    accept_turn, handshake_over, over, respond_turn, server_reads, unnamed, ServerHandshake,
    WsAcceptEvent, WsAcceptFault, WsAcceptStep, WsAcceptStepView, WsStreamServer,
};
use crate::ws_handshake::{ctx_end, offered, try_get_websocket_ctx, WsContext, KEY_LIMIT};
use crate::ws_stream::{turned, ReadTurn, WsReadEvent, WsReadStep, WsReadStepView, WsView};
use crate::ws_types::{WsDataType, WsError, WsErrorView};
use core::ops::BitOrAssign;
use vstd::prelude::*;
use vstd::utf8::encode_utf8;

verus! {

/// What a handler is told of a WebSocket stream, and tells of it.
pub struct HttpWsServerContext {
    pub conn_id: usize,
    pub path: String,
    /// The stream is to be dropped.
    pub is_close: bool,
}

/// What a server for HTTP and WebSockets is for.
pub trait HttpWsServerHandler<S> {
    /// A request has come that does not ask for a WebSocket.
    fn on_new_http_request(&mut self, ctx: &mut HttpServerContext, req: HttpRequestReader);

    /// A WebSocket stream is open.
    fn on_new_ws_conn(&mut self, ctx: &mut HttpWsServerContext);

    /// A message has come.
    fn on_new_ws_request(
        &mut self,
        ctx: &mut HttpWsServerContext,
        ty: WsDataType,
        data: Vec<u8>,
    );

    /// A WebSocket stream was dropped.
    fn on_close_ws_conn(&mut self, conn_id: usize);

    /// A round is over.
    fn on_tick(
        &mut self,
        http_conns: &mut HttpServerConns<S>,
        ws_conns: &mut WsServerConns<S>,
    ) -> TickResult;
}

pub struct HttpWsServerConfig {
    pub listen_addr: String,
    pub tls_cert: Vec<u8>,
    pub tls_key: Vec<u8>,
    /// The most bytes of a message that go into one frame; 0 stands for 4096.
    pub frame_size: usize,
    /// The size up to which a request is taken.
    pub http_max_body_length: Option<usize>,
}

/// What a configuration says of the connections.
pub open spec fn http_part(cfg: HttpWsServerConfig) -> HttpServerConfig {
    HttpServerConfig {
        listen_addr: cfg.listen_addr,
        tls_cert: cfg.tls_cert,
        tls_key: cfg.tls_key,
        max_body_length: cfg.http_max_body_length,
    }
}

/// The WebSocket streams of a server, each under the number of the connection that it was.
pub struct WsServerConns<S> {
    conns: IdMap<WsStreamServer<S>>,
}

/// What the streams of a table hold.
pub open spec fn stream_views<S>(conns: Map<usize, WsStreamServer<S>>) -> Map<usize, WsView<S>> {
    conns.map_values(|s: WsStreamServer<S>| s@)
}

impl<S> View for WsServerConns<S> {
    type V = Map<usize, WsView<S>>;

    closed spec fn view(&self) -> Map<usize, WsView<S>> {
        stream_views(self.conns@)
    }
}

/// Whether a stream is in order: its handshake is over.
pub open spec fn stream_ok<S>(stream: WsStreamServer<S>) -> bool {
    &&& stream.wf()
    &&& stream.handshake().wf()
    &&& stream.handshake()@ is NotStarted
}

impl<S> WsServerConns<S> {
    /// The streams are in order.
    pub closed spec fn wf(&self) -> bool {
        forall|id: usize| #[trigger]
            self.conns@.contains_key(id) ==> stream_ok(self.conns@[id])
    }

    pub fn new() -> (r: Self)
        ensures
            r.wf(),
            r@ == Map::<usize, WsView<S>>::empty(),
    {
        let r = WsServerConns { conns: IdMap::new() };
        assert(r@ =~= Map::empty());
        r
    }

    /// How many streams there are.
    pub fn len(&self) -> (r: usize)
        ensures
            r == self@.len(),
    {
        let r = self.conns.len();
        assert(self@.dom() =~= self.conns@.dom());
        r
    }

    fn insert(&mut self, id: usize, stream: WsStreamServer<S>)
        requires
            old(self).wf(),
            stream_ok(stream),
        ensures
            final(self).wf(),
            final(self)@ == old(self)@.insert(id, stream@),
    {
        self.conns.insert(id, stream);
        assert(self@ =~= old(self)@.insert(id, stream@));
    }

    /// Takes a stream out.
    pub fn remove(&mut self, id: usize) -> (r: Option<WsStreamServer<S>>)
        requires
            old(self).wf(),
        ensures
            final(self).wf(),
            final(self)@ == old(self)@.remove(id),
            match r {
                Some(stream) => stream_ok(stream) && old(self)@.contains_pair(id, stream@),
                None => !old(self)@.contains_key(id),
            },
    {
        let r = self.conns.remove(id);
        assert(self@ =~= old(self)@.remove(id));
        r
    }

    /// One of the streams.
    pub fn get_mut(&mut self, id: usize) -> (r: Option<&mut WsStreamServer<S>>)
        requires
            old(self).wf(),
        ensures
            match r {
                Some(stream) => {
                    &&& stream_ok(*stream)
                    &&& old(self)@.contains_pair(id, stream@)
                    &&& final(self)@ == old(self)@.insert(id, final(stream)@)
                    &&& stream_ok(*final(stream)) ==> final(self).wf()
                },
                None => {
                    &&& !old(self)@.contains_key(id)
                    &&& final(self)@ == old(self)@
                    &&& final(self).wf()
                },
            },
    {
        proof {
            let conns = self.conns@;
            assert forall|s: WsStreamServer<S>| #[trigger]
                stream_views(conns.insert(id, s)) == stream_views(conns).insert(id, s@) by {
                assert(stream_views(conns.insert(id, s)) =~= stream_views(conns).insert(id, s@));
            }
        }
        self.conns.get_mut(id)
    }

    fn ids(&self) -> (r: Vec<usize>)
        ensures
            ids_of(self@, r@),
    {
        let r = self.conns.ids();
        proof {
            assert forall|id: usize| #[trigger] self@.contains_key(id) implies r@.contains(id) by {
                assert(self.conns@.contains_key(id));
            }
            assert forall|i: int| 0 <= i < r@.len() implies self@.contains_key(
                #[trigger] r@[i],
            ) by {
                assert(self.conns@.contains_key(r@[i]));
            }
        }
        r
    }
}

/// A connection whose client has asked for a WebSocket.
pub struct PendingConn {
    conn_id: usize,
    path: String,
    ctx: WsContext,
}

/// What a [`PendingConn`] holds.
pub struct PendingView {
    pub conn_id: usize,
    pub path: Seq<char>,
    /// The key that is to be answered.
    pub key: Seq<char>,
}

impl View for PendingConn {
    type V = PendingView;

    closed spec fn view(&self) -> PendingView {
        PendingView {
            conn_id: self.conn_id,
            path: self.path@,
            key: self.ctx.sec_websocket_key@,
        }
    }
}

/// What each connection of a list is.
pub open spec fn pending_views(list: Seq<PendingConn>) -> Seq<PendingView> {
    list.map_values(|p: PendingConn| p@)
}

/// A stream whose response is being sent.
struct Opening<S> {
    conn_id: usize,
    path: String,
    stream: WsStreamServer<S>,
}

/// What is known of a stream whose response is being sent.
pub struct OpeningView<S> {
    pub conn_id: usize,
    pub path: Seq<char>,
    pub stream: WsView<S>,
    pub handshake: ServerHandshake<S>,
}

/// What has come of what was asked for last, or the begin of a round.
pub enum WsTickEvent {
    Start,
    /// Writing out the response to a handshake gave this.
    Answered(Result<(), IOError>),
    /// The handler was told of a new stream, which is to be dropped if it says so.
    Announced(bool),
    /// The stream that is looked at gave this.
    Stream(WsReadEvent),
    /// The handler was told of a message; the stream is to be dropped if it says so.
    Handled(bool),
    /// The handler was told that a stream was dropped.
    Told,
    /// The handler was told that the round is over.
    Ticked(TickResult),
}

/// What is to be done next in a round; a number tells on which stream.
pub enum WsTickStep {
    /// Write out the response to a handshake; what the stream does not take now is lost.
    Answer,
    /// Tell the handler of a new stream.
    NewConn(HttpWsServerContext),
    /// Read at most so many bytes off the stream.
    NeedRead(usize, usize),
    /// Write out what is to be sent, an answer to a probe; what the stream does not take now may
    /// stay for later.
    Send(usize),
    /// Write out what is to be sent, a probe; what the stream does not take now may stay for later.
    SendPing(usize),
    /// Write out all that is to be sent.
    Flush(usize),
    /// Tell the handler of a message.
    Message(HttpWsServerContext, WsDataType, Vec<u8>),
    /// Tell the handler that a stream was dropped.
    Closed(usize),
    /// Tell the handler that the round is over.
    OnTick,
    /// The round is over.
    Done(TickResult),
    /// The response to a handshake could not be sent. There is no answer to that but to stop.
    Fault(HttpConnError),
    /// The answer to a probe does not fit into the room for frames. There is no answer to that but
    /// to stop.
    NoRoom(usize),
}

/// What a [`WsTickStep`] stands for.
pub enum WsTickStepView {
    Answer,
    NewConn { conn_id: usize, path: Seq<char>, is_close: bool },
    NeedRead(usize, int),
    Send(usize),
    SendPing(usize),
    Flush(usize),
    Message { conn_id: usize, path: Seq<char>, is_close: bool, ty: WsDataType, data: Seq<u8> },
    Closed(usize),
    OnTick,
    Done(TickResult),
    Fault(HttpConnErrorView),
    NoRoom(usize),
}

impl View for WsTickStep {
    type V = WsTickStepView;

    open spec fn view(&self) -> WsTickStepView {
        match *self {
            WsTickStep::Answer => WsTickStepView::Answer,
            WsTickStep::NewConn(ctx) => WsTickStepView::NewConn {
                conn_id: ctx.conn_id,
                path: ctx.path@,
                is_close: ctx.is_close,
            },
            WsTickStep::NeedRead(id, n) => WsTickStepView::NeedRead(id, n as int),
            WsTickStep::Send(id) => WsTickStepView::Send(id),
            WsTickStep::SendPing(id) => WsTickStepView::SendPing(id),
            WsTickStep::Flush(id) => WsTickStepView::Flush(id),
            WsTickStep::Message(ctx, ty, data) => WsTickStepView::Message {
                conn_id: ctx.conn_id,
                path: ctx.path@,
                is_close: ctx.is_close,
                ty,
                data: data@,
            },
            WsTickStep::Closed(id) => WsTickStepView::Closed(id),
            WsTickStep::OnTick => WsTickStepView::OnTick,
            WsTickStep::Done(tick) => WsTickStepView::Done(tick),
            WsTickStep::Fault(e) => WsTickStepView::Fault(e@),
            WsTickStep::NoRoom(id) => WsTickStepView::NoRoom(id),
        }
    }
}

/// What becomes of a request.
pub enum WsRequestStep {
    /// It does not ask for a WebSocket: the handler is to be told of it.
    PassOn(HttpRequestReader),
    /// It is dealt with.
    Taken,
    /// The key, or the name of a protocol, is too long. There is no answer to that but to stop.
    KeyTooLong,
}

/// What looks after the WebSocket streams of a server.
pub struct WsHandler<S, H> {
    pending_conn_ids: Vec<PendingConn>,
    frame_size: usize,
    conns: WsServerConns<S>,
    handler: H,
    opening: Option<Opening<S>>,
    opened: usize,
    tick: TickResult,
    read: TickResult,
    ids: Vec<usize>,
    at: usize,
    remove: Vec<usize>,
    gone: usize,
}

/// What a [`WsHandler`] holds, apart from the handler.
pub struct WsHandlerView<S> {
    /// The connections whose clients have asked for a WebSocket.
    pub pending: Seq<PendingView>,
    pub frame_size: usize,
    pub conns: Map<usize, WsView<S>>,
    /// The stream whose response is being sent.
    pub opening: Option<OpeningView<S>>,
    /// The stream that was opened last.
    pub opened: usize,
    /// What the round amounts to, without the looks at the streams.
    pub tick: TickResult,
    /// What the looks at the streams amount to.
    pub read: TickResult,
    /// The streams that are looked at in this round.
    pub ids: Seq<usize>,
    /// The one that is looked at now.
    pub at: int,
    /// Those that are to be dropped.
    pub remove: Seq<usize>,
    /// How many of these are dropped.
    pub gone: int,
}

/// What becomes of the connections whose clients have asked for a WebSocket.
pub enum PendingEnd<S> {
    /// There is none left.
    Empty,
    /// The response to this one is to be sent.
    Answer { pending: PendingView, handshake: ServerHandshake<S> },
    /// The response to this one cannot be sent.
    NoAnswer(HttpConnErrorView),
}

/// The next connection that is to become a stream, what is left of the others, and what that
/// amounts to.
pub struct NextPending<S> {
    pub end: PendingEnd<S>,
    pub pending: Seq<PendingView>,
    pub conns: Map<usize, ConnView<S>>,
    pub tick: TickResult,
}

/// The next connection that is to become a stream: the one that asked last, of those that are
/// still there and whose path is part of an address. The others are dropped.
pub open spec fn next_pending<S>(
    pending: Seq<PendingView>,
    conns: Map<usize, ConnView<S>>,
    frame_size: usize,
    now: u64,
    tick: TickResult,
) -> NextPending<S>
    decreases pending.len(),
{
    if pending.len() == 0 {
        NextPending { end: PendingEnd::Empty, pending, conns, tick }
    } else {
        let p = pending.last();
        let rest = pending.drop_last();
        if conns.contains_key(p.conn_id) {
            let left = conns.remove(p.conn_id);
            let busy = tick.merged(TickResult::Busy);
            let turn = respond_turn(
                unnamed::<S>(frame_size, Seq::empty(), now),
                now,
                p.key,
                conns[p.conn_id],
                p.path,
                None,
                now,
            );
            match turn.step {
                WsAcceptStepView::Send => NextPending {
                    end: PendingEnd::Answer { pending: p, handshake: turn.handshake },
                    pending: rest,
                    conns: left,
                    tick: busy,
                },
                WsAcceptStepView::NoAnswer(e) => NextPending {
                    end: PendingEnd::NoAnswer(e),
                    pending: rest,
                    conns: left,
                    tick: busy,
                },
                _ => next_pending(rest, left, frame_size, now, busy),
            }
        } else {
            next_pending(rest, conns, frame_size, now, tick)
        }
    }
}

/// The turn where streams are dropped: the handler is told of one after the other, and then that
/// the round is over.
pub open spec fn closing_turn<S>(s: WsHandlerView<S>) -> (WsTickStepView, WsHandlerView<S>) {
    if s.gone < s.remove.len() {
        let id = s.remove[s.gone];
        (
            WsTickStepView::Closed(id),
            WsHandlerView { conns: s.conns.remove(id), gone: s.gone + 1, ..s },
        )
    } else {
        (WsTickStepView::OnTick, WsHandlerView { tick: s.tick.merged(s.read), ..s })
    }
}

/// Looks at the streams until one has something to do: a turn of that one, if there is one, and
/// the handler before that turn. Streams that fail are to be dropped.
pub open spec fn look<S>(s: WsHandlerView<S>, now: u64, event: WsReadEvent) -> (
    Option<ReadTurn<S>>,
    WsHandlerView<S>,
)
    decreases s.ids.len() - s.at,
{
    if s.at >= s.ids.len() {
        (None, s)
    } else {
        let id = s.ids[s.at];
        let turn = server_reads(s.conns[id], true, now, event);
        let next = WsHandlerView { conns: s.conns.insert(id, turn.stream), at: s.at + 1, ..s };
        match turn.step {
            WsReadStepView::Failed(WsErrorView::WouldBlock) => look(next, now, WsReadEvent::Start),
            WsReadStepView::Failed(_) | WsReadStepView::Connect => look(
                WsHandlerView {
                    read: s.read.merged(TickResult::Busy),
                    remove: s.remove.push(id),
                    ..next
                },
                now,
                WsReadEvent::Start,
            ),
            _ => (Some(turn), s),
        }
    }
}

/// What is to be done for a turn of a stream.
pub open spec fn stream_step<S>(id: usize, stream: WsView<S>, turn: ReadTurn<S>) -> WsTickStepView {
    match turn.step {
        WsReadStepView::NeedRead(n) => WsTickStepView::NeedRead(id, n),
        WsReadStepView::Send => WsTickStepView::Send(id),
        WsReadStepView::SendPing => WsTickStepView::SendPing(id),
        WsReadStepView::Flush => WsTickStepView::Flush(id),
        WsReadStepView::NoRoom => WsTickStepView::NoRoom(id),
        WsReadStepView::Done(ty) => WsTickStepView::Message {
            conn_id: id,
            path: path_of(stream.endpoint),
            is_close: false,
            ty,
            data: turn.data,
        },
        _ => arbitrary(),
    }
}

/// Whether looking at the streams makes `after` of a handler, and `step` the next thing to do.
pub open spec fn looks_on<S>(
    s: WsHandlerView<S>,
    now: u64,
    event: WsReadEvent,
    step: WsTickStepView,
    after: WsHandlerView<S>,
) -> bool {
    match look(s, now, event) {
        (None, then) => (step, after) == closing_turn(then),
        (Some(turn), then) => {
            let id = then.ids[then.at];
            let stream = after.conns[id];
            &&& turned(then.conns[id], stream, turn)
            &&& after == (WsHandlerView { conns: then.conns.insert(id, stream), ..then })
            &&& step == stream_step(id, stream, turn)
        },
    }
}

/// Whether opening streams, and looking at them once all are open, makes `after` of a handler,
/// `left` of the connections, and `step` the next thing to do.
pub open spec fn opens<S>(
    s: WsHandlerView<S>,
    conns: Map<usize, ConnView<S>>,
    now: u64,
    step: WsTickStepView,
    after: WsHandlerView<S>,
    left: Map<usize, ConnView<S>>,
) -> bool {
    let next = next_pending(s.pending, conns, s.frame_size, now, s.tick);
    let then = WsHandlerView { pending: next.pending, tick: next.tick, opening: None, ..s };
    &&& left == next.conns
    &&& match next.end {
        PendingEnd::Answer { pending, handshake } => {
            &&& step is Answer
            &&& after.opening matches Some(o)
            &&& o == (OpeningView {
                conn_id: pending.conn_id,
                path: pending.path,
                stream: unnamed(s.frame_size, o.stream.buffer, now),
                handshake,
            })
            &&& after == (WsHandlerView { opening: after.opening, ..then })
        },
        PendingEnd::NoAnswer(e) => step == WsTickStepView::Fault(e) && after == then,
        PendingEnd::Empty => {
            &&& ids_of(s.conns, after.ids)
            &&& looks_on(
                WsHandlerView {
                    read: TickResult::Idle,
                    ids: after.ids,
                    at: 0,
                    remove: Seq::empty(),
                    gone: 0,
                    ..then
                },
                now,
                WsReadEvent::Start,
                step,
                after,
            )
        },
    }
}

/// The turn where the response to a handshake was written out.
pub open spec fn answered_turn<S>(
    s: WsHandlerView<S>,
    now: u64,
    outcome: Result<(), IOError>,
) -> (WsTickStepView, WsHandlerView<S>) {
    let o = s.opening->0;
    let turn = accept_turn(
        o.stream,
        o.handshake,
        true,
        None,
        now,
        WsAcceptEvent::Sent(outcome),
        None,
    );
    let then = WsHandlerView { opening: None, ..s };
    match turn.step {
        WsAcceptStepView::NoAnswer(e) => (WsTickStepView::Fault(e), then),
        _ => (
            WsTickStepView::NewConn { conn_id: o.conn_id, path: o.path, is_close: false },
            WsHandlerView {
                conns: s.conns.insert(o.conn_id, turn.stream),
                opened: o.conn_id,
                ..then
            },
        ),
    }
}

/// Whether an event makes `after` of a handler, `left` of the connections, and `step` the next
/// thing to do.
pub open spec fn ws_ticks<S>(
    s: WsHandlerView<S>,
    conns: Map<usize, ConnView<S>>,
    now: u64,
    event: WsTickEvent,
    step: WsTickStepView,
    after: WsHandlerView<S>,
    left: Map<usize, ConnView<S>>,
) -> bool {
    match event {
        WsTickEvent::Start => opens(
            WsHandlerView { tick: TickResult::Idle, ..s },
            conns,
            now,
            step,
            after,
            left,
        ),
        WsTickEvent::Answered(outcome) => {
            (step, after) == answered_turn(s, now, outcome) && left == conns
        },
        WsTickEvent::Announced(is_close) => opens(
            WsHandlerView {
                conns: if is_close {
                    s.conns.remove(s.opened)
                } else {
                    s.conns
                },
                ..s
            },
            conns,
            now,
            step,
            after,
            left,
        ),
        WsTickEvent::Stream(event) => looks_on(s, now, event, step, after) && left == conns,
        WsTickEvent::Handled(is_close) => {
            &&& left == conns
            &&& looks_on(
                WsHandlerView {
                    remove: if is_close {
                        s.remove.push(s.ids[s.at])
                    } else {
                        s.remove
                    },
                    read: s.read.merged(TickResult::Busy),
                    at: s.at + 1,
                    ..s
                },
                now,
                WsReadEvent::Start,
                step,
                after,
            )
        },
        WsTickEvent::Told => (step, after) == closing_turn(s) && left == conns,
        WsTickEvent::Ticked(tick) => {
            &&& step == WsTickStepView::Done(s.tick.merged(tick))
            &&& after == (WsHandlerView { tick: s.tick.merged(tick), ..s })
            &&& left == conns
        },
    }
}

/// Whether a stream is being looked at, and those that come after it are still there.
pub open spec fn at_stream<S>(s: WsHandlerView<S>) -> bool {
    &&& 0 <= s.at < s.ids.len()
    &&& all_there(s)
}

/// Whether the streams that are still to be looked at are there.
pub open spec fn all_there<S>(s: WsHandlerView<S>) -> bool {
    forall|i: int| s.at <= i < s.ids.len() ==> s.conns.contains_key(#[trigger] s.ids[i])
}

/// Whether a stream was opened by a server, and its response is being sent.
pub open spec fn opening_ok<S>(stream: WsStreamServer<S>) -> bool {
    &&& stream.wf()
    &&& stream.handshake().wf()
    &&& stream.handshake()@ is WaitSent
}

impl<S> Opening<S> {
    closed spec fn known(&self) -> OpeningView<S> {
        OpeningView {
            conn_id: self.conn_id,
            path: self.path@,
            stream: self.stream@,
            handshake: self.stream.handshake()@,
        }
    }
}

/// A handler without streams.
pub open spec fn new_handler<S>(frame_size: usize) -> WsHandlerView<S> {
    WsHandlerView {
        pending: Seq::empty(),
        frame_size,
        conns: Map::empty(),
        opening: None,
        opened: 0,
        tick: TickResult::Idle,
        read: TickResult::Idle,
        ids: Seq::empty(),
        at: 0,
        remove: Seq::empty(),
        gone: 0,
    }
}

impl<S, H> View for WsHandler<S, H> {
    type V = WsHandlerView<S>;

    closed spec fn view(&self) -> WsHandlerView<S> {
        WsHandlerView {
            pending: pending_views(self.pending_conn_ids@),
            frame_size: self.frame_size,
            conns: self.conns@,
            opening: match self.opening {
                Some(o) => Some(o.known()),
                None => None,
            },
            opened: self.opened,
            tick: self.tick,
            read: self.read,
            ids: self.ids@,
            at: self.at as int,
            remove: self.remove@,
            gone: self.gone as int,
        }
    }
}

/// Whether there can be room for frames of a size.
pub open spec fn frame_size_ok(frame_size: usize) -> bool {
    2 * frame_size <= usize::MAX
}

impl<S, H> WsHandler<S, H> {
    pub closed spec fn wf(&self) -> bool {
        &&& self.conns.wf()
        &&& frame_size_ok(self.frame_size)
        &&& forall|i: int|
            0 <= i < self.pending_conn_ids@.len() ==> encode_utf8(
                (#[trigger] self.pending_conn_ids@[i])@.key,
            ).len() <= KEY_LIMIT
        &&& self.opening matches Some(o) ==> opening_ok(o.stream)
    }

    /// The handler that is told.
    pub closed spec fn told(&self) -> H {
        self.handler
    }

    /// One without streams.
    pub fn new(frame_size: usize, handler: H) -> (r: Self)
        requires
            frame_size_ok(frame_size),
        ensures
            r.wf(),
            r.told() == handler,
            r@ == new_handler::<S>(frame_size),
    {
        let r = WsHandler {
            pending_conn_ids: Vec::new(),
            frame_size,
            conns: WsServerConns::new(),
            handler,
            opening: None,
            opened: 0,
            tick: TickResult::Idle,
            read: TickResult::Idle,
            ids: Vec::new(),
            at: 0,
            remove: Vec::new(),
            gone: 0,
        };
        assert(r@.pending =~= Seq::empty());
        r
    }

    /// The handler.
    pub fn handler(&mut self) -> (r: &mut H)
        requires
            old(self).wf(),
        ensures
            *r == old(self).told(),
            final(self).told() == *final(r),
            final(self)@ == old(self)@,
            final(self).wf(),
    {
        &mut self.handler
    }

    /// The handler and the streams.
    pub fn handler_and_conns(&mut self) -> (r: (&mut H, &mut WsServerConns<S>))
        requires
            old(self).wf(),
        ensures
            *r.0 == old(self).told(),
            final(self).told() == *final(r.0),
            r.1.wf(),
            r.1@ == old(self)@.conns,
            final(self)@ == (WsHandlerView { conns: final(r.1)@, ..old(self)@ }),
            final(r.1).wf() ==> final(self).wf(),
    {
        (&mut self.handler, &mut self.conns)
    }

    /// The connection over which the response to a handshake is being sent.
    pub fn opening_conn(&mut self) -> (r: Option<&mut HttpConnServer<S>>)
        requires
            old(self).wf(),
        ensures
            final(self).told() == old(self).told(),
            match r {
                Some(conn) => {
                    &&& conn_ok(*conn)
                    &&& opens_over(old(self)@.opening, conn@)
                    &&& final(self)@ == (WsHandlerView {
                        opening: moved_over(old(self)@.opening, final(conn)@),
                        ..old(self)@
                    })
                    &&& conn_ok(*final(conn)) ==> final(self).wf()
                },
                None => {
                    &&& old(self)@.opening is None
                    &&& final(self)@ == old(self)@
                    &&& final(self).wf()
                },
            },
    {
        match &mut self.opening {
            Some(opening) => opening.stream.handshake_conn(),
            None => None,
        }
    }

    /// Takes a request in. One that asks for a WebSocket is kept until the end of the round; one
    /// that asks badly closes its connection.
    pub fn on_new_http_request(&mut self, ctx: &mut HttpServerContext, req: HttpRequestReader) -> (r:
        WsRequestStep)
        requires
            old(self).wf(),
        ensures
            final(self).wf(),
            final(self).told() == old(self).told(),
            ({
                let end = ctx_end(req@.headers);
                if end is TooLong {
                    &&& r is KeyTooLong
                    &&& final(self)@ == old(self)@
                    &&& *final(ctx) == *old(ctx)
                } else {
                    match offered(end) {
                        Ok(Some(offer)) => {
                            &&& r is Taken
                            &&& final(self)@ == (WsHandlerView {
                                pending: old(self)@.pending.push(
                                    PendingView {
                                        conn_id: old(ctx).conn_id,
                                        path: path_in(req@),
                                        key: offer.key,
                                    },
                                ),
                                ..old(self)@
                            })
                            &&& *final(ctx) == *old(ctx)
                        },
                        Ok(None) => {
                            &&& r matches WsRequestStep::PassOn(same) && same == req
                            &&& final(self)@ == old(self)@
                            &&& *final(ctx) == *old(ctx)
                        },
                        Err(_) => {
                            &&& r is Taken
                            &&& final(self)@ == old(self)@
                            &&& *final(ctx) == (HttpServerContext { is_close: true, ..*old(ctx) })
                        },
                    }
                }
            }),
    {
        match try_get_websocket_ctx(&req) {
            None => WsRequestStep::KeyTooLong,
            Some(Ok(Some(offer))) => {
                let pending = PendingConn {
                    conn_id: ctx.conn_id,
                    path: req.path().to_owned(),
                    ctx: offer,
                };
                self.pending_conn_ids.push(pending);
                assert(self@.pending =~= old(self)@.pending.push(pending@));
                WsRequestStep::Taken
            },
            Some(Ok(None)) => WsRequestStep::PassOn(req),
            Some(Err(_)) => {
                ctx.is_close = true;
                WsRequestStep::Taken
            },
        }
    }

    /// Makes streams of the connections whose clients have asked for a WebSocket, until a response
    /// is to be sent; once none is left, looks at the streams.
    fn transform_conns(&mut self, conns: &mut HttpServerConns<S>, now: u64) -> (r: WsTickStep)
        requires
            old(self).wf(),
            old(conns).wf(),
        ensures
            final(self).wf(),
            final(conns).wf(),
            final(self).told() == old(self).told(),
            final(conns)@.seq == old(conns)@.seq,
            opens(old(self)@, old(conns)@.conns, now, r@, final(self)@, final(conns)@.conns),
            !(r is Done),
    {
        self.opening = None;
        let ghost start = self@;
        let ghost http = conns@;
        let ghost next = next_pending(start.pending, http.conns, start.frame_size, now, start.tick);
        while self.pending_conn_ids.len() > 0
            invariant
                self.wf(),
                conns.wf(),
                self.told() == old(self).told(),
                conns@.seq == http.seq,
                self.opening is None,
                http == old(conns)@,
                start == (WsHandlerView { opening: None, ..old(self)@ }),
                next == next_pending(
                    start.pending,
                    http.conns,
                    start.frame_size,
                    now,
                    start.tick,
                ),
                next == next_pending(
                    self@.pending,
                    conns@.conns,
                    start.frame_size,
                    now,
                    self@.tick,
                ),
                self@ == (WsHandlerView { pending: self@.pending, tick: self@.tick, ..start }),
            decreases self.pending_conn_ids.len(),
        {
            let ghost before = self@.pending;
            let ghost list = self.pending_conn_ids@;
            let p = match self.pending_conn_ids.pop() {
                Some(p) => p,
                None => return vstd::pervasive::unreached(),
            };
            assert(self@.pending =~= before.drop_last());
            assert(before.last() == p@);
            assert(list[list.len() - 1] == p);
            let id = p.conn_id;
            let ghost there = conns@.conns;
            let taken = conns.remove_conn(id);
            assert(taken is None ==> conns@.conns =~= there);
            if let Some(conn) = taken {
                self.tick.to_busy();
                let mut stream = WsStreamServer::from_http_conn(
                    conn,
                    p.path.as_str(),
                    self.frame_size,
                    p.ctx,
                    now,
                );
                match stream.server_handshake(true, None, now, WsAcceptEvent::Start(None), None) {
                    WsAcceptStep::Send => {
                        self.opening = Some(Opening { conn_id: id, path: p.path, stream });
                        return WsTickStep::Answer;
                    },
                    WsAcceptStep::Fault(WsAcceptFault::NoAnswer(e)) => {
                        return WsTickStep::Fault(e);
                    },
                    _ => {},
                }
            }
        }
        assert(self@.pending.len() == 0);
        self.ids = self.conns.ids();
        self.at = 0;
        self.remove = Vec::new();
        self.gone = 0;
        self.read = TickResult::Idle;
        proof {
            lemma_look_keeps(self@, now, WsReadEvent::Start);
        }
        self.tick_read(now, WsReadEvent::Start)
    }

    /// Looks at the streams, one after the other, until one has something to do.
    fn tick_read(&mut self, now: u64, event: WsReadEvent) -> (r: WsTickStep)
        requires
            old(self).wf(),
            all_there(old(self)@),
            event matches WsReadEvent::Read(StreamRead::Data(bytes)) ==> {
                &&& at_stream(old(self)@)
                &&& bytes@.len() <= old(self)@.conns[old(self)@.ids[old(self)@.at]].input.room()
            },
        ensures
            final(self).wf(),
            final(self).told() == old(self).told(),
            looks_on(old(self)@, now, event, r@, final(self)@),
            !(r is Done),
    {
        let ghost end = look(self@, now, event);
        let mut current = event;
        while self.at < self.ids.len()
            invariant
                self.wf(),
                all_there(self@),
                self.told() == old(self).told(),
                end == look(old(self)@, now, event),
                end == look(self@, now, current),
                current matches WsReadEvent::Read(StreamRead::Data(bytes)) ==> {
                    &&& at_stream(self@)
                    &&& bytes@.len() <= self@.conns[self@.ids[self@.at]].input.room()
                },
            decreases self.ids.len() - self.at,
        {
            let id = self.ids[self.at];
            let ghost before = self@;
            let ghost turn = server_reads(before.conns[id], true, now, current);
            let mut data: Vec<u8> = Vec::new();
            let mut path = String::new();
            let step = match self.conns.get_mut(id) {
                Some(stream) => {
                    let step = stream.read(true, now, current, &mut data);
                    if let WsReadStep::Done(_) = step {
                        path = stream.endpoint().path().to_owned();
                    }
                    step
                },
                None => return vstd::pervasive::unreached(),
            };
            assert(data@ =~= turn.data);
            assert(self@ == (WsHandlerView {
                conns: before.conns.insert(id, self@.conns[id]),
                ..before
            }));
            match step {
                WsReadStep::NeedRead(n) => return WsTickStep::NeedRead(id, n),
                WsReadStep::Send => return WsTickStep::Send(id),
                WsReadStep::SendPing => return WsTickStep::SendPing(id),
                WsReadStep::Flush => return WsTickStep::Flush(id),
                WsReadStep::NoRoom => return WsTickStep::NoRoom(id),
                WsReadStep::Done(ty) => {
                    let ctx = HttpWsServerContext { conn_id: id, path, is_close: false };
                    return WsTickStep::Message(ctx, ty, data);
                },
                WsReadStep::Failed(WsError::WouldBlock) => {},
                WsReadStep::Failed(_) | WsReadStep::Connect => {
                    self.read.to_busy();
                    self.remove.push(id);
                },
            }
            self.at = self.at + 1;
            current = WsReadEvent::Start;
        }
        self.close_next()
    }

    /// Drops the next stream that is to be dropped.
    fn close_next(&mut self) -> (r: WsTickStep)
        requires
            old(self).wf(),
        ensures
            final(self).wf(),
            final(self).told() == old(self).told(),
            (r@, final(self)@) == closing_turn(old(self)@),
    {
        if self.gone < self.remove.len() {
            let id = self.remove[self.gone];
            let _ = self.conns.remove(id);
            assert(self.gone < self.remove.len());
            self.gone = self.gone + 1;
            return WsTickStep::Closed(id);
        }
        let read = self.read;
        self.tick.bitor_assign(read);
        WsTickStep::OnTick
    }

    /// Takes note of what came of writing out the response to a handshake.
    fn answered(&mut self, now: u64, outcome: Result<(), IOError>) -> (r: WsTickStep)
        requires
            old(self).wf(),
            old(self)@.opening is Some,
        ensures
            final(self).wf(),
            final(self).told() == old(self).told(),
            (r@, final(self)@) == answered_turn(old(self)@, now, outcome),
    {
        let opening = match self.opening.take() {
            Some(opening) => opening,
            None => return vstd::pervasive::unreached(),
        };
        let mut stream = opening.stream;
        match stream.server_handshake(true, None, now, WsAcceptEvent::Sent(outcome), None) {
            WsAcceptStep::Fault(WsAcceptFault::NoAnswer(e)) => WsTickStep::Fault(e),
            _ => {
                self.conns.insert(opening.conn_id, stream);
                self.opened = opening.conn_id;
                WsTickStep::NewConn(
                    HttpWsServerContext {
                        conn_id: opening.conn_id,
                        path: opening.path,
                        is_close: false,
                    },
                )
            },
        }
    }

    /// Goes through the part of a round that is about WebSockets: makes streams of connections,
    /// looks at all streams for messages, and tells the handler.
    pub fn on_tick(&mut self, conns: &mut HttpServerConns<S>, now: u64, event: WsTickEvent) -> (r:
        WsTickStep)
        requires
            old(self).wf(),
            old(conns).wf(),
            ws_event_ok(old(self)@, event),
        ensures
            final(self).wf(),
            final(conns).wf(),
            final(self).told() == old(self).told(),
            final(conns)@.seq == old(conns)@.seq,
            ws_ticks(
                old(self)@,
                old(conns)@.conns,
                now,
                event,
                r@,
                final(self)@,
                final(conns)@.conns,
            ),
            r is Done <==> event is Ticked,
    {
        match event {
            WsTickEvent::Start => {
                self.tick = TickResult::Idle;
                self.transform_conns(conns, now)
            },
            WsTickEvent::Answered(outcome) => self.answered(now, outcome),
            WsTickEvent::Announced(is_close) => {
                if is_close {
                    let id = self.opened;
                    let _ = self.conns.remove(id);
                }
                self.transform_conns(conns, now)
            },
            WsTickEvent::Stream(event) => self.tick_read(now, event),
            WsTickEvent::Handled(is_close) => {
                if is_close {
                    let id = self.ids[self.at];
                    self.remove.push(id);
                }
                self.read.to_busy();
                assert(self.at < self.ids.len());
                self.at = self.at + 1;
                self.tick_read(now, WsReadEvent::Start)
            },
            WsTickEvent::Told => self.close_next(),
            WsTickEvent::Ticked(tick) => {
                self.tick.bitor_assign(tick);
                WsTickStep::Done(self.tick)
            },
        }
    }
}

/// Whether a response is being sent over a connection.
pub open spec fn opens_over<S>(opening: Option<OpeningView<S>>, conn: ConnView<S>) -> bool {
    opening matches Some(o) && handshake_over(o.handshake) == Some(conn)
}

/// What is known of a stream whose response is being sent, over another connection.
pub open spec fn moved_over<S>(opening: Option<OpeningView<S>>, conn: ConnView<S>) -> Option<
    OpeningView<S>,
> {
    match opening {
        Some(o) => Some(OpeningView { handshake: over(o.handshake, conn), ..o }),
        None => None,
    }
}

/// The path of a request.
pub open spec fn path_in(req: RequestView) -> Seq<char> {
    match req.path {
        Some(path) => path,
        None => "/"@,
    }
}

/// Looking at streams does not change which are looked at.
proof fn lemma_look_keeps<S>(s: WsHandlerView<S>, now: u64, event: WsReadEvent)
    ensures
        look(s, now, event).1.ids == s.ids,
    decreases s.ids.len() - s.at,
{
    if s.at < s.ids.len() {
        let id = s.ids[s.at];
        let turn = server_reads(s.conns[id], true, now, event);
        let next = WsHandlerView { conns: s.conns.insert(id, turn.stream), at: s.at + 1, ..s };
        lemma_look_keeps(next, now, WsReadEvent::Start);
        lemma_look_keeps(
            WsHandlerView {
                read: s.read.merged(TickResult::Busy),
                remove: s.remove.push(id),
                ..next
            },
            now,
            WsReadEvent::Start,
        );
    }
}

/// Whether an event can come where a handler is.
pub open spec fn ws_event_ok<S>(s: WsHandlerView<S>, event: WsTickEvent) -> bool {
    match event {
        WsTickEvent::Answered(_) => s.opening is Some,
        WsTickEvent::Stream(e) => {
            &&& at_stream(s)
            &&& e matches WsReadEvent::Read(StreamRead::Data(bytes)) ==> bytes@.len()
                <= s.conns[s.ids[s.at]].input.room()
        },
        WsTickEvent::Handled(_) => at_stream(s),
        _ => true,
    }
}

/// What has come of what was asked for last, or the begin of a round.
pub enum HttpWsTickEvent<S> {
    Http(ServerTickEvent<S>),
    Ws(WsTickEvent),
}

/// What is to be done next in a round.
pub enum HttpWsTickStep {
    Http(ServerTickStep),
    Ws(WsTickStep),
    /// The key of a handshake, or the name of a protocol, is too long. There is no answer to that
    /// but to stop.
    KeyTooLong,
}

/// What an [`HttpWsTickStep`] stands for.
pub enum HttpWsTickStepView {
    Http(ServerTickStepView),
    Ws(WsTickStepView),
    KeyTooLong,
}

impl View for HttpWsTickStep {
    type V = HttpWsTickStepView;

    open spec fn view(&self) -> HttpWsTickStepView {
        match *self {
            HttpWsTickStep::Http(step) => HttpWsTickStepView::Http(step@),
            HttpWsTickStep::Ws(step) => HttpWsTickStepView::Ws(step@),
            HttpWsTickStep::KeyTooLong => HttpWsTickStepView::KeyTooLong,
        }
    }
}

/// A server for HTTP and for WebSockets.
pub struct HttpWsServer<S, H> {
    server: HttpServer<S, WsHandler<S, H>>,
}

/// What an [`HttpWsServer`] holds, apart from its handler.
pub struct HttpWsView<S> {
    pub http: ServerView<S>,
    pub ws: WsHandlerView<S>,
}

/// A server with other connections.
pub open spec fn with_conns<S>(s: ServerView<S>, conns: Map<usize, ConnView<S>>) -> ServerView<S> {
    ServerView { conns: ConnsView { conns, ..s.conns }, ..s }
}

/// Whether, `http` being the next thing to do for the connections, `step` is the next thing to do
/// at all: once the connections are done with, the WebSocket streams are looked after.
pub open spec fn goes_on<S>(
    s: HttpWsView<S>,
    http: ServerTickStepView,
    now: u64,
    step: HttpWsTickStepView,
    after: HttpWsView<S>,
) -> bool {
    if http is OnTick {
        &&& step matches HttpWsTickStepView::Ws(ws)
        &&& after.http == with_conns(s.http, after.http.conns.conns)
        &&& ws_ticks(
            s.ws,
            s.http.conns.conns,
            now,
            WsTickEvent::Start,
            ws,
            after.ws,
            after.http.conns.conns,
        )
    } else {
        step == HttpWsTickStepView::Http(http) && after == s
    }
}

/// Whether a request with these headers makes `after` of a server, and `step` the next thing to
/// do: one that does not ask for a WebSocket is passed on to the handler.
pub open spec fn takes_request<S>(
    s: HttpWsView<S>,
    http: ServerTickStepView,
    now: u64,
    step: HttpWsTickStepView,
    after: HttpWsView<S>,
) -> bool
    recommends
        http is Request,
{
    let end = ctx_end(http->req.headers);
    if end is TooLong {
        step is KeyTooLong && after == s
    } else {
        match offered(end) {
            Ok(None) => step == HttpWsTickStepView::Http(http) && after == s,
            Ok(Some(offer)) => {
                let (next, then) = handled_turn(s.http, http->is_close);
                let p = PendingView {
                    conn_id: http->conn_id,
                    path: path_in(http->req),
                    key: offer.key,
                };
                let ws = WsHandlerView { pending: s.ws.pending.push(p), ..s.ws };
                goes_on(HttpWsView { http: then, ws }, next, now, step, after)
            },
            Err(_) => {
                let (next, then) = handled_turn(s.http, true);
                goes_on(HttpWsView { http: then, ws: s.ws }, next, now, step, after)
            },
        }
    }
}

/// Whether an event makes `after` of a server, and `step` the next thing to do.
pub open spec fn http_ws_ticks<S>(
    s: HttpWsView<S>,
    now: u64,
    event: HttpWsTickEvent<S>,
    step: HttpWsTickStepView,
    after: HttpWsView<S>,
) -> bool {
    match event {
        HttpWsTickEvent::Http(event) => exists|http: ServerTickStepView, then: ServerView<S>|
            {
                &&& #[trigger] server_ticks(s.http, event, http, then)
                &&& if http is Request {
                    takes_request(HttpWsView { http: then, ..s }, http, now, step, after)
                } else {
                    goes_on(HttpWsView { http: then, ..s }, http, now, step, after)
                }
            },
        HttpWsTickEvent::Ws(WsTickEvent::Ticked(tick)) => {
            let all = s.ws.tick.merged(tick);
            &&& step == HttpWsTickStepView::Http(
                ServerTickStepView::Done(s.http.tick.merged(all)),
            )
            &&& after == (HttpWsView {
                http: ServerView { tick: s.http.tick.merged(all), ..s.http },
                ws: WsHandlerView { tick: all, ..s.ws },
            })
        },
        HttpWsTickEvent::Ws(event) => {
            &&& step matches HttpWsTickStepView::Ws(ws)
            &&& after.http == with_conns(s.http, after.http.conns.conns)
            &&& ws_ticks(
                s.ws,
                s.http.conns.conns,
                now,
                event,
                ws,
                after.ws,
                after.http.conns.conns,
            )
        },
    }
}

impl<S, H> View for HttpWsServer<S, H> {
    type V = HttpWsView<S>;

    closed spec fn view(&self) -> HttpWsView<S> {
        HttpWsView { http: self.server@, ws: self.server.told()@ }
    }
}

impl<S, H> HttpWsServer<S, H> {
    pub closed spec fn wf(&self) -> bool {
        self.server.wf() && self.server.told().wf()
    }

    /// The handler of the server.
    pub closed spec fn told(&self) -> H {
        self.server.told().told()
    }

    /// A server without connections.
    pub fn new(cfg: HttpWsServerConfig, handler: H) -> (r: Self)
        requires
            frame_size_ok(cfg.frame_size),
        ensures
            r.wf(),
            r.told() == handler,
            r@ == (HttpWsView {
                http: new_server::<S>(http_part(cfg)),
                ws: new_handler::<S>(cfg.frame_size),
            }),
    {
        let handler = WsHandler::new(cfg.frame_size, handler);
        let server = HttpServer::new(
            HttpServerConfig {
                listen_addr: cfg.listen_addr,
                tls_cert: cfg.tls_cert,
                tls_key: cfg.tls_key,
                max_body_length: cfg.http_max_body_length,
            },
            handler,
        );
        HttpWsServer { server }
    }

    /// How the server is reached.
    pub fn tls(&self) -> (r: &TlsChoice)
        ensures
            r@ == self@.http.tls,
    {
        self.server.tls()
    }

    /// The handler.
    pub fn handler(&mut self) -> (r: &mut H)
        requires
            old(self).wf(),
        ensures
            *r == old(self).told(),
            final(self).told() == *final(r),
            final(self)@ == old(self)@,
            final(self).wf(),
    {
        self.server.handler().handler()
    }

    /// The handler, the connections and the WebSocket streams.
    pub fn parts(&mut self) -> (r: (&mut H, &mut HttpServerConns<S>, &mut WsServerConns<S>))
        requires
            old(self).wf(),
        ensures
            *r.0 == old(self).told(),
            final(self).told() == *final(r.0),
            r.1.wf(),
            r.1@ == old(self)@.http.conns,
            r.2.wf(),
            r.2@ == old(self)@.ws.conns,
            final(self)@ == (HttpWsView {
                http: ServerView { conns: final(r.1)@, ..old(self)@.http },
                ws: WsHandlerView { conns: final(r.2)@, ..old(self)@.ws },
            }),
            final(r.1).wf() && final(r.2).wf() ==> final(self).wf(),
    {
        let (ws, http_conns) = self.server.handler_and_conns();
        let (handler, ws_conns) = ws.handler_and_conns();
        (handler, http_conns, ws_conns)
    }

    /// The connection over which the response to a handshake is being sent.
    pub fn opening_conn(&mut self) -> (r: Option<&mut HttpConnServer<S>>)
        requires
            old(self).wf(),
        ensures
            final(self).told() == old(self).told(),
            match r {
                Some(conn) => {
                    &&& conn_ok(*conn)
                    &&& opens_over(old(self)@.ws.opening, conn@)
                    &&& final(self)@ == (HttpWsView {
                        ws: WsHandlerView {
                            opening: moved_over(old(self)@.ws.opening, final(conn)@),
                            ..old(self)@.ws
                        },
                        ..old(self)@
                    })
                    &&& conn_ok(*final(conn)) ==> final(self).wf()
                },
                None => {
                    &&& old(self)@.ws.opening is None
                    &&& final(self)@ == old(self)@
                    &&& final(self).wf()
                },
            },
    {
        self.server.handler().opening_conn()
    }

    fn go_on(&mut self, now: u64, step: ServerTickStep) -> (r: HttpWsTickStep)
        requires
            old(self).wf(),
        ensures
            final(self).wf(),
            final(self).told() == old(self).told(),
            goes_on(old(self)@, step@, now, r@, final(self)@),
    {
        match step {
            ServerTickStep::OnTick => {
                let (handler, conns) = self.server.handler_and_conns();
                HttpWsTickStep::Ws(handler.on_tick(conns, now, WsTickEvent::Start))
            },
            step => HttpWsTickStep::Http(step),
        }
    }

    /// Goes through a round: takes in the connections that clients have opened, looks at all of
    /// them for requests and at all WebSocket streams for messages, and tells the handler.
    pub fn tick(&mut self, now: u64, event: HttpWsTickEvent<S>) -> (r: HttpWsTickStep)
        requires
            old(self).wf(),
            match event {
                HttpWsTickEvent::Http(event) => server_event_ok(old(self)@.http, event),
                HttpWsTickEvent::Ws(event) => ws_event_ok(old(self)@.ws, event),
            },
        ensures
            final(self).wf(),
            final(self).told() == old(self).told(),
            http_ws_ticks(old(self)@, now, event, r@, final(self)@),
    {
        match event {
            HttpWsTickEvent::Http(event) => {
                let step = self.server.tick(event);
                let ghost then = self.server@;
                let ghost http = step@;
                assert(server_ticks(old(self)@.http, event, http, then));
                match step {
                    ServerTickStep::Request(ctx, req) => {
                        let mut ctx = ctx;
                        match self.server.handler().on_new_http_request(&mut ctx, req) {
                            WsRequestStep::PassOn(req) => HttpWsTickStep::Http(
                                ServerTickStep::Request(ctx, req),
                            ),
                            WsRequestStep::Taken => {
                                let step = self.server.tick(
                                    ServerTickEvent::Handled(ctx.is_close),
                                );
                                self.go_on(now, step)
                            },
                            WsRequestStep::KeyTooLong => HttpWsTickStep::KeyTooLong,
                        }
                    },
                    step => self.go_on(now, step),
                }
            },
            HttpWsTickEvent::Ws(event) => {
                let (handler, conns) = self.server.handler_and_conns();
                match handler.on_tick(conns, now, event) {
                    WsTickStep::Done(tick) => HttpWsTickStep::Http(
                        self.server.tick(ServerTickEvent::Ticked(tick)),
                    ),
                    step => HttpWsTickStep::Ws(step),
                }
            },
        }
    }
}

} // verus!
