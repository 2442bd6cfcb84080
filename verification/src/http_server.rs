//! A server: the connections that clients have opened, and the rounds in which it looks after them.
use crate::conn::{
    conn_ok, event_fits, fresh_conn, server_read_turn, write_response_turn, ConnReadEvent, ConnView,
    ConnWriteStep, HttpConnServer, ServerFault, ServerStep, ServerStepView,
};
use crate::id_map::{ids_of, IdMap};
use crate::request::{HttpRequestReader, RequestView};
use crate::request_read::request_room;
use crate::stream::{text_view, IOError};
use crate::tick::TickResult;
use crate::tls::{tls_choice, tls_of, TlsChoice, TlsView};
use crate::uri::uri_parts;
use core::ops::BitOrAssign;
use vstd::prelude::*;

verus! {

#[derive(Debug)]
pub struct HttpServerConfig {
    pub listen_addr: String,
    pub tls_cert: Vec<u8>,
    pub tls_key: Vec<u8>,
    /// The size up to which a request is taken.
    pub max_body_length: Option<usize>,
}

impl Default for HttpServerConfig {
    fn default() -> (r: Self)
        ensures
            r.listen_addr@ == ""@,
            r.tls_cert@ == Seq::<u8>::empty(),
            r.tls_key@ == Seq::<u8>::empty(),
            r.max_body_length is None,
    {
        HttpServerConfig {
            listen_addr: "".to_owned(),
            tls_cert: Vec::new(),
            tls_key: Vec::new(),
            max_body_length: None,
        }
    }
}

impl HttpServerConfig {
    /// Whether the server is to be reached over TLS: a certificate or a key is given.
    pub fn uses_tls(&self) -> (r: bool)
        ensures
            r == (self.tls_cert@.len() > 0 || self.tls_key@.len() > 0),
    {
        self.tls_cert.len() > 0 || self.tls_key.len() > 0
    }
}

/// What a handler is told of a connection, and tells of it.
pub struct HttpServerContext {
    pub conn_id: usize,
    /// The connection is to be closed.
    pub is_close: bool,
    pub peer_addr: Option<String>,
}

/// What a server is for.
pub trait HttpServerHandler<S> {
    /// A request has come.
    fn on_new_http_request(&mut self, ctx: &mut HttpServerContext, req: HttpRequestReader);

    /// A round is over.
    fn on_tick(&mut self, http_conns: &mut HttpServerConns<S>) -> TickResult;
}

/// The connections of a server, each under its number.
pub struct HttpServerConns<S> {
    conn_seq: usize,
    conns: IdMap<HttpConnServer<S>>,
}

/// What [`HttpServerConns`] hold: the connections, and the number that the next will have.
pub struct ConnsView<S> {
    pub seq: usize,
    pub conns: Map<usize, ConnView<S>>,
}

/// What the connections of a table hold.
pub open spec fn table_views<S>(conns: Map<usize, HttpConnServer<S>>) -> Map<usize, ConnView<S>> {
    conns.map_values(|c: HttpConnServer<S>| c@)
}

impl<S> View for HttpServerConns<S> {
    type V = ConnsView<S>;

    closed spec fn view(&self) -> ConnsView<S> {
        ConnsView { seq: self.conn_seq, conns: table_views(self.conns@) }
    }
}

/// The connections with one more.
pub open spec fn with_conn<S>(c: ConnsView<S>, conn: ConnView<S>) -> ConnsView<S> {
    ConnsView { seq: (c.seq + 1) as usize, conns: c.conns.insert(c.seq, conn) }
}

/// Whether all numbers were given out before.
pub open spec fn numbered<S>(c: ConnsView<S>) -> bool {
    forall|id: usize| #[trigger] c.conns.contains_key(id) ==> id < c.seq
}

impl<S> HttpServerConns<S> {
    /// The connections are in order, all numbers were given out before, and the table has an end.
    pub open spec fn wf(&self) -> bool {
        &&& self.conns_ok()
        &&& numbered(self@)
        &&& self@.conns.dom().finite()
    }

    pub closed spec fn conns_ok(&self) -> bool {
        forall|id: usize| #[trigger] self.conns@.contains_key(id) ==> conn_ok(self.conns@[id])
    }

    pub fn new() -> (r: Self)
        ensures
            r.wf(),
            r@ == (ConnsView::<S> { seq: 0, conns: Map::empty() }),
    {
        let r = HttpServerConns { conn_seq: 0, conns: IdMap::new() };
        assert(r@.conns =~= Map::empty());
        r
    }

    /// How many connections there are.
    pub fn len(&self) -> (r: usize)
        ensures
            r == self@.conns.len(),
    {
        let r = self.conns.len();
        assert(self@.conns.dom() =~= self.conns@.dom());
        r
    }

    /// Whether there is a number left for one more connection.
    pub fn has_number(&self) -> (r: bool)
        ensures
            r == (self@.seq < usize::MAX),
    {
        self.conn_seq < usize::MAX
    }

    /// Takes a connection in, under the next number.
    pub fn add_conn(&mut self, conn: HttpConnServer<S>)
        requires
            old(self).wf(),
            conn_ok(conn),
            old(self)@.seq < usize::MAX,
        ensures
            final(self).wf(),
            final(self)@ == with_conn(old(self)@, conn@),
            final(self)@.conns.len() == old(self)@.conns.len() + 1,
    {
        let id = self.conn_seq;
        self.conns.insert(id, conn);
        self.conn_seq = id + 1;
        assert forall|k: usize| #[trigger] self.conns@.contains_key(k) implies conn_ok(
            self.conns@[k],
        ) by {
            assert(k != id ==> old(self).conns@.contains_key(k) && self.conns@[k] == old(
                self,
            ).conns@[k]);
        }
        assert(self@.conns =~= old(self)@.conns.insert(id, conn@));
    }

    /// Takes a connection out.
    pub fn remove_conn(&mut self, conn_id: usize) -> (r: Option<HttpConnServer<S>>)
        requires
            old(self).wf(),
        ensures
            final(self).wf(),
            final(self)@ == (ConnsView { conns: old(self)@.conns.remove(conn_id), ..old(self)@ }),
            match r {
                Some(conn) => {
                    &&& conn_ok(conn)
                    &&& old(self)@.conns.contains_pair(conn_id, conn@)
                    &&& final(self)@.conns.len() == old(self)@.conns.len() - 1
                },
                None => !old(self)@.conns.contains_key(conn_id),
            },
    {
        let r = self.conns.remove(conn_id);
        assert(self@.conns =~= old(self)@.conns.remove(conn_id));
        r
    }

    /// One of the connections.
    pub fn conn(&mut self, conn_id: usize) -> (r: Option<&mut HttpConnServer<S>>)
        requires
            old(self).wf(),
        ensures
            match r {
                Some(conn) => {
                    &&& conn_ok(*conn)
                    &&& old(self)@.conns.contains_pair(conn_id, conn@)
                    &&& final(self)@ == (ConnsView {
                        conns: old(self)@.conns.insert(conn_id, final(conn)@),
                        ..old(self)@
                    })
                    &&& conn_ok(*final(conn)) ==> final(self).wf()
                },
                None => {
                    &&& !old(self)@.conns.contains_key(conn_id)
                    &&& final(self)@ == old(self)@
                    &&& final(self).wf()
                },
            },
    {
        proof {
            let conns = self.conns@;
            assert forall|c: HttpConnServer<S>| #[trigger]
                table_views(conns.insert(conn_id, c)) == table_views(conns).insert(
                conn_id,
                c@,
            ) by {
                assert(table_views(conns.insert(conn_id, c)) =~= table_views(conns).insert(
                    conn_id,
                    c@,
                ));
            }
        }
        self.conns.get_mut(conn_id)
    }

    /// The numbers of the connections, the oldest first.
    pub fn ids(&self) -> (r: Vec<usize>)
        ensures
            ids_of(self@.conns, r@),
    {
        let r = self.conns.ids();
        proof {
            assert forall|id: usize| #[trigger] self@.conns.contains_key(id) implies r@.contains(
                id,
            ) by {
                assert(self.conns@.contains_key(id));
            }
            assert forall|i: int| 0 <= i < r@.len() implies self@.conns.contains_key(
                #[trigger] r@[i],
            ) by {
                assert(self.conns@.contains_key(r@[i]));
            }
        }
        r
    }

    /// Whether one more answer over a connection can be counted.
    pub fn can_answer(&mut self, conn_id: usize) -> (r: bool)
        requires
            old(self).wf(),
        ensures
            final(self).wf(),
            final(self)@ == old(self)@,
            r == (old(self)@.conns.contains_key(conn_id) ==> old(self)@.conns[conn_id].request_cnt
                < usize::MAX - 1),
    {
        let r = match self.conn(conn_id) {
            Some(conn) => conn.answered() < usize::MAX - 1,
            None => true,
        };
        assert(self@.conns =~= old(self)@.conns);
        r
    }

    /// Sends the answer to a request over one of the connections, if it is still there.
    pub fn write_to(&mut self, conn_id: usize, data: &[u8], outcome: Option<Result<(), IOError>>)
        -> (r: ConnWriteStep)
        requires
            old(self).wf(),
            old(self)@.conns.contains_key(conn_id) ==> old(self)@.conns[conn_id].request_cnt
                < usize::MAX - 1,
        ensures
            final(self).wf(),
            if old(self)@.conns.contains_key(conn_id) {
                let (step, conn) = write_response_turn(
                    old(self)@.conns[conn_id],
                    data@,
                    outcome,
                );
                &&& r@ == step
                &&& final(self)@ == (ConnsView {
                    conns: old(self)@.conns.insert(conn_id, conn),
                    ..old(self)@
                })
            } else {
                r@ is Done && final(self)@ == old(self)@
            },
    {
        match self.conn(conn_id) {
            Some(conn) => conn.write_response(data, outcome),
            None => ConnWriteStep::Done,
        }
    }
}

/// Numbers are not given out twice: the number of a new connection is that of no other, and the
/// next one is larger again.
pub proof fn law_numbers_are_new<S>(c: ConnsView<S>, conn: ConnView<S>)
    requires
        numbered(c),
        c.seq < usize::MAX,
    ensures
        !c.conns.contains_key(c.seq),
        numbered(with_conn(c, conn)),
        with_conn(c, conn).conns.contains_pair(c.seq, conn),
        with_conn(c, conn).seq > c.seq,
{
}

/// What has come of what was asked for last, or the begin of a round.
pub enum ServerTickEvent<S> {
    Start,
    /// A client has opened a stream.
    Accepted(S),
    /// No client has opened another stream.
    NoMore,
    /// Looking for streams failed.
    AcceptFailed,
    /// The connection that is looked at gave this; the text tells who is at the other end.
    Conn(ConnReadEvent, Option<String>),
    /// The handler was told of the request; the connection is to be closed if it says so.
    Handled(bool),
    /// The handler was told that the round is over.
    Ticked(TickResult),
}

/// What is to be done next in a round; a number tells on which connection.
pub enum ServerTickStep {
    /// Look whether a client has opened a stream.
    Accept,
    /// Write out all that is to be sent.
    Flush(usize),
    /// Read at most so many bytes off the stream.
    NeedRead(usize, usize),
    /// Tell the handler of a request.
    Request(HttpServerContext, HttpRequestReader),
    /// Tell the handler that the round is over.
    OnTick,
    /// The round is over.
    Done(TickResult),
    Fault(ServerFault),
}

/// What a [`ServerTickStep`] stands for.
pub enum ServerTickStepView {
    Accept,
    Flush(usize),
    NeedRead(usize, int),
    Request { conn_id: usize, is_close: bool, peer_addr: Option<Seq<char>>, req: RequestView },
    OnTick,
    Done(TickResult),
    Fault(ServerFault),
}

impl View for ServerTickStep {
    type V = ServerTickStepView;

    open spec fn view(&self) -> ServerTickStepView {
        match *self {
            ServerTickStep::Accept => ServerTickStepView::Accept,
            ServerTickStep::Flush(id) => ServerTickStepView::Flush(id),
            ServerTickStep::NeedRead(id, n) => ServerTickStepView::NeedRead(id, n as int),
            ServerTickStep::Request(ctx, req) => ServerTickStepView::Request {
                conn_id: ctx.conn_id,
                is_close: ctx.is_close,
                peer_addr: text_view(ctx.peer_addr),
                req: req@,
            },
            ServerTickStep::OnTick => ServerTickStepView::OnTick,
            ServerTickStep::Done(tick) => ServerTickStepView::Done(tick),
            ServerTickStep::Fault(fault) => ServerTickStepView::Fault(fault),
        }
    }
}

/// A server with a handler.
pub struct HttpServer<S, H> {
    cfg: HttpServerConfig,
    tls: TlsChoice,
    conns: HttpServerConns<S>,
    handler: H,
    accepted: bool,
    tick: TickResult,
    read: TickResult,
    ids: Vec<usize>,
    at: usize,
    remove: Vec<usize>,
}

/// What an [`HttpServer`] holds, apart from its handler.
pub struct ServerView<S> {
    pub max_body: Option<usize>,
    /// How it is reached.
    pub tls: TlsView,
    pub conns: ConnsView<S>,
    /// Whether a connection was taken in during this round.
    pub accepted: bool,
    /// What the round amounts to, without the looks at the connections.
    pub tick: TickResult,
    /// What the looks at the connections amount to.
    pub read: TickResult,
    /// The connections that are looked at in this round.
    pub ids: Seq<usize>,
    /// The one that is looked at now.
    pub at: int,
    /// Those that are to be dropped.
    pub remove: Seq<usize>,
}

/// A table without some of its numbers.
pub open spec fn without<V>(map: Map<usize, V>, ids: Seq<usize>) -> Map<usize, V>
    decreases ids.len(),
{
    if ids.len() == 0 {
        map
    } else {
        without(map, ids.drop_last()).remove(ids.last())
    }
}

/// The turn where the next connection is looked at, if there is one; else those that failed are
/// dropped, and the handler is told that the round is over.
pub open spec fn next_conn_turn<S>(s: ServerView<S>) -> (ServerTickStepView, ServerView<S>) {
    if s.at < s.ids.len() {
        (ServerTickStepView::Flush(s.ids[s.at]), s)
    } else {
        (
            ServerTickStepView::OnTick,
            ServerView {
                conns: ConnsView { conns: without(s.conns.conns, s.remove), ..s.conns },
                tick: s.tick.merged(s.read),
                ..s
            },
        )
    }
}

/// What a look at a connection comes to.
pub open spec fn conn_turn<S>(
    s: ServerView<S>,
    event: ConnReadEvent,
    peer: Option<Seq<char>>,
) -> (ServerTickStepView, ServerView<S>) {
    let id = s.ids[s.at];
    let (step, conn) = server_read_turn(s.conns.conns[id], event, peer);
    let next = ServerView {
        conns: ConnsView { conns: s.conns.conns.insert(id, conn), ..s.conns },
        ..s
    };
    match step {
        ServerStepView::Flush => (ServerTickStepView::Flush(id), next),
        ServerStepView::NeedRead(n) => (ServerTickStepView::NeedRead(id, n), next),
        ServerStepView::NotReady => next_conn_turn(ServerView { at: s.at + 1, ..next }),
        ServerStepView::Done(req) => (
            ServerTickStepView::Request { conn_id: id, is_close: false, peer_addr: peer, req },
            next,
        ),
        ServerStepView::Failed(_) => next_conn_turn(
            ServerView {
                remove: s.remove.push(id),
                read: s.read.merged(TickResult::Busy),
                at: s.at + 1,
                ..next
            },
        ),
        ServerStepView::Fault(fault) => (ServerTickStepView::Fault(fault), next),
    }
}

/// The turn behind a request that the handler was told of.
pub open spec fn handled_turn<S>(s: ServerView<S>, is_close: bool) -> (
    ServerTickStepView,
    ServerView<S>,
) {
    let id = s.ids[s.at];
    let conns = if is_close {
        s.conns.conns.insert(id, ConnView { closed: true, ..s.conns.conns[id] })
    } else {
        s.conns.conns
    };
    next_conn_turn(
        ServerView {
            conns: ConnsView { conns, ..s.conns },
            read: s.read.merged(TickResult::Busy),
            at: s.at + 1,
            ..s
        },
    )
}

/// Whether, no more clients having opened a stream, `after` is what becomes of a server, and `step`
/// the next thing to do: the connections are looked at, the oldest first.
pub open spec fn looks_at_conns<S>(
    s: ServerView<S>,
    tick: TickResult,
    step: ServerTickStepView,
    after: ServerView<S>,
) -> bool {
    &&& ids_of(s.conns.conns, after.ids)
    &&& (step, after) == next_conn_turn(
        ServerView {
            tick,
            read: TickResult::Idle,
            ids: after.ids,
            at: 0,
            remove: Seq::empty(),
            ..s
        },
    )
}

/// Whether an event makes `after` of a server, and `step` the next thing to do.
pub open spec fn server_ticks<S>(
    s: ServerView<S>,
    event: ServerTickEvent<S>,
    step: ServerTickStepView,
    after: ServerView<S>,
) -> bool {
    match event {
        ServerTickEvent::Start => {
            step is Accept && after == (ServerView { accepted: false, ..s })
        },
        ServerTickEvent::Accepted(stream) => {
            &&& step is Accept
            &&& after == (ServerView {
                conns: with_conn(
                    s.conns,
                    fresh_conn(uri_parts("server"@)->0, stream, s.max_body),
                ),
                accepted: true,
                ..s
            })
        },
        ServerTickEvent::NoMore => looks_at_conns(
            s,
            if s.accepted {
                TickResult::Busy
            } else {
                TickResult::Idle
            },
            step,
            after,
        ),
        ServerTickEvent::AcceptFailed => looks_at_conns(s, TickResult::Error, step, after),
        ServerTickEvent::Conn(event, peer) => (step, after) == conn_turn(
            s,
            event,
            text_view(peer),
        ),
        ServerTickEvent::Handled(is_close) => (step, after) == handled_turn(s, is_close),
        ServerTickEvent::Ticked(tick) => {
            &&& step == ServerTickStepView::Done(s.tick.merged(tick))
            &&& after == (ServerView { tick: s.tick.merged(tick), ..s })
        },
    }
}

/// A server without connections.
pub open spec fn new_server<S>(cfg: HttpServerConfig) -> ServerView<S> {
    ServerView {
        max_body: cfg.max_body_length,
        tls: tls_of(cfg),
        conns: ConnsView { seq: 0, conns: Map::empty() },
        accepted: false,
        tick: TickResult::Idle,
        read: TickResult::Idle,
        ids: Seq::empty(),
        at: 0,
        remove: Seq::empty(),
    }
}

impl<S, H> View for HttpServer<S, H> {
    type V = ServerView<S>;

    closed spec fn view(&self) -> ServerView<S> {
        ServerView {
            max_body: self.cfg.max_body_length,
            tls: self.tls@,
            conns: self.conns@,
            accepted: self.accepted,
            tick: self.tick,
            read: self.read,
            ids: self.ids@,
            at: self.at as int,
            remove: self.remove@,
        }
    }
}

impl<S, H> HttpServer<S, H> {
    pub closed spec fn wf(&self) -> bool {
        self.conns.wf()
    }

    /// The handler of the server.
    pub closed spec fn told(&self) -> H {
        self.handler
    }

    /// A server without connections.
    pub fn new(cfg: HttpServerConfig, handler: H) -> (r: Self)
        ensures
            r.wf(),
            r.told() == handler,
            r@ == new_server::<S>(cfg),
    {
        let tls = tls_choice(&cfg);
        HttpServer {
            cfg,
            tls,
            conns: HttpServerConns::new(),
            handler,
            accepted: false,
            tick: TickResult::Idle,
            read: TickResult::Idle,
            ids: Vec::new(),
            at: 0,
            remove: Vec::new(),
        }
    }

    /// The handler.
    pub fn handler(&mut self) -> (r: &mut H)
        requires
            old(self).wf(),
        ensures
            *r == old(self).told(),
            final(self).told() == *final(r),
            final(self)@ == old(self)@,
            final(self).wf(),
    {
        &mut self.handler
    }

    /// How the server is reached.
    pub fn tls(&self) -> (r: &TlsChoice)
        ensures
            r@ == self@.tls,
    {
        &self.tls
    }

    /// The handler and the connections.
    pub fn handler_and_conns(&mut self) -> (r: (&mut H, &mut HttpServerConns<S>))
        requires
            old(self).wf(),
        ensures
            *r.0 == old(self).told(),
            final(self).told() == *final(r.0),
            r.1.wf(),
            r.1@ == old(self)@.conns,
            final(self)@ == (ServerView { conns: final(r.1)@, ..old(self)@ }),
            final(r.1).wf() ==> final(self).wf(),
    {
        (&mut self.handler, &mut self.conns)
    }

    fn next_conn(&mut self) -> (r: ServerTickStep)
        requires
            old(self).wf(),
        ensures
            final(self).wf(),
            final(self).told() == old(self).told(),
            (r@, final(self)@) == next_conn_turn(old(self)@),
    {
        if self.at < self.ids.len() {
            return ServerTickStep::Flush(self.ids[self.at]);
        }
        let ghost before = self@;
        let mut i: usize = 0;
        assert(self.remove@.take(0) =~= Seq::<usize>::empty());
        while i < self.remove.len()
            invariant
                self.wf(),
                i <= self.remove@.len(),
                self.told() == old(self).told(),
                before == old(self)@,
                self@ == (ServerView {
                    conns: ConnsView {
                        conns: without(before.conns.conns, before.remove.take(i as int)),
                        ..before.conns
                    },
                    ..before
                }),
            decreases self.remove@.len() - i,
        {
            let id = self.remove[i];
            let _ = self.conns.remove_conn(id);
            assert(before.remove.take(i as int + 1).drop_last() =~= before.remove.take(i as int));
            i += 1;
        }
        assert(before.remove.take(i as int) =~= before.remove);
        let read = self.read;
        self.tick.bitor_assign(read);
        ServerTickStep::OnTick
    }

    fn look_at_conns(&mut self, tick: TickResult) -> (r: ServerTickStep)
        requires
            old(self).wf(),
        ensures
            final(self).wf(),
            final(self).told() == old(self).told(),
            looks_at_conns(old(self)@, tick, r@, final(self)@),
    {
        self.ids = self.conns.ids();
        self.at = 0;
        self.remove = Vec::new();
        self.tick = tick;
        self.read = TickResult::Idle;
        self.next_conn()
    }

    fn look_at_conn(&mut self, event: ConnReadEvent, peer: Option<String>) -> (r: ServerTickStep)
        requires
            old(self).wf(),
            at_conn(old(self)@),
            event_fits(
                event,
                request_room(
                    old(self)@.conns.conns[old(self)@.ids[old(self)@.at]].header,
                    old(self)@.conns.conns[old(self)@.ids[old(self)@.at]].request,
                ),
            ),
        ensures
            final(self).wf(),
            final(self).told() == old(self).told(),
            (r@, final(self)@) == conn_turn(old(self)@, event, text_view(peer)),
    {
        let id = self.ids[self.at];
        let peer_addr = match &peer {
            Some(text) => Some(text.clone()),
            None => None,
        };
        let step = match self.conns.conn(id) {
            Some(conn) => conn.read_request(event, peer),
            None => ServerStep::NotReady,
        };
        match step {
            ServerStep::Flush => ServerTickStep::Flush(id),
            ServerStep::NeedRead(n) => ServerTickStep::NeedRead(id, n),
            ServerStep::NotReady => {
                assert(self.at < self.ids.len());
                self.at = self.at + 1;
                self.next_conn()
            },
            ServerStep::Done(req) => {
                let ctx = HttpServerContext { conn_id: id, is_close: false, peer_addr };
                ServerTickStep::Request(ctx, req)
            },
            ServerStep::Failed(_) => {
                self.remove.push(id);
                self.read.to_busy();
                assert(self.at < self.ids.len());
                self.at = self.at + 1;
                self.next_conn()
            },
            ServerStep::Fault(fault) => ServerTickStep::Fault(fault),
        }
    }

    fn after_request(&mut self, is_close: bool) -> (r: ServerTickStep)
        requires
            old(self).wf(),
            at_conn(old(self)@),
        ensures
            final(self).wf(),
            final(self).told() == old(self).told(),
            (r@, final(self)@) == handled_turn(old(self)@, is_close),
    {
        if is_close {
            let id = self.ids[self.at];
            match self.conns.conn(id) {
                Some(conn) => conn.try_close(),
                None => {},
            }
        }
        self.read.to_busy();
        assert(self.at < self.ids.len());
        self.at = self.at + 1;
        self.next_conn()
    }

    /// Goes through a round: takes in the connections that clients have opened, looks at all of
    /// them for requests, and tells the handler.
    pub fn tick(&mut self, event: ServerTickEvent<S>) -> (r: ServerTickStep)
        requires
            old(self).wf(),
            server_event_ok(old(self)@, event),
        ensures
            final(self).wf(),
            final(self).told() == old(self).told(),
            server_ticks(old(self)@, event, r@, final(self)@),
    {
        match event {
            ServerTickEvent::Start => {
                self.accepted = false;
                ServerTickStep::Accept
            },
            ServerTickEvent::Accepted(stream) => {
                let conn = HttpConnServer::accept(stream, self.cfg.max_body_length);
                self.conns.add_conn(conn);
                self.accepted = true;
                ServerTickStep::Accept
            },
            ServerTickEvent::NoMore => {
                let tick = if self.accepted {
                    TickResult::Busy
                } else {
                    TickResult::Idle
                };
                self.look_at_conns(tick)
            },
            ServerTickEvent::AcceptFailed => self.look_at_conns(TickResult::Error),
            ServerTickEvent::Conn(event, peer) => self.look_at_conn(event, peer),
            ServerTickEvent::Handled(is_close) => self.after_request(is_close),
            ServerTickEvent::Ticked(tick) => {
                self.tick.bitor_assign(tick);
                ServerTickStep::Done(self.tick)
            },
        }
    }
}

/// Whether a connection is being looked at.
pub open spec fn at_conn<S>(s: ServerView<S>) -> bool {
    0 <= s.at < s.ids.len() && s.conns.conns.contains_key(s.ids[s.at])
}

/// Whether an event can come where a server is.
pub open spec fn server_event_ok<S>(s: ServerView<S>, event: ServerTickEvent<S>) -> bool {
    match event {
        ServerTickEvent::Accepted(_) => s.conns.seq < usize::MAX,
        ServerTickEvent::Conn(e, _) => at_conn(s) && event_fits(
            e,
            request_room(
                s.conns.conns[s.ids[s.at]].header,
                s.conns.conns[s.ids[s.at]].request,
            ),
        ),
        ServerTickEvent::Handled(_) => at_conn(s),
        _ => true,
    }
}

} // verus!
