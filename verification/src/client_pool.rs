//! Connections of one client to one address, of which the least busy is used next.
use crate::conn::{
    client_read_turn, event_fits, fresh_conn, write_request_turn, ClientFault, ClientStep,
    ClientStepView, ConnReadEvent, ConnView, ConnWriteEvent, ConnWriteStep, ConnWriteStepView,
    HttpConnClient, HttpConnError, HttpConnErrorView,
};
use crate::request_build::{is_message_of, HttpRequestBuilder};
use crate::response::{HttpResponse, ResponseView};
use crate::response_read::response_room;
use crate::stream::IOError;
use crate::uri::{Uri, UriView};
use vstd::multiset::Multiset;
use vstd::prelude::*;
use vstd::seq_lib::{group_to_multiset_ensures, to_multiset_build, to_multiset_insert};

verus! {

/// What the connections of a list hold.
pub open spec fn conn_views<S>(clients: Seq<HttpConnClient<S>>) -> Seq<ConnView<S>> {
    clients.map_values(|c: HttpConnClient<S>| c@)
}

/// Whether the connections of a list are in order.
pub open spec fn conns_wf<S>(clients: Seq<HttpConnClient<S>>) -> bool {
    forall|i: int| 0 <= i < clients.len() ==> (#[trigger] clients[i]).wf()
}

/// Whether the busiest connections come first.
pub open spec fn busiest_first<S>(clients: Seq<ConnView<S>>) -> bool {
    forall|i: int, j: int|
        0 <= i <= j < clients.len() ==> (#[trigger] clients[i]).inflight.len() >= (
        #[trigger] clients[j]).inflight.len()
}

proof fn lemma_no_conns<S>()
    ensures
        Seq::<ConnView<S>>::empty().to_multiset() == Multiset::<ConnView<S>>::empty(),
{
    broadcast use group_to_multiset_ensures;

    assert(Seq::<ConnView<S>>::empty().to_multiset() =~= Multiset::<ConnView<S>>::empty());
}

proof fn lemma_insert_in_order<S>(clients: Seq<ConnView<S>>, at: int, conn: ConnView<S>)
    requires
        busiest_first(clients),
        0 <= at <= clients.len(),
        at > 0 ==> clients[at - 1].inflight.len() >= conn.inflight.len(),
        at < clients.len() ==> clients[at].inflight.len() <= conn.inflight.len(),
    ensures
        busiest_first(clients.insert(at, conn)),
{
    let all = clients.insert(at, conn);
    assert forall|i: int, j: int| 0 <= i <= j < all.len() implies (
    #[trigger] all[i]).inflight.len() >= (#[trigger] all[j]).inflight.len() by {
        if i < at && j == at {
            assert(clients[i].inflight.len() >= clients[at - 1].inflight.len());
        }
        if i == at && j > at {
            assert(clients[at].inflight.len() >= clients[j - 1].inflight.len());
        }
    }
}

/// Puts the busiest connections first.
fn sort_clients<S>(clients: Vec<HttpConnClient<S>>) -> (r: Vec<HttpConnClient<S>>)
    requires
        conns_wf(clients@),
    ensures
        conns_wf(r@),
        busiest_first(conn_views(r@)),
        conn_views(r@).to_multiset() == conn_views(clients@).to_multiset(),
        r@.len() == clients@.len(),
{
    let mut left = clients;
    let mut sorted: Vec<HttpConnClient<S>> = Vec::new();
    let ghost all = conn_views(clients@).to_multiset();
    proof {
        lemma_no_conns::<S>();
        assert(conn_views(sorted@) =~= Seq::<ConnView<S>>::empty());
        assert(all =~= conn_views(left@).to_multiset().add(conn_views(sorted@).to_multiset()));
    }
    while left.len() > 0
        invariant
            conns_wf(left@),
            conns_wf(sorted@),
            busiest_first(conn_views(sorted@)),
            all == conn_views(left@).to_multiset().add(conn_views(sorted@).to_multiset()),
            left@.len() + sorted@.len() == clients@.len(),
            all == conn_views(clients@).to_multiset(),
        decreases left@.len(),
    {
        let ghost before_pop = left@;
        let client = match left.pop() {
            Some(client) => client,
            None => return sorted,
        };
        assert(before_pop =~= left@.push(client));
        let load = client.load();
        let mut at: usize = 0;
        while at < sorted.len() && sorted[at].load() >= load
            invariant
                at <= sorted@.len(),
                load == client@.inflight.len(),
                at > 0 ==> sorted@[at - 1]@.inflight.len() >= load,
            decreases sorted@.len() - at,
        {
            at += 1;
        }
        let ghost before = conn_views(sorted@);
        let ghost view = client@;
        sorted.insert(at, client);
        proof {
            assert(conn_views(sorted@) =~= before.insert(at as int, view));
            to_multiset_insert(before, at as int, view);
            lemma_insert_in_order(before, at as int, view);
            assert(conn_views(left@.push(client)) =~= conn_views(left@).push(view));
            to_multiset_build(conn_views(left@), view);
            assert(all =~= conn_views(left@).to_multiset().add(
                conn_views(sorted@).to_multiset(),
            ));
        }
    }
    proof {
        lemma_no_conns::<S>();
        assert(conn_views(left@) =~= Seq::<ConnView<S>>::empty());
        assert(all =~= conn_views(sorted@).to_multiset());
    }
    sorted
}

/// Connections of one client to one address.
pub struct HttpConnClientPool<S> {
    pub name: String,
    pub uri: Uri,
    clients: Vec<HttpConnClient<S>>,
    /// The connection that a request is being written to.
    current: Option<HttpConnClient<S>>,
    /// The connection that a response is looked for on.
    at: usize,
    /// What went wrong with it.
    broken: Option<HttpConnError>,
}

/// What an [`HttpConnClientPool`] holds.
pub struct PoolView<S> {
    pub name: Seq<char>,
    pub uri: UriView,
    pub clients: Seq<ConnView<S>>,
    pub current: Option<ConnView<S>>,
    pub at: int,
    pub broken: Option<HttpConnErrorView>,
}

impl<S> View for HttpConnClientPool<S> {
    type V = PoolView<S>;

    closed spec fn view(&self) -> PoolView<S> {
        PoolView {
            name: self.name@,
            uri: self.uri@,
            clients: conn_views(self.clients@),
            current: match self.current {
                Some(conn) => Some(conn@),
                None => None,
            },
            at: self.at as int,
            broken: match self.broken {
                Some(e) => Some(e@),
                None => None,
            },
        }
    }
}

/// What has come of what was asked for last, or a new wish to send a request.
pub enum PoolWriteEvent<S> {
    /// A request is to be sent, and nothing was written to the next connection for this long.
    Start(u64),
    Probed(Result<usize, IOError>),
    Sent(Result<(), IOError>),
    /// Opening a stream to the address gave this.
    Reconnected(Result<S, HttpConnError>),
}

/// What is to be done next to send a request, on the connection that is in use.
pub enum PoolWriteStep {
    Probe,
    Send,
    /// Open another stream to the address.
    Reconnect,
    Done,
    Failed(HttpConnError),
}

/// What a [`PoolWriteStep`] stands for.
pub enum PoolWriteStepView {
    Probe,
    Send,
    Reconnect,
    Done,
    Failed(HttpConnErrorView),
}

impl View for PoolWriteStep {
    type V = PoolWriteStepView;

    open spec fn view(&self) -> PoolWriteStepView {
        match *self {
            PoolWriteStep::Probe => PoolWriteStepView::Probe,
            PoolWriteStep::Send => PoolWriteStepView::Send,
            PoolWriteStep::Reconnect => PoolWriteStepView::Reconnect,
            PoolWriteStep::Done => PoolWriteStepView::Done,
            PoolWriteStep::Failed(e) => PoolWriteStepView::Failed(e@),
        }
    }
}

/// Whether `after` is `p` with a connection put back and the busiest put first.
pub open spec fn put_in_order<S>(p: PoolView<S>, conn: ConnView<S>, after: PoolView<S>) -> bool {
    &&& after == (PoolView { current: None, clients: after.clients, ..p })
    &&& after.clients.to_multiset() == p.clients.push(conn).to_multiset()
    &&& busiest_first(after.clients)
}

/// Whether what writing to a connection came to makes `after` of a pool, and `step` the next thing
/// to do: the connection stays in use as long as something is to be done with it, is replaced
/// where the other side has closed it, and is put back otherwise.
pub open spec fn pool_goes_on<S>(
    p: PoolView<S>,
    turn: (ConnWriteStepView, ConnView<S>),
    step: PoolWriteStepView,
    after: PoolView<S>,
) -> bool {
    let (done, conn) = turn;
    let in_use = PoolView { current: Some(conn), ..p };
    match done {
        ConnWriteStepView::Probe => step is Probe && after == in_use,
        ConnWriteStepView::Send => step is Send && after == in_use,
        ConnWriteStepView::Done => step is Done && put_in_order(p, conn, after),
        ConnWriteStepView::Failed(HttpConnErrorView::EOF) => step is Reconnect && after == in_use,
        ConnWriteStepView::Failed(e) => step == PoolWriteStepView::Failed(e) && put_in_order(
            p,
            conn,
            after,
        ),
    }
}

/// Whether an event makes `after` of a pool, and `step` the next thing to do. The request goes to
/// the last connection; `bytes` are what it is written as.
pub open spec fn pool_writes<S>(
    p: PoolView<S>,
    req_id: usize,
    event: PoolWriteEvent<S>,
    bytes: Seq<u8>,
    step: PoolWriteStepView,
    after: PoolView<S>,
) -> bool {
    let released = PoolView { current: None, ..p };
    match event {
        PoolWriteEvent::Start(idle) => pool_goes_on(
            PoolView { clients: p.clients.drop_last(), ..p },
            write_request_turn(p.clients.last(), req_id, idle, ConnWriteEvent::Start, bytes),
            step,
            after,
        ),
        PoolWriteEvent::Probed(outcome) => pool_goes_on(
            released,
            write_request_turn(p.current->0, req_id, 0, ConnWriteEvent::Probed(outcome), bytes),
            step,
            after,
        ),
        PoolWriteEvent::Sent(outcome) => pool_goes_on(
            released,
            write_request_turn(p.current->0, req_id, 0, ConnWriteEvent::Sent(outcome), bytes),
            step,
            after,
        ),
        PoolWriteEvent::Reconnected(Ok(stream)) => pool_goes_on(
            released,
            write_request_turn(
                fresh_conn(p.uri, stream, None),
                req_id,
                0,
                ConnWriteEvent::Start,
                bytes,
            ),
            step,
            after,
        ),
        PoolWriteEvent::Reconnected(Err(e)) => {
            &&& step == PoolWriteStepView::Failed(e@)
            &&& after == (PoolView { clients: p.clients.push(p.current->0), ..released })
        },
    }
}

/// Whether an event is that no stream to the address could be opened; nothing is written then.
pub open spec fn gave_up<S>(event: PoolWriteEvent<S>) -> bool {
    event matches PoolWriteEvent::Reconnected(Err(_))
}

/// What has come of what was asked for last, or a new wish for a response.
pub enum PoolReadEvent<S> {
    Start,
    Conn(ConnReadEvent),
    /// Opening a stream to the address gave this.
    Reconnected(Result<S, HttpConnError>),
}

/// What is to be done next to read a response; a number tells on which connection.
pub enum PoolReadStep {
    Flush(usize),
    NeedRead(usize, usize),
    /// Open another stream to the address.
    Reconnect(usize),
    Done(usize, HttpResponse),
    Failed(HttpConnError),
    Fault(ClientFault),
}

/// What a [`PoolReadStep`] stands for.
pub enum PoolReadStepView {
    Flush(int),
    NeedRead(int, int),
    Reconnect(int),
    Done(usize, ResponseView),
    Failed(HttpConnErrorView),
    Fault(ClientStepView),
}

impl View for PoolReadStep {
    type V = PoolReadStepView;

    open spec fn view(&self) -> PoolReadStepView {
        match *self {
            PoolReadStep::Flush(i) => PoolReadStepView::Flush(i as int),
            PoolReadStep::NeedRead(i, n) => PoolReadStepView::NeedRead(i as int, n as int),
            PoolReadStep::Reconnect(i) => PoolReadStepView::Reconnect(i as int),
            PoolReadStep::Done(id, response) => PoolReadStepView::Done(id, response@),
            PoolReadStep::Failed(e) => PoolReadStepView::Failed(e@),
            PoolReadStep::Fault(fault) => PoolReadStepView::Fault(ClientStep::Fault(fault)@),
        }
    }
}

/// The turn where the connection at `p.at` is looked at next, if there is one.
pub open spec fn look_turn<S>(p: PoolView<S>) -> (PoolReadStepView, PoolView<S>) {
    if p.at < p.clients.len() {
        (PoolReadStepView::Flush(p.at), p)
    } else {
        (PoolReadStepView::Failed(HttpConnErrorView::WouldBlock), p)
    }
}

/// What an event comes to where a response is wanted: the connections are looked at in turn, and
/// one that fails is replaced.
pub open spec fn pool_read_turn<S>(p: PoolView<S>, event: PoolReadEvent<S>) -> (
    PoolReadStepView,
    PoolView<S>,
) {
    match event {
        PoolReadEvent::Start => look_turn(PoolView { at: 0, ..p }),
        PoolReadEvent::Conn(event) => {
            let (step, conn) = client_read_turn(p.clients[p.at], event);
            let next = PoolView { clients: p.clients.update(p.at, conn), ..p };
            match step {
                ClientStepView::Flush => (PoolReadStepView::Flush(p.at), next),
                ClientStepView::NeedRead(n) => (PoolReadStepView::NeedRead(p.at, n), next),
                ClientStepView::Done(id, response) => (PoolReadStepView::Done(id, response), next),
                ClientStepView::Failed(HttpConnErrorView::WouldBlock) => look_turn(
                    PoolView { at: p.at + 1, ..next },
                ),
                ClientStepView::Failed(e) => (
                    PoolReadStepView::Reconnect(p.at),
                    PoolView { broken: Some(e), ..next },
                ),
                fault => (PoolReadStepView::Fault(fault), next),
            }
        },
        PoolReadEvent::Reconnected(Err(e)) => (
            PoolReadStepView::Failed(e@),
            PoolView { broken: None, ..p },
        ),
        PoolReadEvent::Reconnected(Ok(stream)) => (
            PoolReadStepView::Failed(p.broken->0),
            PoolView {
                broken: None,
                clients: p.clients.update(p.at, fresh_conn(p.uri, stream, None)),
                ..p
            },
        ),
    }
}

/// How many requests are not answered yet, on all connections.
pub open spec fn total_inflight<S>(clients: Seq<ConnView<S>>) -> nat
    decreases clients.len(),
{
    if clients.len() == 0 {
        0
    } else {
        total_inflight(clients.drop_last()) + clients.last().inflight.len()
    }
}

impl<S> HttpConnClientPool<S> {
    pub open spec fn wf(&self) -> bool {
        self.all_wf() && self@.at >= 0
    }

    pub closed spec fn all_wf(&self) -> bool {
        &&& conns_wf(self.clients@)
        &&& self.current matches Some(conn) ==> conn.wf()
    }

    /// The pool of connections to an address.
    pub fn new(clients: Vec<HttpConnClient<S>>, uri: &Uri) -> (r: Self)
        requires
            conns_wf(clients@),
        ensures
            r.wf(),
            r@ == (PoolView {
                name: uri@.shown,
                uri: uri@,
                clients: conn_views(clients@),
                current: None,
                at: 0,
                broken: None,
            }),
    {
        let name = uri.to_string();
        HttpConnClientPool {
            name,
            uri: uri.clone(),
            clients,
            current: None,
            at: 0,
            broken: None,
        }
    }

    /// How many connections are not in use.
    pub fn len(&self) -> (r: usize)
        ensures
            r == self@.clients.len(),
    {
        let r = self.clients.len();
        assert(conn_views(self.clients@).len() == r);
        r
    }

    /// The connection that a request is being written to.
    pub fn current(&mut self) -> (r: Option<&mut HttpConnClient<S>>)
        requires
            old(self).wf(),
        ensures
            match r {
                Some(conn) => {
                    &&& old(self)@.current == Some(conn@)
                    &&& conn.wf()
                    &&& final(self)@ == (PoolView { current: Some(final(conn)@), ..old(self)@ })
                    &&& final(conn).wf() ==> final(self).wf()
                },
                None => {
                    &&& old(self)@.current is None
                    &&& final(self)@ == old(self)@
                    &&& final(self).wf()
                },
            },
    {
        match &mut self.current {
            Some(conn) => Some(conn),
            None => None,
        }
    }

    /// One of the connections that are not in use.
    pub fn client(&mut self, i: usize) -> (r: &mut HttpConnClient<S>)
        requires
            old(self).wf(),
            i < old(self)@.clients.len(),
        ensures
            r@ == old(self)@.clients[i as int],
            r.wf(),
            final(self)@ == (PoolView {
                clients: old(self)@.clients.update(i as int, final(r)@),
                ..old(self)@
            }),
            final(r).wf() ==> final(self).wf(),
    {
        proof {
            assert(conn_views(self.clients@).len() == self.clients@.len());
            let clients = self.clients@;
            assert forall|c: HttpConnClient<S>| #[trigger]
                conn_views(clients.update(i as int, c)) == conn_views(clients).update(
                i as int,
                c@,
            ) by {
                assert(conn_views(clients.update(i as int, c)) =~= conn_views(clients).update(
                    i as int,
                    c@,
                ));
            }
        }
        &mut self.clients[i]
    }

    fn go_on(&mut self, step: ConnWriteStep, conn: HttpConnClient<S>) -> (r: PoolWriteStep)
        requires
            old(self).wf(),
            old(self)@.current is None,
            conn.wf(),
        ensures
            final(self).wf(),
            pool_goes_on(old(self)@, (step@, conn@), r@, final(self)@),
    {
        match step {
            ConnWriteStep::Probe => {
                self.current = Some(conn);
                PoolWriteStep::Probe
            },
            ConnWriteStep::Send => {
                self.current = Some(conn);
                PoolWriteStep::Send
            },
            ConnWriteStep::Failed(HttpConnError::EOF) => {
                self.current = Some(conn);
                PoolWriteStep::Reconnect
            },
            ConnWriteStep::Done => {
                self.put_back(conn);
                PoolWriteStep::Done
            },
            ConnWriteStep::Failed(e) => {
                self.put_back(conn);
                PoolWriteStep::Failed(e)
            },
        }
    }

    fn put_back(&mut self, conn: HttpConnClient<S>)
        requires
            old(self).wf(),
            old(self)@.current is None,
            conn.wf(),
        ensures
            final(self).wf(),
            put_in_order(old(self)@, conn@, final(self)@),
    {
        let mut clients: Vec<HttpConnClient<S>> = Vec::new();
        core::mem::swap(&mut clients, &mut self.clients);
        clients.push(conn);
        assert(conn_views(clients@) =~= old(self)@.clients.push(conn@));
        self.clients = sort_clients(clients);
    }

    /// Sends a request over the last connection, which is the least busy one, with a number to
    /// know it by.
    pub fn write_request(
        &mut self,
        req_id: usize,
        req: &HttpRequestBuilder,
        event: PoolWriteEvent<S>,
    ) -> (r: PoolWriteStep)
        requires
            old(self).wf(),
            event is Start ==> old(self)@.current is None && old(self)@.clients.len() > 0,
            !(event is Start) ==> old(self)@.current is Some,
        ensures
            final(self).wf(),
            exists|bytes: Seq<u8>|
                (is_message_of(req@, bytes) || gave_up(event)) && #[trigger] pool_writes(
                    old(self)@,
                    req_id,
                    event,
                    bytes,
                    r@,
                    final(self)@,
                ),
    {
        let ghost before = self@;
        let ghost asked = event;
        let (conn, idle, event) = match event {
            PoolWriteEvent::Start(idle) => {
                assert(conn_views(self.clients@).len() == self.clients@.len());
                match self.clients.pop() {
                    Some(conn) => {
                        assert(conn_views(self.clients@) =~= before.clients.drop_last());
                        assert(conn@ == before.clients.last());
                        (conn, idle, ConnWriteEvent::Start)
                    },
                    None => return PoolWriteStep::Done,
                }
            },
            PoolWriteEvent::Probed(outcome) => match self.current.take() {
                Some(conn) => (conn, 0, ConnWriteEvent::Probed(outcome)),
                None => return PoolWriteStep::Done,
            },
            PoolWriteEvent::Sent(outcome) => match self.current.take() {
                Some(conn) => (conn, 0, ConnWriteEvent::Sent(outcome)),
                None => return PoolWriteStep::Done,
            },
            PoolWriteEvent::Reconnected(Ok(stream)) => {
                self.current = None;
                let conn = HttpConnClient::connect(self.uri.clone(), stream);
                (conn, 0, ConnWriteEvent::Start)
            },
            PoolWriteEvent::Reconnected(Err(e)) => {
                if let Some(conn) = self.current.take() {
                    self.clients.push(conn);
                    assert(conn_views(self.clients@) =~= before.clients.push(before.current->0));
                }
                let r = PoolWriteStep::Failed(e);
                assert(pool_writes(before, req_id, asked, Seq::empty(), r@, self@));
                return r;
            },
        };
        let mut conn = conn;
        let ghost conn_before = conn@;
        let ghost conn_event = event;
        let step = conn.write_request(req_id, req, idle, event);
        let ghost bytes = choose|bytes: Seq<u8>|
            is_message_of(req@, bytes) && (step@, conn@) == #[trigger] write_request_turn(
                conn_before,
                req_id,
                idle,
                conn_event,
                bytes,
            );
        let ghost step_view = step@;
        let ghost conn_view = conn@;
        let r = self.go_on(step, conn);
        assert((step_view, conn_view) == write_request_turn(
            conn_before,
            req_id,
            idle,
            conn_event,
            bytes,
        ));
        assert(pool_writes(before, req_id, asked, bytes, r@, self@));
        r
    }

    /// Reads a response, and tells which request it answers.
    pub fn read_response(&mut self, event: PoolReadEvent<S>) -> (r: PoolReadStep)
        requires
            old(self).wf(),
            event matches PoolReadEvent::Conn(e) ==> {
                &&& old(self)@.at < old(self)@.clients.len()
                &&& old(self)@.clients[old(self)@.at].request_cnt < usize::MAX
                &&& event_fits(
                    e,
                    response_room(
                        old(self)@.clients[old(self)@.at].header,
                        old(self)@.clients[old(self)@.at].response,
                    ),
                )
            },
            event is Reconnected ==> old(self)@.at < old(self)@.clients.len()
                && old(self)@.broken is Some,
        ensures
            final(self).wf(),
            (r@, final(self)@) == pool_read_turn(old(self)@, event),
    {
        let ghost before = self@;
        assert(conn_views(self.clients@).len() == self.clients@.len());
        match event {
            PoolReadEvent::Start => {
                self.at = 0;
                self.look()
            },
            PoolReadEvent::Conn(event) => {
                let at = self.at;
                let total = self.clients.len();
                let step = self.clients[at].read_response(event);
                assert(conn_views(self.clients@) =~= before.clients.update(
                    at as int,
                    self.clients@[at as int]@,
                ));
                match step {
                    ClientStep::Flush => PoolReadStep::Flush(at),
                    ClientStep::NeedRead(n) => PoolReadStep::NeedRead(at, n),
                    ClientStep::Done(id, response) => PoolReadStep::Done(id, response),
                    ClientStep::Failed(HttpConnError::WouldBlock) => {
                        assert(at < total);
                        self.at = at + 1;
                        self.look()
                    },
                    ClientStep::Failed(e) => {
                        self.broken = Some(e);
                        PoolReadStep::Reconnect(at)
                    },
                    ClientStep::Fault(fault) => PoolReadStep::Fault(fault),
                }
            },
            PoolReadEvent::Reconnected(Err(e)) => {
                self.broken = None;
                PoolReadStep::Failed(e)
            },
            PoolReadEvent::Reconnected(Ok(stream)) => {
                let conn = HttpConnClient::connect(self.uri.clone(), stream);
                let at = self.at;
                let ghost view = conn@;
                self.clients.set(at, conn);
                assert(conn_views(self.clients@) =~= before.clients.update(at as int, view));
                match self.broken.take() {
                    Some(e) => PoolReadStep::Failed(e),
                    None => PoolReadStep::Failed(HttpConnError::WouldBlock),
                }
            },
        }
    }

    fn look(&mut self) -> (r: PoolReadStep)
        requires
            old(self).wf(),
        ensures
            final(self).wf(),
            (r@, final(self)@) == look_turn(old(self)@),
    {
        assert(conn_views(self.clients@).len() == self.clients@.len());
        if self.at < self.clients.len() {
            PoolReadStep::Flush(self.at)
        } else {
            PoolReadStep::Failed(HttpConnError::WouldBlock)
        }
    }

    /// How many requests are not answered yet, on all connections that are not in use.
    pub fn inflight_len(&self) -> (r: usize)
        requires
            total_inflight(self@.clients) <= usize::MAX,
        ensures
            r == total_inflight(self@.clients),
    {
        let mut length: usize = 0;
        let mut i: usize = 0;
        let ghost all = self@.clients;
        assert(all.len() == self.clients@.len());
        assert(all.take(0) =~= Seq::<ConnView<S>>::empty());
        while i < self.clients.len()
            invariant
                i <= self.clients@.len(),
                all == conn_views(self.clients@),
                all.len() == self.clients@.len(),
                length == total_inflight(all.take(i as int)),
                total_inflight(all) <= usize::MAX,
            decreases self.clients@.len() - i,
        {
            proof {
                assert(all.take(i as int + 1).drop_last() =~= all.take(i as int));
                lemma_total_prefix(all, i as int + 1);
            }
            length += self.clients[i].load();
            i += 1;
        }
        assert(all.take(i as int) =~= all);
        length
    }
}

proof fn lemma_total_prefix<S>(clients: Seq<ConnView<S>>, n: int)
    requires
        0 <= n <= clients.len(),
    ensures
        total_inflight(clients.take(n)) <= total_inflight(clients),
    decreases clients.len() - n,
{
    if n < clients.len() {
        lemma_total_prefix(clients, n + 1);
        assert(clients.take(n + 1).drop_last() =~= clients.take(n));
    } else {
        assert(clients.take(n) =~= clients);
    }
}

} // verus!
