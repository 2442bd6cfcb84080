//! A client that keeps connections for later. Times are in nanoseconds since some moment in the
//! past.
use crate::conn::{fresh_conn, ConnView, HttpConnBlockingClient, HttpConnError, HttpConnErrorView};
use crate::conn_blocking::{send_turn, SendEvent, SendStep, SendStepView, TRIES};
use crate::conn_pool::{
    law_nothing_stale_is_taken, taken_out, ConnPool, ConnPoolGuard, ConnPoolView, GuardView,
};
use crate::request_build::{is_message_of, HttpRequestBuilder};
use crate::response::HttpResponse;
use crate::response_read::{response_room, ResponseFault};
use crate::stream::read_fits;
use crate::text::str_eq;
use crate::uri::{address, host_and_port_of, UriView};
use vstd::prelude::*;

verus! {

/// Connections that are not in use.
pub type BlockingPool<S> = ConnPoolView<HttpConnBlockingClient<S>>;

/// The pools of a client, each under the scheme, host and port that its connections lead to.
pub type PoolMap<S> = Map<Seq<char>, ConnPoolView<HttpConnBlockingClient<S>>>;

/// A client that keeps connections for later.
pub struct HttpClient<S> {
    idle_time: Option<u64>,
    conns: Vec<(String, ConnPool<HttpConnBlockingClient<S>>)>,
}

/// For how long a connection is kept.
pub const KEEP_TIME: u64 = 10_000_000_000;

/// The pools in a list, by their names.
pub open spec fn pools_in<S>(
    conns: Seq<(String, ConnPool<HttpConnBlockingClient<S>>)>,
) -> PoolMap<S>
    decreases conns.len(),
{
    if conns.len() == 0 {
        Map::empty()
    } else {
        pools_in(conns.drop_last()).insert(conns.last().0@, conns.last().1@)
    }
}

/// Whether no two pools of a list have the same name.
pub open spec fn names_differ<S>(
    conns: Seq<(String, ConnPool<HttpConnBlockingClient<S>>)>,
) -> bool {
    forall|i: int, j: int|
        0 <= i < j < conns.len() ==> (#[trigger] conns[i]).0@ != (#[trigger] conns[j]).0@
}

/// Whether the connections of a pool are in order.
pub open spec fn pool_wf<S>(pool: BlockingPool<S>) -> bool {
    forall|i: int| 0 <= i < pool.list.len() ==> (#[trigger] pool.list[i]).0.wf()
}

impl<S> View for HttpClient<S> {
    type V = PoolMap<S>;

    closed spec fn view(&self) -> PoolMap<S> {
        pools_in(self.conns@)
    }
}

proof fn lemma_pools_in<S>(conns: Seq<(String, ConnPool<HttpConnBlockingClient<S>>)>, i: int)
    requires
        names_differ(conns),
        0 <= i < conns.len(),
    ensures
        pools_in(conns).contains_pair(conns[i].0@, conns[i].1@),
    decreases conns.len(),
{
    let shorter = conns.drop_last();
    if i < shorter.len() {
        assert(shorter[i] == conns[i]);
        assert(names_differ(shorter)) by {
            assert forall|a: int, b: int| 0 <= a < b < shorter.len() implies (
            #[trigger] shorter[a]).0@ != (#[trigger] shorter[b]).0@ by {
                assert(shorter[a] == conns[a] && shorter[b] == conns[b]);
            }
        }
        lemma_pools_in(shorter, i);
        assert(conns[i].0@ != conns.last().0@);
    }
}

proof fn lemma_pools_of<S>(conns: Seq<(String, ConnPool<HttpConnBlockingClient<S>>)>, key: Seq<char>)
    requires
        forall|i: int| 0 <= i < conns.len() ==> (#[trigger] conns[i]).0@ != key,
    ensures
        !pools_in(conns).contains_key(key),
    decreases conns.len(),
{
    if conns.len() > 0 {
        let shorter = conns.drop_last();
        assert forall|i: int| 0 <= i < shorter.len() implies (#[trigger] shorter[i]).0@ != key by {
            assert(shorter[i] == conns[i]);
        }
        lemma_pools_of(shorter, key);
        assert(conns.last().0@ != key);
    }
}

/// One pool replaced.
proof fn lemma_pools_update<S>(
    conns: Seq<(String, ConnPool<HttpConnBlockingClient<S>>)>,
    i: int,
    entry: (String, ConnPool<HttpConnBlockingClient<S>>),
)
    requires
        names_differ(conns),
        0 <= i < conns.len(),
        entry.0@ == conns[i].0@,
    ensures
        names_differ(conns.update(i, entry)),
        pools_in(conns.update(i, entry)) == pools_in(conns).insert(entry.0@, entry.1@),
    decreases conns.len(),
{
    let after = conns.update(i, entry);
    assert forall|a: int, b: int| 0 <= a < b < after.len() implies (#[trigger] after[a]).0@ != (
    #[trigger] after[b]).0@ by {
        assert(conns[a].0@ != conns[b].0@);
    }
    let shorter = conns.drop_last();
    if i < shorter.len() {
        assert forall|a: int, b: int| 0 <= a < b < shorter.len() implies (
        #[trigger] shorter[a]).0@ != (#[trigger] shorter[b]).0@ by {
            assert(shorter[a] == conns[a] && shorter[b] == conns[b]);
        }
        assert(shorter[i] == conns[i]);
        lemma_pools_update(shorter, i, entry);
        assert(after.drop_last() =~= shorter.update(i, entry));
        assert(after.last() == conns.last());
        assert(conns[i].0@ != conns.last().0@);
        assert(pools_in(after) =~= pools_in(conns).insert(entry.0@, entry.1@));
    } else {
        assert(after.drop_last() =~= shorter);
        assert(pools_in(after) =~= pools_in(conns).insert(entry.0@, entry.1@));
    }
}

/// The pool under a name, an empty one where there is none yet.
pub open spec fn pool_under<S>(pools: PoolMap<S>, key: Seq<char>) -> BlockingPool<S> {
    if pools.contains_key(key) {
        pools[key]
    } else {
        ConnPoolView { idle_time: Some(KEEP_TIME), list: Seq::empty() }
    }
}

impl<S> HttpClient<S> {
    /// The pools have different names, and their connections are in order.
    pub closed spec fn wf(&self) -> bool {
        &&& self.idle_time == Some(KEEP_TIME)
        &&& names_differ(self.conns@)
        &&& forall|i: int| 0 <= i < self.conns@.len() ==> pool_wf((#[trigger] self.conns@[i]).1@)
    }

    /// A client without connections.
    pub fn new() -> (r: Self)
        ensures
            r.wf(),
            r@ == PoolMap::<S>::empty(),
    {
        HttpClient { idle_time: Some(KEEP_TIME), conns: Vec::new() }
    }

    /// Where the pool under a name is kept; it is made if there is none.
    fn entry(&mut self, key: &str) -> (r: usize)
        requires
            old(self).wf(),
        ensures
            final(self).wf(),
            r < final(self).conns@.len(),
            final(self).conns@[r as int].0@ == key@,
            final(self).conns@[r as int].1@ == pool_under(old(self)@, key@),
            final(self)@ == old(self)@.insert(key@, pool_under(old(self)@, key@)),
    {
        let mut i: usize = 0;
        while i < self.conns.len()
            invariant
                self.wf(),
                *self == *old(self),
                i <= self.conns@.len(),
                forall|j: int| 0 <= j < i ==> (#[trigger] self.conns@[j]).0@ != key@,
            decreases self.conns@.len() - i,
        {
            if str_eq(self.conns[i].0.as_str(), key) {
                proof {
                    lemma_pools_in(self.conns@, i as int);
                    assert(self@ =~= self@.insert(key@, pool_under(self@, key@)));
                }
                return i;
            }
            i += 1;
        }
        proof {
            lemma_pools_of(self.conns@, key@);
        }
        let ghost before = self.conns@;
        let pool = ConnPool::new(self.idle_time);
        let n = self.conns.len();
        self.conns.push((key.to_owned(), pool));
        proof {
            assert(self.conns@.drop_last() =~= before);
            assert forall|a: int, b: int| 0 <= a < b < self.conns@.len() implies (
            #[trigger] self.conns@[a]).0@ != (#[trigger] self.conns@[b]).0@ by {
                assert(self.conns@[a] == before[a]);
                if b < before.len() {
                    assert(self.conns@[b] == before[b]);
                }
            }
            assert forall|j: int| 0 <= j < self.conns@.len() implies pool_wf(
                (#[trigger] self.conns@[j]).1@,
            ) by {
                if j < before.len() {
                    assert(self.conns@[j] == before[j]);
                }
            }
        }
        n
    }
}

/// A request on its way.
pub struct HttpSend<S> {
    key: String,
    deadline: Option<u64>,
    timeout: Option<u64>,
    guard: Option<ConnPoolGuard<HttpConnBlockingClient<S>>>,
    tries: usize,
}

/// A connection in use: since when, whether it was used before, and what it holds.
pub struct ConnInUse<S> {
    pub create_time: u64,
    pub reused: bool,
    pub conn: ConnView<S>,
}

/// What an [`HttpSend`] holds.
pub struct SendView<S> {
    /// Scheme, host and port of the address.
    pub key: Seq<char>,
    pub deadline: Option<u64>,
    /// How long to wait for bytes.
    pub timeout: Option<u64>,
    pub guard: Option<ConnInUse<S>>,
    /// The vain looks for the response.
    pub tries: usize,
}

impl<S> View for HttpSend<S> {
    type V = SendView<S>;

    closed spec fn view(&self) -> SendView<S> {
        SendView {
            key: self.key@,
            deadline: self.deadline,
            timeout: self.timeout,
            guard: match self.guard {
                Some(guard) => Some(
                    ConnInUse {
                        create_time: guard@.create_time,
                        reused: guard@.reused,
                        conn: guard@.raw@,
                    },
                ),
                None => None,
            },
            tries: self.tries,
        }
    }
}

/// What has come of what was asked for last, or a new wish to send a request.
pub enum HttpSendEvent<S> {
    Start,
    /// Opening a stream to the address gave this.
    Connected(Result<S, HttpConnError>),
    /// The connection in use gave this.
    Conn(SendEvent),
}

/// What is to be done next to send a request and get its answer.
pub enum HttpSendStep {
    /// Open a stream to the address.
    Connect,
    /// Write out all of this.
    Write(Vec<u8>),
    /// Wait for bytes, and read at most this many. With no room at all, tell that reading gave no
    /// bytes.
    NeedRead(usize),
    Done(HttpResponse),
    Failed(HttpConnError),
    Fault(ResponseFault),
}

/// What an [`HttpSendStep`] stands for.
pub enum HttpSendStepView {
    Connect,
    /// As a connection has it.
    Conn(SendStepView),
}

impl View for HttpSendStep {
    type V = HttpSendStepView;

    open spec fn view(&self) -> HttpSendStepView {
        match *self {
            HttpSendStep::Connect => HttpSendStepView::Connect,
            HttpSendStep::Write(bytes) => HttpSendStepView::Conn(SendStepView::Write(bytes@)),
            HttpSendStep::NeedRead(n) => HttpSendStepView::Conn(SendStepView::NeedRead(n as int)),
            HttpSendStep::Done(response) => HttpSendStepView::Conn(SendStepView::Done(response@)),
            HttpSendStep::Failed(e) => HttpSendStepView::Conn(SendStepView::Failed(e@)),
            HttpSendStep::Fault(fault) => HttpSendStepView::Conn(SendStep::Fault(fault)@),
        }
    }
}

/// The step that fails with an error.
pub open spec fn fails(e: HttpConnErrorView) -> HttpSendStepView {
    HttpSendStepView::Conn(SendStepView::Failed(e))
}

/// How long there is until a deadline.
pub open spec fn time_left(deadline: Option<u64>, now: u64) -> Option<u64> {
    match deadline {
        Some(time) => Some(
            if time > now {
                (time - now) as u64
            } else {
                0
            },
        ),
        None => None,
    }
}

/// A request on its way with a connection in use.
pub open spec fn with_conn<S>(
    s: SendView<S>,
    guard: GuardView<HttpConnBlockingClient<S>>,
) -> SendView<S> {
    SendView {
        guard: Some(
            ConnInUse {
                create_time: guard.create_time,
                reused: guard.reused,
                conn: guard.raw@,
            },
        ),
        ..s
    }
}

/// Whether taking a connection into use makes `after` of a request on its way, and `step` the next
/// thing to do: unless the time is up, the request is written.
pub open spec fn begins<S>(
    s: SendView<S>,
    now: u64,
    bytes: Seq<u8>,
    step: HttpSendStepView,
    after: SendView<S>,
) -> bool {
    if time_left(s.deadline, now) == Some(0u64) {
        step == fails(HttpConnErrorView::Timeout) && after == (SendView { guard: None, ..s })
    } else {
        &&& step == HttpSendStepView::Conn(SendStepView::Write(bytes))
        &&& after == (SendView { timeout: time_left(s.deadline, now), tries: 0, ..s })
    }
}

/// The pools after a connection was looked for under a name.
pub open spec fn looked<S>(pools: PoolMap<S>, key: Seq<char>, now: u64) -> PoolMap<S> {
    let pool = pool_under(pools, key);
    pools.insert(
        key,
        ConnPoolView { list: taken_out(pool.list, pool.idle_time, now).1, ..pool },
    )
}

/// Whether looking for a connection makes `after` of a request on its way, and `step` the next
/// thing to do: one that was kept is taken into use, and else a stream is to be opened.
pub open spec fn attempts<S>(
    pools: PoolMap<S>,
    s: SendView<S>,
    now: u64,
    bytes: Seq<u8>,
    step: HttpSendStepView,
    after: SendView<S>,
) -> bool {
    let pool = pool_under(pools, s.key);
    match taken_out(pool.list, pool.idle_time, now).0 {
        Some(conn) => begins(
            SendView {
                guard: Some(ConnInUse { create_time: now, reused: true, conn: conn@ }),
                ..s
            },
            now,
            bytes,
            step,
            after,
        ),
        None => step is Connect && after == (SendView { guard: None, ..s }),
    }
}

/// Whether `after` are the pools with a connection put back under a name.
pub open spec fn kept<S>(
    pools: PoolMap<S>,
    key: Seq<char>,
    conn: ConnView<S>,
    since: u64,
    after: PoolMap<S>,
) -> bool {
    let pool = pool_under(pools, key);
    &&& after.contains_key(key)
    &&& after == pools.insert(key, after[key])
    &&& after[key].idle_time == pool.idle_time
    &&& after[key].list.len() == pool.list.len() + 1
    &&& after[key].list.drop_last() == pool.list
    &&& after[key].list.last().0@ == conn
    &&& after[key].list.last().1 == since
}

/// Whether an event makes `then` and `after` of the pools and of a request on its way, and `step`
/// the next thing to do; `bytes` are what the request is written as.
pub open spec fn http_sends<S>(
    pools: PoolMap<S>,
    s: SendView<S>,
    uri: UriView,
    now: u64,
    event: HttpSendEvent<S>,
    bytes: Seq<u8>,
    step: HttpSendStepView,
    then: PoolMap<S>,
    after: SendView<S>,
) -> bool {
    match event {
        HttpSendEvent::Start => {
            then == looked(pools, s.key, now) && attempts(pools, s, now, bytes, step, after)
        },
        HttpSendEvent::Connected(Err(e)) => {
            step == fails(e@) && then == pools && after == s
        },
        HttpSendEvent::Connected(Ok(stream)) => then == pools && begins(
            SendView {
                guard: Some(
                    ConnInUse {
                        create_time: now,
                        reused: false,
                        conn: fresh_conn(uri, stream, None),
                    },
                ),
                ..s
            },
            now,
            bytes,
            step,
            after,
        ),
        HttpSendEvent::Conn(event) => {
            let guard = s.guard->0;
            let (done, conn, tries) = send_turn(guard.conn, s.tries, event, bytes);
            let over = SendView { guard: None, tries: 0, ..s };
            match done {
                SendStepView::Write(_) | SendStepView::NeedRead(_) => {
                    &&& step == HttpSendStepView::Conn(done)
                    &&& then == pools
                    &&& after == (SendView {
                        guard: Some(ConnInUse { conn, ..guard }),
                        tries: tries as usize,
                        ..s
                    })
                },
                SendStepView::Done(_) => {
                    &&& step == HttpSendStepView::Conn(done)
                    &&& kept(pools, s.key, conn, guard.create_time, then)
                    &&& after == over
                },
                SendStepView::Failed(HttpConnErrorView::WouldBlock) => {
                    &&& step == fails(HttpConnErrorView::Timeout)
                    &&& then == pools
                    &&& after == over
                },
                SendStepView::Failed(HttpConnErrorView::EOF) => if guard.reused {
                    &&& then == looked(pools, s.key, now)
                    &&& attempts(pools, over, now, bytes, step, after)
                } else {
                    &&& step == HttpSendStepView::Conn(done)
                    &&& then == pools
                    &&& after == over
                },
                _ => {
                    &&& step == HttpSendStepView::Conn(done)
                    &&& then == pools
                    &&& after == over
                },
            }
        },
    }
}

/// A request to an address that is to be answered within some time, if any is given, and for which
/// nothing was done yet.
pub open spec fn new_send<S>(uri: UriView, dur: Option<u64>, now: u64) -> SendView<S> {
    SendView {
        key: address(
            uri.scheme,
            host_and_port_of(uri)->Ok_0.0,
            host_and_port_of(uri)->Ok_0.1,
        ),
        deadline: match dur {
            Some(time) => Some(
                if now + time <= u64::MAX {
                    (now + time) as u64
                } else {
                    u64::MAX
                },
            ),
            None => None,
        },
        timeout: None,
        guard: None,
        tries: 0,
    }
}

impl<S> HttpSend<S> {
    pub closed spec fn wf(&self) -> bool {
        &&& self.tries < TRIES
        &&& self.guard matches Some(guard) ==> guard@.raw.wf()
    }

    /// A request that is to be answered within some time, if any is given. The address must have a
    /// host and a port.
    pub fn new(req: &HttpRequestBuilder, dur: Option<u64>, now: u64) -> (r: Self)
        requires
            host_and_port_of(req@.uri) is Ok,
        ensures
            r.wf(),
            r@ == (SendView::<S> {
                key: address(
                    req@.uri.scheme,
                    host_and_port_of(req@.uri)->Ok_0.0,
                    host_and_port_of(req@.uri)->Ok_0.1,
                ),
                deadline: match dur {
                    Some(time) => Some(
                        if now + time <= u64::MAX {
                            (now + time) as u64
                        } else {
                            u64::MAX
                        },
                    ),
                    None => None,
                },
                timeout: None,
                guard: None,
                tries: 0,
            }),
            r@ == new_send::<S>(req@.uri, dur, now),
    {
        let key = match req.uri().stream_info() {
            Ok(key) => key,
            Err(_) => String::new(),
        };
        let deadline = match dur {
            Some(time) => Some(now.saturating_add(time)),
            None => None,
        };
        HttpSend { key, deadline, timeout: None, guard: None, tries: 0 }
    }

    /// How long to wait for bytes.
    pub fn timeout(&self) -> (r: Option<u64>)
        ensures
            r == self@.timeout,
    {
        self.timeout
    }

    /// The connection in use.
    pub fn conn(&mut self) -> (r: Option<&mut HttpConnBlockingClient<S>>)
        requires
            old(self).wf(),
        ensures
            match r {
                Some(conn) => {
                    &&& conn.wf()
                    &&& old(self)@.guard matches Some(guard) && guard.conn == conn@
                    &&& final(self)@ == (SendView {
                        guard: Some(
                            ConnInUse { conn: final(conn)@, ..old(self)@.guard->0 },
                        ),
                        ..old(self)@
                    })
                    &&& final(conn).wf() ==> final(self).wf()
                },
                None => {
                    &&& old(self)@.guard is None
                    &&& final(self)@ == old(self)@
                    &&& final(self).wf()
                },
            },
    {
        match &mut self.guard {
            Some(guard) => Some(guard.raw()),
            None => None,
        }
    }

    /// Takes a connection into use.
    fn begin(
        &mut self,
        req: &HttpRequestBuilder,
        guard: ConnPoolGuard<HttpConnBlockingClient<S>>,
        now: u64,
    ) -> (r: HttpSendStep)
        requires
            old(self).wf(),
            guard@.raw.wf(),
        ensures
            final(self).wf(),
            exists|bytes: Seq<u8>|
                is_message_of(req@, bytes) && #[trigger] begins(
                    with_conn(old(self)@, guard@),
                    now,
                    bytes,
                    r@,
                    final(self)@,
                ),
    {
        let msg = req.parse_msg();
        let ghost bytes = msg@;
        let ghost start = with_conn(self@, guard@);
        let timeout = match self.deadline {
            Some(time) => Some(time.saturating_sub(now)),
            None => None,
        };
        if let Some(left) = timeout {
            if left == 0 {
                self.guard = None;
                let r = HttpSendStep::Failed(HttpConnError::Timeout);
                assert(begins(start, now, bytes, r@, self@));
                return r;
            }
        }
        self.timeout = timeout;
        self.tries = 0;
        self.guard = Some(guard);
        let r = HttpSendStep::Write(msg);
        assert(begins(start, now, bytes, r@, self@));
        r
    }
}

/// Taking a connection out of a pool that is in order leaves it so.
proof fn lemma_taken_wf<S>(pool: BlockingPool<S>, now: u64)
    requires
        pool_wf(pool),
    ensures
        ({
            let (item, rest) = taken_out(pool.list, pool.idle_time, now);
            &&& pool_wf(ConnPoolView { list: rest, ..pool })
            &&& item matches Some(conn) ==> conn.wf()
        }),
{
    law_nothing_stale_is_taken(pool.list, pool.idle_time, now);
    let (item, rest) = taken_out(pool.list, pool.idle_time, now);
    assert forall|i: int| 0 <= i < rest.len() implies (#[trigger] rest[i]).0.wf() by {
        assert(rest[i] == pool.list[i]);
    }
}

impl<S> HttpClient<S> {
    /// Looks for a connection that was kept.
    fn attempt(&mut self, session: &mut HttpSend<S>, req: &HttpRequestBuilder, now: u64) -> (r:
        HttpSendStep)
        requires
            old(self).wf(),
            old(session).wf(),
        ensures
            final(self).wf(),
            final(session).wf(),
            final(self)@ == looked(old(self)@, old(session)@.key, now),
            exists|bytes: Seq<u8>|
                (r is Connect || is_message_of(req@, bytes)) && #[trigger] attempts(
                    old(self)@,
                    old(session)@,
                    now,
                    bytes,
                    r@,
                    final(session)@,
                ),
    {
        let ghost pools = self@;
        let ghost s = session@;
        let ghost pool = pool_under(pools, s.key);
        let at = self.entry(session.key.as_str());
        proof {
            assert(pool_wf(self.conns@[at as int].1@));
            lemma_taken_wf(pool, now);
        }
        let ghost before = self.conns@;
        let ghost mid = self@;
        let found = self.conns[at].1.pop(now);
        proof {
            let after = self.conns@;
            assert(after =~= before.update(at as int, after[at as int]));
            lemma_pools_update(before, at as int, after[at as int]);
            assert(self@ =~= looked(pools, s.key, now));
            assert forall|j: int| 0 <= j < after.len() implies pool_wf(
                (#[trigger] after[j]).1@,
            ) by {
                if j != at {
                    assert(after[j] == before[j]);
                }
            }
        }
        match found {
            Some(guard) => {
                let r = session.begin(req, guard, now);
                proof {
                    let start = with_conn(s, guard@);
                    let bytes = choose|bytes: Seq<u8>|
                        is_message_of(req@, bytes) && #[trigger] begins(
                            start,
                            now,
                            bytes,
                            r@,
                            session@,
                        );
                    assert(attempts(pools, s, now, bytes, r@, session@));
                }
                r
            },
            None => {
                session.guard = None;
                let r = HttpSendStep::Connect;
                assert(attempts(pools, s, now, Seq::empty(), r@, session@));
                r
            },
        }
    }

    /// Puts a connection back for later.
    fn keep(&mut self, key: &str, guard: ConnPoolGuard<HttpConnBlockingClient<S>>)
        requires
            old(self).wf(),
            guard@.raw.wf(),
        ensures
            final(self).wf(),
            kept(old(self)@, key@, guard@.raw@, guard@.create_time, final(self)@),
    {
        let ghost pools = self@;
        let ghost pool = pool_under(pools, key@);
        let at = self.entry(key);
        let ghost before = self.conns@;
        assert(pool_wf(self.conns@[at as int].1@));
        guard.reuse(&mut self.conns[at].1);
        proof {
            let after = self.conns@;
            assert(after =~= before.update(at as int, after[at as int]));
            lemma_pools_update(before, at as int, after[at as int]);
            let list = after[at as int].1@.list;
            assert(list.drop_last() =~= pool.list);
            assert(self@ =~= pools.insert(key@, after[at as int].1@));
            assert forall|j: int| 0 <= j < after.len() implies pool_wf(
                (#[trigger] after[j]).1@,
            ) by {
                if j != at {
                    assert(after[j] == before[j]);
                } else {
                    assert forall|i: int| 0 <= i < list.len() implies (
                    #[trigger] list[i]).0.wf() by {
                        if i < pool.list.len() {
                            assert(list[i] == pool.list[i]);
                        }
                    }
                }
            }
        }
    }

    /// Sends a request and waits for the answer, over a connection that was kept if there is one.
    /// Where the other side has closed that in the meantime, another is tried.
    pub fn send(
        &mut self,
        session: &mut HttpSend<S>,
        req: &HttpRequestBuilder,
        now: u64,
        event: HttpSendEvent<S>,
    ) -> (r: HttpSendStep)
        requires
            old(self).wf(),
            old(session).wf(),
            event matches HttpSendEvent::Conn(e) ==> {
                &&& old(session)@.guard is Some
                &&& e matches SendEvent::Read(read) ==> read_fits(
                    Some(read@),
                    response_room(
                        old(session)@.guard->0.conn.header,
                        old(session)@.guard->0.conn.response,
                    ),
                )
            },
        ensures
            final(self).wf(),
            final(session).wf(),
            exists|bytes: Seq<u8>|
                (no_message(event, r@) || is_message_of(req@, bytes)) && #[trigger] http_sends(
                    old(self)@,
                    old(session)@,
                    req@.uri,
                    now,
                    event,
                    bytes,
                    r@,
                    final(self)@,
                    final(session)@,
                ),
    {
        let ghost pools = self@;
        let ghost s = session@;
        let ghost asked = event;
        match event {
            HttpSendEvent::Start => {
                let r = self.attempt(session, req, now);
                proof {
                    let bytes = choose|bytes: Seq<u8>|
                        (r is Connect || is_message_of(req@, bytes)) && #[trigger] attempts(
                            pools,
                            s,
                            now,
                            bytes,
                            r@,
                            session@,
                        );
                    assert(http_sends(
                        pools,
                        s,
                        req@.uri,
                        now,
                        asked,
                        bytes,
                        r@,
                        self@,
                        session@,
                    ));
                }
                r
            },
            HttpSendEvent::Connected(Err(e)) => {
                let r = HttpSendStep::Failed(e);
                assert(http_sends(
                    pools,
                    s,
                    req@.uri,
                    now,
                    asked,
                    Seq::empty(),
                    r@,
                    self@,
                    session@,
                ));
                r
            },
            HttpSendEvent::Connected(Ok(stream)) => {
                let conn = HttpConnBlockingClient::connect(req.uri().clone(), stream);
                let guard = ConnPoolGuard::new(conn, false, now);
                let ghost in_use = guard@;
                let r = session.begin(req, guard, now);
                proof {
                    let bytes = choose|bytes: Seq<u8>|
                        is_message_of(req@, bytes) && #[trigger] begins(
                            with_conn(s, in_use),
                            now,
                            bytes,
                            r@,
                            session@,
                        );
                    assert(http_sends(
                        pools,
                        s,
                        req@.uri,
                        now,
                        asked,
                        bytes,
                        r@,
                        self@,
                        session@,
                    ));
                }
                r
            },
            HttpSendEvent::Conn(event) => {
                let mut guard = match session.guard.take() {
                    Some(guard) => guard,
                    None => return HttpSendStep::Connect,
                };
                let ghost in_use = guard@;
                let ghost conn_event = event;
                let mut tries = session.tries;
                session.tries = 0;
                let step = guard.raw().send(req, &mut tries, event);
                let ghost bytes = choose|bytes: Seq<u8>|
                    is_message_of(req@, bytes) && (step@, guard@.raw@, tries as int)
                        == #[trigger] send_turn(
                        in_use.raw@,
                        s.tries,
                        conn_event,
                        bytes,
                    );
                let ghost turn = send_turn(in_use.raw@, s.tries, conn_event, bytes);
                assert((step@, guard@.raw@, tries as int) == turn);
                let r = match step {
                    SendStep::Write(msg) => {
                        session.guard = Some(guard);
                        session.tries = tries;
                        HttpSendStep::Write(msg)
                    },
                    SendStep::NeedRead(n) => {
                        session.guard = Some(guard);
                        session.tries = tries;
                        HttpSendStep::NeedRead(n)
                    },
                    SendStep::Done(response) => {
                        self.keep(session.key.as_str(), guard);
                        HttpSendStep::Done(response)
                    },
                    SendStep::Failed(HttpConnError::WouldBlock) => {
                        HttpSendStep::Failed(HttpConnError::Timeout)
                    },
                    SendStep::Failed(HttpConnError::EOF) => {
                        if guard.is_reused() {
                            let ghost over = session@;
                            let r = self.attempt(session, req, now);
                            proof {
                                let more = choose|more: Seq<u8>|
                                    (r is Connect || is_message_of(req@, more))
                                        && #[trigger] attempts(
                                        pools,
                                        over,
                                        now,
                                        more,
                                        r@,
                                        session@,
                                    );
                                lemma_same_end(in_use.raw@, s.tries, conn_event, bytes, more);
                                assert(http_sends(
                                    pools,
                                    s,
                                    req@.uri,
                                    now,
                                    asked,
                                    more,
                                    r@,
                                    self@,
                                    session@,
                                ));
                            }
                            return r;
                        }
                        HttpSendStep::Failed(HttpConnError::EOF)
                    },
                    SendStep::Failed(e) => HttpSendStep::Failed(e),
                    SendStep::Fault(fault) => HttpSendStep::Fault(fault),
                };
                assert(http_sends(
                    pools,
                    s,
                    req@.uri,
                    now,
                    asked,
                    bytes,
                    r@,
                    self@,
                    session@,
                ));
                r
            },
        }
    }
}

/// What a request is written as has no part in what comes of it, once it is written.
proof fn lemma_same_end<S>(
    c: ConnView<S>,
    tries: usize,
    event: SendEvent,
    a: Seq<u8>,
    b: Seq<u8>,
)
    requires
        !(event is Start),
    ensures
        send_turn(c, tries, event, a) == send_turn(c, tries, event, b),
{
}

/// Whether no request is written in a step: where a stream is to be opened, or could not be.
pub open spec fn no_message<S>(event: HttpSendEvent<S>, step: HttpSendStepView) -> bool {
    step is Connect || (event matches HttpSendEvent::Connected(Err(_)))
}

} // verus!
