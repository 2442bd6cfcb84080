//! What comes of sending requests and waiting for their responses, one event after the other.
use crate::client_pool::{
    pool_read_turn, pool_writes, PoolReadEvent, PoolReadStepView, PoolView, PoolWriteEvent,
    PoolWriteStepView,
};
use crate::conn::{
    client_read_turn, raw_write_turn, write_request_turn, write_response_turn, ClientStepView,
    ConnReadEvent, ConnView, ConnWriteEvent, ConnWriteStepView, HttpConnBlockingClient,
    HttpConnError, HttpConnErrorView,
};
use crate::conn_blocking::{send_turn, SendEvent, SendStepView};
use crate::conn_pool::{law_nothing_stale_is_taken, stale, taken_out};
use crate::error::HttpErrorView;
use crate::http_client::{
    http_sends, new_send, no_message, pool_under, HttpSendEvent, HttpSendStepView, PoolMap,
    SendView,
};
use crate::response::ResponseView;
use crate::response_read::{response_room, response_turn, ResponseStepView};
use crate::response_stream_laws::{
    all_told, bytes_of, law_next_response_is_read, read_so_far, stream_of, SentResponse,
};
use crate::stream::{IOError, ReadView, StreamRead};
use crate::uri::{address, host_and_port_of, UriView};
use vstd::prelude::*;

verus! {

/// What an event of a client that waits brings off the stream, if it is one of reading.
pub open spec fn read_in(event: SendEvent) -> Option<ReadView> {
    match event {
        SendEvent::Read(read) => Some(read@),
        _ => None,
    }
}

/// Whether an event is one of waiting for the response: the request was written, or bytes were
/// read.
pub open spec fn is_waiting(event: SendEvent) -> bool {
    match event {
        SendEvent::Start => false,
        SendEvent::Written(outcome) => outcome is Ok,
        SendEvent::Read(_) => true,
    }
}

/// A client that waits gives a response as soon as what came is one, whatever its status, and an
/// error only where what came cannot be one, or the stream has ended, or too many looks were vain.
/// Until then it asks for more. Nothing of the connection is changed but what was read.
pub proof fn law_response_ends_the_wait<S>(
    c: ConnView<S>,
    tries: usize,
    event: SendEvent,
    bytes: Seq<u8>,
)
    requires
        is_waiting(event),
        tries < 10000,
    ensures
        ({
            let (step, after, looks) = send_turn(c, tries, event, bytes);
            let turn = response_turn(read_in(event), c.header, c.response);
            let before = if event is Written {
                0int
            } else {
                tries as int
            };
            &&& match turn.step {
                ResponseStepView::Done(response) => step == SendStepView::Done(response),
                ResponseStepView::NeedRead(n) => step == SendStepView::NeedRead(n),
                ResponseStepView::NotReady => step == if looks < 10000 {
                    SendStepView::NeedRead(response_room(after.header, after.response))
                } else {
                    SendStepView::Failed(HttpConnErrorView::EOF)
                },
                ResponseStepView::Failed(e) => step == SendStepView::Failed(
                    if e is ReadEOF {
                        HttpConnErrorView::EOF
                    } else {
                        HttpConnErrorView::Error(e)
                    },
                ),
                ResponseStepView::IllegalBody(text) => step == SendStepView::IllegalBody(text),
                ResponseStepView::ChunkOverflow => step is ChunkOverflow,
            }
            &&& looks == if turn.step is NotReady {
                before + 1
            } else {
                before
            }
            &&& after == (ConnView { header: turn.header, response: turn.state, ..c })
        }),
{
}

/// A request is written as a whole before its response is waited for; where that fails, the client
/// says so, in the same words.
pub proof fn law_request_is_written_first<S>(
    c: ConnView<S>,
    tries: usize,
    event: SendEvent,
    bytes: Seq<u8>,
)
    requires
        !is_waiting(event),
    ensures
        send_turn(c, tries, event, bytes).1 == c,
        match event {
            SendEvent::Written(Err(text)) => send_turn(c, tries, event, bytes).0
                == SendStepView::Failed(HttpConnErrorView::IoError(text@)),
            _ => send_turn(c, tries, event, bytes).0 == SendStepView::Write(bytes),
        },
{
}

/// However the bytes of responses arrive at a client that waits, it gives the next response as it
/// was sent, whatever its status, as soon as it is there as a whole; until then it asks for more,
/// unless too many looks were vain.
pub proof fn law_response_is_awaited<S>(
    c: ConnView<S>,
    tries: usize,
    responses: Seq<SentResponse>,
    got: Seq<u8>,
    count: int,
    event: SendEvent,
    bytes: Seq<u8>,
)
    requires
        is_waiting(event),
        tries < 10000,
        responses.len() > 0,
        forall|i: int|
            0 <= i < responses.len() ==> (#[trigger] responses[i]).fits(c.header.cap),
        read_so_far(responses, got, count, c.header, c.response),
        match event {
            SendEvent::Read(StreamRead::Data(data)) => data@.len() <= response_room(
                c.header,
                c.response,
            ),
            SendEvent::Read(read) => read is WouldBlock,
            _ => true,
        },
        (got + bytes_of(read_in(event))).is_prefix_of(stream_of(responses)),
        all_told(responses, (got + bytes_of(read_in(event))).len() as int),
    ensures
        ({
            let (step, after, looks) = send_turn(c, tries, event, bytes);
            let all = got + bytes_of(read_in(event));
            &&& match step {
                SendStepView::Done(response) => {
                    &&& count < responses.len()
                    &&& response == responses[count].response
                    &&& read_so_far(responses, all, count + 1, after.header, after.response)
                },
                SendStepView::NeedRead(n) => {
                    &&& n == response_room(after.header, after.response)
                    &&& read_so_far(responses, all, count, after.header, after.response)
                },
                SendStepView::Failed(e) => e is EOF && looks == 10000,
                _ => false,
            }
            &&& event is Read && count < responses.len() && all.len() >= stream_of(
                responses.take(count + 1),
            ).len() ==> step is Done
        }),
{
    law_next_response_is_read(
        responses,
        got,
        count,
        c.header,
        c.response,
        read_in(event),
    );
    law_response_ends_the_wait(c, tries, event, bytes);
}

/// A client that keeps connections gives every response, whatever its status, to who has asked, and
/// keeps the connection for the next request to the same address, as it then is.
pub proof fn law_response_is_handed_on<S>(
    pools: PoolMap<S>,
    s: SendView<S>,
    uri: UriView,
    now: u64,
    event: SendEvent,
    bytes: Seq<u8>,
    step: HttpSendStepView,
    then: PoolMap<S>,
    after: SendView<S>,
    response: ResponseView,
)
    requires
        s.guard is Some,
        s.tries < 10000,
        is_waiting(event),
        http_sends(pools, s, uri, now, HttpSendEvent::Conn(event), bytes, step, then, after),
        ({
            let c = s.guard->0.conn;
            response_turn(read_in(event), c.header, c.response).step == ResponseStepView::Done(
                response,
            )
        }),
    ensures
        step == HttpSendStepView::Conn(SendStepView::Done(response)),
        ({
            let c = s.guard->0.conn;
            let turn = response_turn(read_in(event), c.header, c.response);
            let list = then[s.key].list;
            &&& then.contains_key(s.key)
            &&& list.len() == pool_under(pools, s.key).list.len() + 1
            &&& list.drop_last() == pool_under(pools, s.key).list
            &&& list.last().0@ == (ConnView { header: turn.header, response: turn.state, ..c })
            &&& list.last().1 == s.guard->0.create_time
        }),
        forall|key: Seq<char>|
            key != s.key ==> (#[trigger] then.contains_key(key) <==> pools.contains_key(key))
                && then[key] == pools[key],
        after.guard is None,
{
    law_response_ends_the_wait(s.guard->0.conn, s.tries, event, bytes);
}

/// While the response is waited for, the connection stays in use, and no other is touched.
pub proof fn law_wait_goes_on<S>(
    pools: PoolMap<S>,
    s: SendView<S>,
    uri: UriView,
    now: u64,
    event: SendEvent,
    bytes: Seq<u8>,
    step: HttpSendStepView,
    then: PoolMap<S>,
    after: SendView<S>,
)
    requires
        s.guard is Some,
        s.tries < 10000,
        http_sends(pools, s, uri, now, HttpSendEvent::Conn(event), bytes, step, then, after),
        send_turn(s.guard->0.conn, s.tries, event, bytes).0 is NeedRead,
    ensures
        step == HttpSendStepView::Conn(send_turn(s.guard->0.conn, s.tries, event, bytes).0),
        then == pools,
        after.guard is Some,
        after.guard->0.conn == send_turn(s.guard->0.conn, s.tries, event, bytes).1,
        after.guard->0.create_time == s.guard->0.create_time,
        after.guard->0.reused == s.guard->0.reused,
        after.key == s.key,
        after.deadline == s.deadline,
        after.timeout == s.timeout,
{
}

/// A connection on which something failed is not kept: the error is handed on. Only where one that
/// was kept has ended in the meantime is another tried.
pub proof fn law_failed_conn_is_not_kept<S>(
    pools: PoolMap<S>,
    s: SendView<S>,
    uri: UriView,
    now: u64,
    event: SendEvent,
    bytes: Seq<u8>,
    step: HttpSendStepView,
    then: PoolMap<S>,
    after: SendView<S>,
    e: HttpConnErrorView,
)
    requires
        s.guard is Some,
        http_sends(pools, s, uri, now, HttpSendEvent::Conn(event), bytes, step, then, after),
        send_turn(s.guard->0.conn, s.tries, event, bytes).0 == SendStepView::Failed(e),
        !(e is WouldBlock),
        !(e is EOF && s.guard->0.reused),
    ensures
        step == HttpSendStepView::Conn(SendStepView::Failed(e)),
        then == pools,
        after.guard is None,
{
}

/// Whether a time is still to come, if there is one.
pub open spec fn in_time(deadline: Option<u64>, now: u64) -> bool {
    deadline matches Some(time) ==> now < time
}

/// A request that is to be answered within some time is in time exactly until that has passed, or
/// for ever where no time is given, as far as a clock can tell. It goes over connections to the
/// scheme, the host and the port of its address, and has none in use yet.
pub proof fn law_request_has_its_time<S>(
    uri: UriView,
    host: Seq<char>,
    port: u16,
    dur: Option<u64>,
    now: u64,
    later: u64,
)
    requires
        host_and_port_of(uri) == Ok::<(Seq<char>, u16), HttpErrorView>((host, port)),
    ensures
        ({
            let s = new_send::<S>(uri, dur, now);
            &&& in_time(s.deadline, later) <==> (dur matches Some(time) ==> later < now + time
                && later < u64::MAX)
            &&& s.key == address(uri.scheme, host, port)
            &&& s.guard is None
            &&& s.timeout is None
            &&& s.tries == 0
        }),
{
}

/// The connections that were kept under an address.
pub open spec fn kept_under<S>(pools: PoolMap<S>, key: Seq<char>) -> Seq<
    (HttpConnBlockingClient<S>, u64),
> {
    if pools.contains_key(key) {
        pools[key].list
    } else {
        Seq::empty()
    }
}

/// Whether something that was kept has lain for ten seconds.
pub open spec fn has_lain<T>(item: (T, u64), now: u64) -> bool {
    now - item.1 >= 10_000_000_000
}

/// A request goes over the connection that was kept last under its address, of those that have not
/// lain for ten seconds; where there is none, a stream is to be opened. It is written at once,
/// unless its time is up, and the response is waited for until its time is up.
pub proof fn law_kept_conn_or_new_one<S>(
    pools: PoolMap<S>,
    s: SendView<S>,
    uri: UriView,
    now: u64,
    bytes: Seq<u8>,
    step: HttpSendStepView,
    then: PoolMap<S>,
    after: SendView<S>,
)
    requires
        http_sends(pools, s, uri, now, HttpSendEvent::Start, bytes, step, then, after),
        pools.contains_key(s.key) ==> pools[s.key].idle_time == Some(10_000_000_000u64),
    ensures
        ({
            let list = kept_under(pools, s.key);
            let n = then[s.key].list.len() as int;
            &&& n <= list.len()
            &&& then[s.key].list == list.take(n)
            &&& then[s.key].idle_time == Some(10_000_000_000u64)
            &&& forall|i: int| n < i < list.len() ==> has_lain(#[trigger] list[i], now)
            &&& step is Connect <==> forall|i: int|
                0 <= i < list.len() ==> has_lain(#[trigger] list[i], now)
            &&& step is Connect ==> after.guard is None
            &&& !(step is Connect) ==> n < list.len() && !has_lain(list[n], now)
            &&& !(step is Connect) && in_time(s.deadline, now) ==> {
                &&& step == HttpSendStepView::Conn(SendStepView::Write(bytes))
                &&& after.guard is Some
                &&& after.guard->0.conn == list[n].0@
                &&& after.guard->0.reused
                &&& after.guard->0.create_time == now
                &&& after.tries == 0
                &&& after.timeout == match s.deadline {
                    Some(time) => Some((time - now) as u64),
                    None => None,
                }
            }
            &&& !(step is Connect) && !in_time(s.deadline, now) ==> {
                &&& step == HttpSendStepView::Conn(SendStepView::Failed(HttpConnErrorView::Timeout))
                &&& after.guard is None
            }
        }),
        forall|key: Seq<char>|
            key != s.key ==> (#[trigger] then.contains_key(key) <==> pools.contains_key(key))
                && then[key] == pools[key],
{
    let pool = pool_under(pools, s.key);
    law_nothing_stale_is_taken(pool.list, pool.idle_time, now);
    let (item, rest) = taken_out(pool.list, pool.idle_time, now);
    let list = kept_under(pools, s.key);
    let n = rest.len() as int;
    assert(pool.list == list);
    assert(then[s.key].list == rest);
    assert forall|i: int| 0 <= i < list.len() implies stale(
        pool.idle_time,
        (#[trigger] list[i]).1,
        now,
    ) == has_lain(list[i], now) by {}
    if item is Some {
        assert(!stale(pool.idle_time, list[n].1, now));
        assert(!has_lain(list[n], now));
        assert(!(step is Connect));
        if in_time(s.deadline, now) {
            assert(step == HttpSendStepView::Conn(SendStepView::Write(bytes)));
        }
    } else {
        assert(step is Connect);
        assert forall|i: int| 0 <= i < list.len() implies has_lain(#[trigger] list[i], now) by {
            assert(stale(pool.idle_time, list[i].1, now));
        }
    }
    assert forall|i: int| n < i < list.len() implies has_lain(#[trigger] list[i], now) by {
        assert(stale(pool.idle_time, list[i].1, now));
    }
}

/// A stream that was opened is used for the request, as a connection to its address over which
/// nothing has gone yet; where none could be opened, the error is handed on.
pub proof fn law_opened_stream_is_used<S>(
    pools: PoolMap<S>,
    s: SendView<S>,
    uri: UriView,
    now: u64,
    outcome: Result<S, HttpConnError>,
    bytes: Seq<u8>,
    step: HttpSendStepView,
    then: PoolMap<S>,
    after: SendView<S>,
)
    requires
        http_sends(pools, s, uri, now, HttpSendEvent::Connected(outcome), bytes, step, then, after),
    ensures
        then == pools,
        match outcome {
            Err(e) => step == HttpSendStepView::Conn(SendStepView::Failed(e@)) && after == s,
            Ok(stream) => if in_time(s.deadline, now) {
                &&& step == HttpSendStepView::Conn(SendStepView::Write(bytes))
                &&& after.guard is Some
                &&& !after.guard->0.reused
                &&& after.guard->0.create_time == now
                &&& after.tries == 0
                &&& after.timeout == match s.deadline {
                    Some(time) => Some((time - now) as u64),
                    None => None,
                }
                &&& ({
                    let c = after.guard->0.conn;
                    &&& c.stream == stream
                    &&& c.uri == uri
                    &&& c.header.data.len() == 0
                    &&& c.header.cap == 8096
                    &&& c.response is Empty
                    &&& c.output.len() == 0
                    &&& c.inflight.len() == 0
                    &&& !c.closed
                })
            } else {
                &&& step == HttpSendStepView::Conn(SendStepView::Failed(HttpConnErrorView::Timeout))
                &&& after.guard is None
            },
        },
{
}

/// A client that does not wait reads only where a request waits for its response, and hands on
/// what was read: the next response goes to the request that was sent first, whatever its status.
/// Errors are handed on, and it says that it would have to wait where the response is not there.
pub proof fn law_response_goes_to_oldest<S>(c: ConnView<S>, event: ConnReadEvent)
    requires
        c.request_cnt < usize::MAX,
    ensures
        ({
            let (step, after) = client_read_turn(c, event);
            let read = match event {
                ConnReadEvent::Read(read) => Some(read@),
                _ => None,
            };
            let turn = response_turn(read, c.header, c.response);
            &&& event is Start ==> step is Flush && after == c
            &&& event matches ConnReadEvent::Flushed(Err(e)) ==> after == c && step
                == ClientStepView::Failed(
                match e {
                    IOError::EOF { .. } => HttpConnErrorView::EOF,
                    IOError::WouldBlock => HttpConnErrorView::WouldBlock,
                    IOError::Other(text) => HttpConnErrorView::IoError(text@),
                },
            )
            &&& (event matches ConnReadEvent::Flushed(Ok(_))) && c.inflight.len() == 0 ==> {
                &&& after == c
                &&& step == ClientStepView::Failed(HttpConnErrorView::WouldBlock)
            }
            &&& (event is Read || ((event matches ConnReadEvent::Flushed(Ok(_)))
                && c.inflight.len() > 0)) ==> {
                &&& after.header == turn.header
                &&& after.response == turn.state
                &&& after.output == c.output
                &&& after.stream == c.stream
                &&& match turn.step {
                    ResponseStepView::Done(response) => if c.inflight.len() == 0 {
                        step is Unsolicited && after.inflight == c.inflight
                    } else {
                        &&& after.inflight.len() == c.inflight.len() - 1
                        &&& forall|i: int|
                            0 <= i < after.inflight.len() ==> #[trigger] after.inflight[i]
                                == c.inflight[i + 1]
                        &&& c.inflight[0] != usize::MAX ==> step == ClientStepView::Done(
                            c.inflight[0],
                            response,
                        ) && after.request_cnt == c.request_cnt + 1
                        &&& c.inflight[0] == usize::MAX ==> step is NeedRead && after.request_cnt
                            == c.request_cnt
                    },
                    ResponseStepView::NeedRead(n) => {
                        step == ClientStepView::NeedRead(n) && after.inflight == c.inflight
                    },
                    ResponseStepView::NotReady => {
                        &&& step == ClientStepView::Failed(HttpConnErrorView::WouldBlock)
                        &&& after.inflight == c.inflight
                    },
                    ResponseStepView::Failed(e) => {
                        &&& step == ClientStepView::Failed(
                            if e == HttpErrorView::ReadEOF {
                                HttpConnErrorView::EOF
                            } else {
                                HttpConnErrorView::Error(e)
                            },
                        )
                        &&& after.inflight == c.inflight
                    },
                    ResponseStepView::IllegalBody(text) => step == ClientStepView::IllegalBody(
                        text,
                    ),
                    ResponseStepView::ChunkOverflow => step is ChunkOverflow,
                }
            }
        }),
{
}

/// A request is queued behind all that is to be sent, and only that; once it is sent, it waits
/// behind all that wait. A stream that nothing was written to for more than ten seconds is looked
/// at first, and is not used where it has ended or fails.
pub proof fn law_request_is_queued<S>(
    c: ConnView<S>,
    req_id: usize,
    idle: u64,
    event: ConnWriteEvent,
    bytes: Seq<u8>,
)
    ensures
        ({
            let (step, after) = write_request_turn(c, req_id, idle, event, bytes);
            let goes = match event {
                ConnWriteEvent::Start => idle <= 10_000_000_000,
                ConnWriteEvent::Probed(Ok(n)) => n > 0,
                ConnWriteEvent::Probed(Err(e)) => e is WouldBlock,
                ConnWriteEvent::Sent(_) => false,
            };
            &&& goes ==> step is Send && after == (ConnView { output: c.output + bytes, ..c })
            &&& !goes ==> match event {
                ConnWriteEvent::Start => step is Probe && after == c,
                ConnWriteEvent::Probed(outcome) => step is Failed && after == c,
                ConnWriteEvent::Sent(outcome) => {
                    &&& outcome is Ok ==> step is Done && after == (ConnView {
                        inflight: c.inflight.push(req_id),
                        ..c
                    })
                    &&& outcome is Err ==> step is Failed && after == c
                },
            }
            &&& (event matches ConnWriteEvent::Probed(Ok(n)) && n == 0) ==> step
                == ConnWriteStepView::Failed(HttpConnErrorView::EOF)
        }),
        raw_write_turn(c, req_id, bytes, None) == (
            ConnWriteStepView::Send,
            ConnView { output: c.output + bytes, ..c },
        ),
{
}

/// An answer is queued behind all that is to be sent, where a request waits for one, and only that;
/// once it is sent, one request fewer waits and one more is answered.
pub proof fn law_answer_is_queued<S>(
    c: ConnView<S>,
    bytes: Seq<u8>,
    outcome: Option<Result<(), IOError>>,
)
    requires
        c.inflight.len() > 0,
        c.request_cnt < usize::MAX,
    ensures
        ({
            let (step, after) = write_response_turn(c, bytes, outcome);
            match outcome {
                None => step is Send && after == (ConnView { output: c.output + bytes, ..c }),
                Some(Err(e)) => {
                    &&& after == c
                    &&& step == ConnWriteStepView::Failed(
                        match e {
                            IOError::EOF { .. } => HttpConnErrorView::EOF,
                            IOError::WouldBlock => HttpConnErrorView::WouldBlock,
                            IOError::Other(text) => HttpConnErrorView::IoError(text@),
                        },
                    )
                },
                Some(Ok(_)) => {
                    &&& step is Done
                    &&& after.inflight.len() == c.inflight.len() - 1
                    &&& after.request_cnt == c.request_cnt + 1
                    &&& after == (ConnView {
                        inflight: after.inflight,
                        request_cnt: after.request_cnt,
                        ..c
                    })
                },
            }
        }),
{
}

/// A thing that was put back has lain too long once the time for that has passed.
pub proof fn law_lain_too_long(idle_time: Option<u64>, since: u64, now: u64)
    ensures
        stale(idle_time, since, now) <==> (idle_time matches Some(time) && (time == 0 || now - since
            >= time)),
{
}

/// A request to a pool goes to its last connection, behind all that is to be sent over it; that
/// connection is then in use, and the others are left alone.
pub proof fn law_pool_queues_request<S>(
    p: PoolView<S>,
    req_id: usize,
    idle: u64,
    bytes: Seq<u8>,
    step: PoolWriteStepView,
    after: PoolView<S>,
)
    requires
        p.clients.len() > 0,
        pool_writes(p, req_id, PoolWriteEvent::Start(idle), bytes, step, after),
    ensures
        ({
            let c = p.clients.last();
            &&& after.clients == p.clients.drop_last()
            &&& after == (PoolView { clients: after.clients, current: after.current, ..p })
            &&& idle <= 10_000_000_000 ==> step is Send && after.current == Some(
                ConnView { output: c.output + bytes, ..c },
            )
            &&& idle > 10_000_000_000 ==> step is Probe && after.current == Some(c)
        }),
{
}

/// A request that was sent over a connection of a pool waits there for its response, behind those
/// that were sent before, and the connection is put back among the others. Where the other side has
/// closed it, another stream is opened and the request is sent over that, as the first; where none
/// can be opened, the error is handed on and the connection is put back.
pub proof fn law_pool_sends_request<S>(
    p: PoolView<S>,
    req_id: usize,
    event: PoolWriteEvent<S>,
    bytes: Seq<u8>,
    step: PoolWriteStepView,
    after: PoolView<S>,
)
    requires
        p.current is Some,
        !(event is Start),
        pool_writes(p, req_id, event, bytes, step, after),
    ensures
        ({
            let c = p.current->0;
            match event {
                PoolWriteEvent::Sent(Ok(_)) => {
                    &&& step is Done
                    &&& after.current is None
                    &&& after.clients.to_multiset() == p.clients.push(
                        ConnView { inflight: c.inflight.push(req_id), ..c },
                    ).to_multiset()
                },
                PoolWriteEvent::Sent(Err(IOError::EOF { .. })) => {
                    step is Reconnect && after == p
                },
                PoolWriteEvent::Sent(Err(e)) => {
                    &&& step == PoolWriteStepView::Failed(
                        match e {
                            IOError::Other(text) => HttpConnErrorView::IoError(text@),
                            _ => HttpConnErrorView::WouldBlock,
                        },
                    )
                    &&& after.current is None
                    &&& after.clients.to_multiset() == p.clients.push(c).to_multiset()
                },
                PoolWriteEvent::Probed(Ok(n)) => if n == 0 {
                    step is Reconnect && after == p
                } else {
                    step is Send && after == (PoolView {
                        current: Some(ConnView { output: c.output + bytes, ..c }),
                        ..p
                    })
                },
                PoolWriteEvent::Probed(Err(IOError::WouldBlock)) => {
                    step is Send && after == (PoolView {
                        current: Some(ConnView { output: c.output + bytes, ..c }),
                        ..p
                    })
                },
                PoolWriteEvent::Reconnected(Ok(stream)) => {
                    &&& step is Send
                    &&& after.clients == p.clients
                    &&& after.current matches Some(conn)
                    &&& conn.stream == stream
                    &&& conn.uri == p.uri
                    &&& conn.output == bytes
                    &&& conn.inflight.len() == 0
                    &&& conn.header.data.len() == 0
                    &&& conn.response is Empty
                },
                PoolWriteEvent::Reconnected(Err(e)) => {
                    &&& step == PoolWriteStepView::Failed(e@)
                    &&& after.clients == p.clients.push(c)
                    &&& after.current is None
                },
                _ => true,
            }
        }),
        after.name == p.name,
        after.uri == p.uri,
{
    assert(Seq::<u8>::empty() + bytes =~= bytes);
}

/// Whoever wants a response from a pool is handed the first that one of its connections has, with
/// the number of its request, whatever its status. The connections are looked at one after the
/// other; where all would have to wait, so does the pool. One that fails is replaced by one over a
/// new stream, and what went wrong is told.
pub proof fn law_pool_hands_response_on<S>(p: PoolView<S>, event: PoolReadEvent<S>)
    requires
        !(event is Start) ==> 0 <= p.at < p.clients.len(),
        event is Reconnected ==> p.broken is Some,
    ensures
        ({
            let (step, after) = pool_read_turn(p, event);
            let none = PoolReadStepView::Failed(HttpConnErrorView::WouldBlock);
            &&& after.name == p.name
            &&& after.uri == p.uri
            &&& after.current == p.current
            &&& event is Start ==> {
                &&& after.at == 0
                &&& after.clients == p.clients
                &&& step == if p.clients.len() > 0 {
                    PoolReadStepView::Flush(0)
                } else {
                    none
                }
            }
            &&& event matches PoolReadEvent::Conn(e) ==> {
                let (done, conn) = client_read_turn(p.clients[p.at], e);
                &&& after.clients == p.clients.update(p.at, conn)
                &&& match done {
                    ClientStepView::Done(id, response) => {
                        step == PoolReadStepView::Done(id, response) && after.at == p.at
                    },
                    ClientStepView::Flush => {
                        step == PoolReadStepView::Flush(p.at) && after.at == p.at
                    },
                    ClientStepView::NeedRead(n) => {
                        step == PoolReadStepView::NeedRead(p.at, n) && after.at == p.at
                    },
                    ClientStepView::Failed(e) => if e is WouldBlock {
                        &&& after.at == p.at + 1
                        &&& step == if p.at + 1 < p.clients.len() {
                            PoolReadStepView::Flush(p.at + 1)
                        } else {
                            none
                        }
                    } else {
                        &&& step == PoolReadStepView::Reconnect(p.at)
                        &&& after.broken == Some(e)
                        &&& after.at == p.at
                    },
                    fault => step == PoolReadStepView::Fault(fault),
                }
            }
            &&& event matches PoolReadEvent::Reconnected(Err(e)) ==> step
                == PoolReadStepView::Failed(e@) && after.clients == p.clients
            &&& event matches PoolReadEvent::Reconnected(Ok(stream)) ==> {
                let conn = after.clients[p.at];
                &&& step == PoolReadStepView::Failed(p.broken->0)
                &&& after.clients == p.clients.update(p.at, conn)
                &&& conn.stream == stream
                &&& conn.uri == p.uri
                &&& conn.inflight.len() == 0
                &&& conn.output.len() == 0
                &&& conn.header.data.len() == 0
                &&& conn.response is Empty
            }
        }),
{
}

/// Whatever is written is the request: only where a stream is to be opened, or could not be, is it
/// not written.
pub proof fn law_only_the_request_is_written<S>(event: HttpSendEvent<S>, step: HttpSendStepView)
    ensures
        no_message(event, step) <==> step is Connect || (event matches HttpSendEvent::Connected(
            Err(_),
        )),
{
}

} // verus!
