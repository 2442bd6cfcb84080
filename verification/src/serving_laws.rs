//! What a server does for its clients and for its handler, one event after the other.
use crate::conn::{
    server_read_turn, ConnReadEvent, ConnView, HttpConnErrorView, ServerStepView,
};
use crate::http_server::{
    at_conn, numbered, server_ticks, without, ServerTickEvent, ServerTickStepView, ServerView,
};
use crate::id_map::ids_of;
use crate::method::method_named;
use crate::request::RequestView;
use crate::request_read::{request_room, request_turn, RequestStepView};
use crate::request_stream_laws::{
    law_next_request_is_read, read_so_far, stream_of, SentRequest,
};
use crate::sent_request::received;
use crate::server_laws::lemma_without;
use crate::stream::{text_view, IOError, StreamRead};
use crate::tick::TickResult;
use vstd::prelude::*;

verus! {

/// A client that opens a stream is taken in: its stream is under the number that is next, nothing
/// was read off it or written to it, it takes requests up to the size that the server is set to,
/// and the other connections are left alone.
pub proof fn law_client_is_taken_in<S>(
    s: ServerView<S>,
    stream: S,
    step: ServerTickStepView,
    after: ServerView<S>,
)
    requires
        server_ticks(s, ServerTickEvent::Accepted(stream), step, after),
        numbered(s.conns),
        s.conns.seq < usize::MAX,
    ensures
        step is Accept,
        after.accepted,
        after.conns.seq == s.conns.seq + 1,
        after.conns.conns.contains_key(s.conns.seq),
        ({
            let conn = after.conns.conns[s.conns.seq];
            &&& conn.stream == stream
            &&& conn.max_body == s.max_body
            &&& conn.header.data.len() == 0
            &&& conn.header.cap == 8096
            &&& conn.output.len() == 0
            &&& conn.request is None
            &&& conn.response is Empty
            &&& conn.inflight.len() == 0
            &&& conn.request_cnt == 0
            &&& !conn.closed
        }),
        forall|id: usize| #[trigger]
            s.conns.conns.contains_key(id) ==> after.conns.conns.contains_pair(
                id,
                s.conns.conns[id],
            ),
        forall|id: usize| #[trigger]
            after.conns.conns.contains_key(id) ==> id == s.conns.seq || s.conns.conns.contains_key(
                id,
            ),
{
}

/// Whatever happens, a server is set as it was, and gives out no number again. Connections come
/// only with clients that open streams.
pub proof fn law_settings_stay<S>(
    s: ServerView<S>,
    event: ServerTickEvent<S>,
    step: ServerTickStepView,
    after: ServerView<S>,
)
    requires
        server_ticks(s, event, step, after),
        event is Conn || event is Handled ==> at_conn(s),
        s.conns.seq < usize::MAX,
    ensures
        after.max_body == s.max_body,
        after.tls == s.tls,
        after.conns.seq == if event is Accepted {
            s.conns.seq + 1
        } else {
            s.conns.seq as int
        },
        !(event is Accepted) ==> forall|id: usize| #[trigger]
            after.conns.conns.contains_key(id) ==> s.conns.conns.contains_key(id),
{
    assert forall|id: usize, conns: Map<usize, ConnView<S>>, ids: Seq<usize>| #[trigger]
        without(conns, ids).contains_key(id) implies conns.contains_key(id) by {
        lemma_without(conns, ids, id);
    }
}

/// A round begins with looking for clients; whether one has come is not known yet, and nothing else
/// has changed.
pub proof fn law_round_begins<S>(s: ServerView<S>, step: ServerTickStepView, after: ServerView<S>)
    requires
        server_ticks(s, ServerTickEvent::Start, step, after),
    ensures
        step is Accept,
        !after.accepted,
        after.conns == s.conns,
{
}

/// Once no more clients come, what that amounts to is counted, and the oldest connection is looked
/// at; where there is none, the handler is told that the round is over.
pub proof fn law_looks_begin<S>(
    s: ServerView<S>,
    failed: bool,
    step: ServerTickStepView,
    after: ServerView<S>,
)
    requires
        server_ticks(
            s,
            if failed {
                ServerTickEvent::AcceptFailed
            } else {
                ServerTickEvent::NoMore
            },
            step,
            after,
        ),
    ensures
        after.conns == s.conns,
        after.tick == if failed {
            TickResult::Error
        } else if s.accepted {
            TickResult::Busy
        } else {
            TickResult::Idle
        },
        forall|id: usize| #[trigger] s.conns.conns.contains_key(id) <==> after.ids.contains(id),
        forall|i: int, j: int| 0 <= i < j < after.ids.len() ==> after.ids[i] < after.ids[j],
        step == if after.ids.len() == 0 {
            ServerTickStepView::OnTick
        } else {
            ServerTickStepView::Flush(after.ids[0])
        },
{
    assert(ids_of(s.conns.conns, after.ids));
    assert forall|id: usize| #[trigger] s.conns.conns.contains_key(id)
        <==> after.ids.contains(id) by {
        if after.ids.contains(id) {
            let i = choose|i: int| 0 <= i < after.ids.len() && after.ids[i] == id;
            assert(s.conns.conns.contains_key(after.ids[i]));
        }
    }
    assert(without(s.conns.conns, Seq::<usize>::empty()) == s.conns.conns);
}

/// Whether a request that was read is one that was sent: what was asked for, how, with which
/// headers and with which body.
pub open spec fn is_sent_request(
    read: RequestView,
    sent: SentRequest,
    peer_ip: Option<Seq<char>>,
) -> bool {
    &&& read.method == method_named(sent.method)
    &&& read.path == Some(sent.resource)
    &&& read.headers == received(sent.list)
    &&& read.body == sent.body
    &&& read.size == sent.bytes().len()
    &&& read.peer_ip == peer_ip
}

/// What a request is read as.
proof fn lemma_as_read(sent: SentRequest, peer_ip: Option<Seq<char>>)
    ensures
        is_sent_request(sent.as_read(peer_ip), sent, peer_ip),
{
    assert(sent.bytes().skip(sent.head().len() as int) =~= sent.body);
}

/// The bytes that an event brings to a connection that takes requests.
pub open spec fn brings<S>(c: ConnView<S>, event: ConnReadEvent, more: Seq<u8>) -> bool {
    match event {
        ConnReadEvent::Flushed(Ok(_)) => !c.closed && more.len() == 0,
        ConnReadEvent::Read(StreamRead::Data(data)) => {
            data@ == more && more.len() <= request_room(c.header, c.request)
        },
        _ => false,
    }
}

/// The handler is told of every request, in order and as it was sent, however the bytes are cut,
/// once the request is there as a whole; until then more is read off that connection. What is
/// behind the request is kept, the request waits for its answer, and nothing else is changed.
pub proof fn law_requests_are_told<S>(
    s: ServerView<S>,
    requests: Seq<SentRequest>,
    got: Seq<u8>,
    count: int,
    event: ConnReadEvent,
    more: Seq<u8>,
    peer: Option<String>,
    step: ServerTickStepView,
    after: ServerView<S>,
)
    requires
        at_conn(s),
        server_ticks(s, ServerTickEvent::Conn(event, peer), step, after),
        requests.len() > 0,
        ({
            let c = s.conns.conns[s.ids[s.at]];
            &&& forall|i: int|
                0 <= i < requests.len() ==> (#[trigger] requests[i]).fits(c.header.cap, c.max_body)
            &&& read_so_far(requests, got, count, c.header, c.request)
            &&& c.header.data.len() <= c.header.cap
            &&& brings(c, event, more)
        }),
        (got + more).is_prefix_of(stream_of(requests)),
    ensures
        ({
            let id = s.ids[s.at];
            let c = s.conns.conns[id];
            let then = after.conns.conns[id];
            &&& match step {
                ServerTickStepView::Request { conn_id, is_close, peer_addr, req } => {
                    &&& conn_id == id
                    &&& !is_close
                    &&& peer_addr == text_view(peer)
                    &&& count < requests.len()
                    &&& is_sent_request(req, requests[count], text_view(peer))
                    &&& read_so_far(requests, got + more, count + 1, then.header, then.request)
                    &&& then.inflight.len() == c.inflight.len() + 1
                },
                ServerTickStepView::NeedRead(on, n) => {
                    &&& on == id
                    &&& n == request_room(then.header, then.request)
                    &&& n > 0
                    &&& read_so_far(requests, got + more, count, then.header, then.request)
                    &&& count < requests.len() ==> (got + more).len() < stream_of(
                        requests.take(count + 1),
                    ).len()
                    &&& then.inflight == c.inflight
                },
                _ => false,
            }
            &&& then.closed == c.closed
            &&& then.output == c.output
            &&& then.stream == c.stream
            &&& then.max_body == c.max_body
            &&& then.request_cnt == c.request_cnt
            &&& after == (ServerView { conns: after.conns, ..s })
            &&& forall|other: usize|
                other != id ==> (#[trigger] after.conns.conns.contains_key(other)
                    <==> s.conns.conns.contains_key(other)) && after.conns.conns[other]
                    == s.conns.conns[other]
        }),
{
    let c = s.conns.conns[s.ids[s.at]];
    let read = match event {
        ConnReadEvent::Read(read) => Some(read@),
        _ => None,
    };
    law_next_request_is_read(
        requests,
        got,
        count,
        c.header,
        c.request,
        read,
        more,
        c.max_body,
        text_view(peer),
    );
    if 0 <= count < requests.len() {
        lemma_as_read(requests[count], text_view(peer));
    }
}

/// Behind a request its connection is as the handler wants it: it takes no new requests where the
/// handler said so, or had said so before, and nothing else of it is changed. All other connections
/// are as they were, but for those that failed before, which are dropped when the round is over.
pub proof fn law_conn_stays_open_unless_told<S>(
    s: ServerView<S>,
    is_close: bool,
    step: ServerTickStepView,
    after: ServerView<S>,
)
    requires
        at_conn(s),
        !s.remove.contains(s.ids[s.at]),
        server_ticks(s, ServerTickEvent::Handled(is_close), step, after),
    ensures
        ({
            let id = s.ids[s.at];
            let c = s.conns.conns[id];
            &&& after.conns.conns.contains_key(id)
            &&& after.conns.conns[id].closed == (c.closed || is_close)
            &&& !is_close ==> after.conns.conns[id] == c
            &&& after.conns.conns[id] == (ConnView { closed: c.closed || is_close, ..c })
            &&& after.remove == s.remove
        }),
        forall|id: usize|
            id != s.ids[s.at] && #[trigger] s.conns.conns.contains_key(id) && !s.remove.contains(id)
                ==> after.conns.conns.contains_pair(id, s.conns.conns[id]),
        step == if s.at + 1 < s.ids.len() {
            ServerTickStepView::Flush(s.ids[s.at + 1])
        } else {
            ServerTickStepView::OnTick
        },
{
    let id = s.ids[s.at];
    let c = s.conns.conns[id];
    let told = ConnView { closed: c.closed || is_close, ..c };
    assert(s.conns.conns.insert(id, c) =~= s.conns.conns);
    assert(is_close ==> told == (ConnView { closed: true, ..c }));
    assert(!is_close ==> told == c);
    let conns = s.conns.conns.insert(id, told);
    assert forall|other: usize| without(conns, s.remove).contains_key(other) == (
    s.conns.conns.contains_key(other) && !s.remove.contains(other)) && (without(
        conns,
        s.remove,
    ).contains_key(other) ==> without(conns, s.remove)[other] == #[trigger] conns[other]) by {
        lemma_without(conns, s.remove, other);
    }
    lemma_without(conns, s.remove, id);
    assert(conns[id] == told);
    assert forall|other: usize|
        other != id && #[trigger] s.conns.conns.contains_key(other) && !s.remove.contains(
            other,
        ) implies after.conns.conns.contains_pair(other, s.conns.conns[other]) by {
        lemma_without(conns, s.remove, other);
        assert(conns[other] == s.conns.conns[other]);
    }
}

/// Whether the look at a connection is over, and the next is looked at or the round is over. The
/// connection is dropped at the end of the round, or is left as `conn`.
pub open spec fn look_is_over<S>(
    s: ServerView<S>,
    conn: ConnView<S>,
    dropped: bool,
    step: ServerTickStepView,
    after: ServerView<S>,
) -> bool {
    let id = s.ids[s.at];
    &&& step == if s.at + 1 < s.ids.len() {
        ServerTickStepView::Flush(s.ids[s.at + 1])
    } else {
        ServerTickStepView::OnTick
    }
    &&& after.remove == if dropped {
        s.remove.push(id)
    } else {
        s.remove
    }
    &&& step is OnTick ==> (after.conns.conns.contains_key(id) <==> !dropped)
    &&& step is OnTick ==> after.tick == s.tick.merged(after.read)
    &&& !(step is OnTick) ==> after.conns.conns.contains_key(id) && after.at == s.at + 1
    &&& after.conns.conns.contains_key(id) ==> after.conns.conns[id] == conn
    &&& after.read == if dropped {
        s.read.merged(TickResult::Busy)
    } else {
        s.read
    }
}

proof fn lemma_look_over<S>(s: ServerView<S>, conn: ConnView<S>, dropped: bool)
    requires
        at_conn(s),
        !s.remove.contains(s.ids[s.at]),
    ensures
        ({
            let id = s.ids[s.at];
            let conns = s.conns.conns.insert(id, conn);
            let remove = if dropped {
                s.remove.push(id)
            } else {
                s.remove
            };
            &&& without(conns, remove).contains_key(id) <==> !dropped
            &&& !dropped ==> without(conns, remove)[id] == conn
        }),
{
    let id = s.ids[s.at];
    let conns = s.conns.conns.insert(id, conn);
    lemma_without(conns, s.remove, id);
    lemma_without(conns, s.remove.push(id), id);
    assert(s.remove.push(id)[s.remove.len() as int] == id);
}

/// A connection on which nothing has come is kept as it is, and the look at it amounts to nothing.
pub proof fn law_quiet_conn_is_kept<S>(
    s: ServerView<S>,
    peer: Option<String>,
    step: ServerTickStepView,
    after: ServerView<S>,
)
    requires
        at_conn(s),
        !s.remove.contains(s.ids[s.at]),
        server_ticks(
            s,
            ServerTickEvent::Conn(ConnReadEvent::Read(StreamRead::WouldBlock), peer),
            step,
            after,
        ),
    ensures
        look_is_over(s, s.conns.conns[s.ids[s.at]], false, step, after),
{
    lemma_look_over(s, s.conns.conns[s.ids[s.at]], false);
}

/// A connection whose stream has ended or failed is dropped, and that is counted.
pub proof fn law_ended_conn_is_dropped<S>(
    s: ServerView<S>,
    event: ConnReadEvent,
    peer: Option<String>,
    step: ServerTickStepView,
    after: ServerView<S>,
)
    requires
        at_conn(s),
        !s.remove.contains(s.ids[s.at]),
        match event {
            ConnReadEvent::Read(read) => read is Eof || read is Failed,
            ConnReadEvent::Flushed(outcome) => outcome is Err,
            ConnReadEvent::Start => false,
        },
        server_ticks(s, ServerTickEvent::Conn(event, peer), step, after),
    ensures
        look_is_over(s, s.conns.conns[s.ids[s.at]], true, step, after),
{
    lemma_look_over(s, s.conns.conns[s.ids[s.at]], true);
}

/// A connection that takes no new requests is kept until all are answered, and is then dropped.
/// Nothing is read off it any more.
pub proof fn law_closed_conn_ends_when_answered<S>(
    s: ServerView<S>,
    peer: Option<String>,
    step: ServerTickStepView,
    after: ServerView<S>,
)
    requires
        at_conn(s),
        !s.remove.contains(s.ids[s.at]),
        s.conns.conns[s.ids[s.at]].closed,
        server_ticks(
            s,
            ServerTickEvent::Conn(ConnReadEvent::Flushed(Ok(())), peer),
            step,
            after,
        ),
    ensures
        ({
            let c = s.conns.conns[s.ids[s.at]];
            look_is_over(s, c, c.inflight.len() == 0, step, after)
        }),
{
    let c = s.conns.conns[s.ids[s.at]];
    lemma_look_over(s, c, c.inflight.len() == 0);
}

/// What the connection that is looked at wants is what is done next, on that connection: what is
/// left is written out, it is read off, or the handler is told of a request. Where it gives
/// nothing, or fails, the look at it is over. The other connections are left alone.
pub proof fn law_conn_gets_what_it_wants<S>(
    s: ServerView<S>,
    event: ConnReadEvent,
    peer: Option<String>,
    step: ServerTickStepView,
    after: ServerView<S>,
)
    requires
        at_conn(s),
        !s.remove.contains(s.ids[s.at]),
        server_ticks(s, ServerTickEvent::Conn(event, peer), step, after),
    ensures
        ({
            let id = s.ids[s.at];
            let (done, conn) = server_read_turn(s.conns.conns[id], event, text_view(peer));
            match done {
                ServerStepView::NotReady => look_is_over(s, conn, false, step, after),
                ServerStepView::Failed(_) => look_is_over(s, conn, true, step, after),
                _ => {
                    &&& step == match done {
                        ServerStepView::Flush => ServerTickStepView::Flush(id),
                        ServerStepView::NeedRead(n) => ServerTickStepView::NeedRead(id, n),
                        ServerStepView::Fault(fault) => ServerTickStepView::Fault(fault),
                        _ => ServerTickStepView::Request {
                            conn_id: id,
                            is_close: false,
                            peer_addr: text_view(peer),
                            req: done->Done_0,
                        },
                    }
                    &&& after.conns.conns == s.conns.conns.insert(id, conn)
                    &&& after.conns.seq == s.conns.seq
                    &&& after == (ServerView { conns: after.conns, ..s })
                },
            }
        }),
{
    let id = s.ids[s.at];
    let (done, conn) = server_read_turn(s.conns.conns[id], event, text_view(peer));
    lemma_look_over(s, conn, true);
    lemma_look_over(s, conn, false);
}

/// A round ends with what all of it amounts to: it failed where a part of it failed, and else
/// something was done where something was done in a part of it.
pub proof fn law_round_ends<S>(
    s: ServerView<S>,
    told: TickResult,
    step: ServerTickStepView,
    after: ServerView<S>,
)
    requires
        server_ticks(s, ServerTickEvent::Ticked(told), step, after),
    ensures
        step matches ServerTickStepView::Done(all) && {
            &&& all is Error <==> s.tick is Error || told is Error
            &&& all is Idle <==> s.tick is Idle && told is Idle
        },
        after.conns == s.conns,
{
}

/// The connection of a server hands on what was read off it: a request as it is, which then waits
/// for its answer; that more is needed, or that nothing has come; or the error. Before anything is
/// read, what is left is written out, and nothing is read off one that takes no new requests.
pub proof fn law_request_is_handed_on<S>(
    c: ConnView<S>,
    event: ConnReadEvent,
    peer_ip: Option<Seq<char>>,
)
    ensures
        ({
            let (step, after) = server_read_turn(c, event, peer_ip);
            let read = match event {
                ConnReadEvent::Read(read) => Some(read@),
                _ => None,
            };
            let turn = request_turn(read, c.header, c.request, c.max_body, peer_ip);
            let next = ConnView { header: turn.header, request: turn.pending, ..c };
            &&& event is Start ==> step is Flush && after == c
            &&& event matches ConnReadEvent::Flushed(Err(e)) ==> after == c && step
                == ServerStepView::Failed(
                match e {
                    IOError::EOF { .. } => HttpConnErrorView::EOF,
                    IOError::WouldBlock => HttpConnErrorView::WouldBlock,
                    IOError::Other(text) => HttpConnErrorView::IoError(text@),
                },
            )
            &&& (event matches ConnReadEvent::Flushed(Ok(_))) && c.closed ==> after == c && step
                == if c.inflight.len() > 0 {
                ServerStepView::NotReady
            } else {
                ServerStepView::Failed(HttpConnErrorView::EOF)
            }
            &&& (event is Read || ((event matches ConnReadEvent::Flushed(Ok(_))) && !c.closed))
                ==> match turn.step {
                RequestStepView::Done(req) => {
                    &&& step == ServerStepView::Done(req)
                    &&& after.inflight.len() == c.inflight.len() + 1
                    &&& after == (ConnView { inflight: after.inflight, ..next })
                },
                RequestStepView::NeedRead(n) => {
                    &&& n > 0 ==> step == ServerStepView::NeedRead(n)
                    &&& n == 0 ==> step is Fault
                    &&& after == next
                },
                RequestStepView::NotReady => step is NotReady && after == next,
                RequestStepView::Failed(e) => {
                    &&& step == ServerStepView::Failed(
                        if e is ReadEOF {
                            HttpConnErrorView::EOF
                        } else {
                            HttpConnErrorView::Error(e)
                        },
                    )
                    &&& after == next
                },
                RequestStepView::Fault(_) => step is Fault && after == next,
            }
        }),
{
}

} // verus!
