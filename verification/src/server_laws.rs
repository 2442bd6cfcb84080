//! What holds of servers.
use crate::conn::{queued, ConnReadEvent, ConnView};
use crate::http_server::{at_conn, conn_turn, handled_turn, next_conn_turn, without, ServerView};
use crate::tick::TickResult;
use crate::uri::uri_parts;
use crate::ws_accept::ServerHandshake;
use crate::ws_handshake::accept_string;
use crate::ws_parser::{accept_text, new_parser, WsParserState, WsPhase};
use crate::ws_server::{next_pending, PendingEnd, PendingView};
use vstd::prelude::*;
use vstd::utf8::encode_utf8;

verus! {

/// What is left of a table.
pub proof fn lemma_without<V>(map: Map<usize, V>, ids: Seq<usize>, id: usize)
    ensures
        without(map, ids).contains_key(id) <==> map.contains_key(id) && !ids.contains(id),
        without(map, ids).contains_key(id) ==> without(map, ids)[id] == map[id],
    decreases ids.len(),
{
    if ids.len() > 0 {
        let shorter = ids.drop_last();
        lemma_without(map, shorter, id);
        if shorter.contains(id) {
            let i = choose|i: int| 0 <= i < shorter.len() && shorter[i] == id;
            assert(ids[i] == id);
        }
        if ids.contains(id) && id != ids.last() {
            let i = choose|i: int| 0 <= i < ids.len() && ids[i] == id;
            assert(shorter[i] == id);
        }
        assert(ids.contains(ids.last()));
    }
}

/// At the end of the looks at the connections, those that failed are dropped, and no other; the
/// rest is left as it is.
pub proof fn law_only_failed_conns_are_dropped<S>(s: ServerView<S>, id: usize)
    requires
        s.at >= s.ids.len(),
    ensures
        ({
            let (step, after) = next_conn_turn(s);
            &&& step is OnTick
            &&& after.conns.conns.contains_key(id) <==> s.conns.conns.contains_key(id)
                && !s.remove.contains(id)
            &&& after.conns.conns.contains_key(id) ==> after.conns.conns[id] == s.conns.conns[id]
        }),
{
    lemma_without(s.conns.conns, s.remove, id);
}

/// What one connection gives, and what the handler says of it, leaves the others alone: they are
/// dropped only if they failed before.
pub proof fn law_conns_do_not_interfere<S>(
    s: ServerView<S>,
    event: ConnReadEvent,
    peer: Option<Seq<char>>,
    is_close: bool,
    id: usize,
)
    requires
        at_conn(s),
        id != s.ids[s.at],
        s.conns.conns.contains_key(id),
        !s.remove.contains(id),
    ensures
        conn_turn(s, event, peer).1.conns.conns.contains_pair(id, s.conns.conns[id]),
        handled_turn(s, is_close).1.conns.conns.contains_pair(id, s.conns.conns[id]),
{
    let conns = s.conns.conns;
    let at = s.ids[s.at];
    assert forall|conn: ConnView<S>| without(
        #[trigger] conns.insert(at, conn),
        s.remove,
    ).contains_pair(id, conns[id]) by {
        lemma_without(conns.insert(at, conn), s.remove, id);
    }
    assert forall|conn: ConnView<S>| without(
        #[trigger] conns.insert(at, conn),
        s.remove.push(at),
    ).contains_pair(id, conns[id]) by {
        lemma_without(conns.insert(at, conn), s.remove.push(at), id);
        if s.remove.push(at).contains(id) {
            let i = choose|i: int| 0 <= i < s.remove.push(at).len() && s.remove.push(at)[i] == id;
            assert(s.remove[i] == id);
        }
    }
    lemma_without(conns, s.remove, id);
}

/// A connection that becomes a WebSocket stream is not one of the others any more, and is answered
/// to the key that its client gave.
pub proof fn law_upgraded_conn_is_answered<S>(
    pending: Seq<PendingView>,
    conns: Map<usize, ConnView<S>>,
    frame_size: usize,
    now: u64,
    tick: TickResult,
)
    ensures
        ({
            let next = next_pending(pending, conns, frame_size, now, tick);
            next.end matches PendingEnd::Answer { pending: p, handshake } ==> {
                &&& pending.contains(p)
                &&& conns.contains_key(p.conn_id)
                &&& !next.conns.contains_key(p.conn_id)
                &&& handshake == (ServerHandshake::WaitSent {
                    parser: WsParserState { phase: WsPhase::Open, ..new_parser(false) },
                    conn: queued(
                        conns[p.conn_id],
                        encode_utf8(accept_text(accept_string(p.key))),
                    ),
                    endpoint: uri_parts("ws://localhost"@ + p.path)->0,
                })
            }
        }),
    decreases pending.len(),
{
    if pending.len() > 0 {
        let p = pending.last();
        let rest = pending.drop_last();
        let busy = tick.merged(TickResult::Busy);
        law_upgraded_conn_is_answered(rest, conns, frame_size, now, tick);
        law_upgraded_conn_is_answered(rest, conns.remove(p.conn_id), frame_size, now, busy);
        assert(pending[pending.len() - 1] == p);
        assert forall|q: PendingView| rest.contains(q) implies pending.contains(q) by {
            let i = choose|i: int| 0 <= i < rest.len() && rest[i] == q;
            assert(pending[i] == q);
        }
    }
}

/// Connections whose clients have not asked for a WebSocket stay as they are.
pub proof fn law_other_conns_stay<S>(
    pending: Seq<PendingView>,
    conns: Map<usize, ConnView<S>>,
    frame_size: usize,
    now: u64,
    tick: TickResult,
    id: usize,
)
    requires
        conns.contains_key(id),
        forall|i: int| 0 <= i < pending.len() ==> (#[trigger] pending[i]).conn_id != id,
    ensures
        next_pending(pending, conns, frame_size, now, tick).conns.contains_pair(id, conns[id]),
    decreases pending.len(),
{
    if pending.len() > 0 {
        let p = pending.last();
        let rest = pending.drop_last();
        let busy = tick.merged(TickResult::Busy);
        assert(pending[pending.len() - 1].conn_id != id);
        assert forall|i: int| 0 <= i < rest.len() implies (#[trigger] rest[i]).conn_id != id by {
            assert(rest[i] == pending[i]);
        }
        law_other_conns_stay(rest, conns, frame_size, now, tick, id);
        law_other_conns_stay(rest, conns.remove(p.conn_id), frame_size, now, busy, id);
    }
}

} // verus!
