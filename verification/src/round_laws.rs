//! What holds of whole rounds of a server.
use crate::conn::{server_read_turn, ConnView, ServerStepView};
use crate::http_server::{
    conn_turn, handled_turn, looks_at_conns, next_conn_turn, server_ticks, ConnsView,
    ServerTickEvent, ServerTickStepView, ServerView,
};
use crate::id_map::ids_of;
use crate::server_laws::lemma_without;
use crate::stream::text_view;
use crate::tick::TickResult;
use vstd::prelude::*;

verus! {

/// One move of a round: what has come of what was asked for, what is to be done next, and the
/// server; and the server later, when that was done on one of its connections.
pub struct ServerMove<S> {
    pub event: ServerTickEvent<S>,
    pub step: ServerTickStepView,
    pub after: ServerView<S>,
    pub later: ServerView<S>,
}

/// Whether an event can come of what was asked for while the connections are looked at.
pub open spec fn answers_step<S>(step: ServerTickStepView, event: ServerTickEvent<S>) -> bool {
    match step {
        ServerTickStepView::Flush(_) | ServerTickStepView::NeedRead(_, _) => event is Conn,
        ServerTickStepView::Request { .. } => event is Handled,
        _ => false,
    }
}

/// Whether two servers are alike but for what their connections hold.
pub open spec fn same_but_conns<S>(a: ServerView<S>, b: ServerView<S>) -> bool {
    &&& b == (ServerView {
        conns: ConnsView { conns: b.conns.conns, ..a.conns },
        ..a
    })
    &&& a.conns.conns.dom() == b.conns.conns.dom()
}

/// The server at the end of moves.
pub open spec fn server_after<S>(s: ServerView<S>, moves: Seq<ServerMove<S>>) -> ServerView<S> {
    if moves.len() == 0 {
        s
    } else {
        moves.last().later
    }
}

/// Whether a server looks at its connections by these moves, from where no more clients have opened
/// a stream; `tick` is what the round amounts to until then.
pub open spec fn looks_by<S>(
    s: ServerView<S>,
    tick: TickResult,
    moves: Seq<ServerMove<S>>,
) -> bool
    decreases moves.len(),
{
    if moves.len() == 0 {
        true
    } else {
        let m = moves.last();
        let earlier = moves.drop_last();
        &&& looks_by(s, tick, earlier)
        &&& same_but_conns(m.after, m.later)
        &&& if earlier.len() == 0 {
            looks_at_conns(s, tick, m.step, m.after)
        } else {
            &&& answers_step(earlier.last().step, m.event)
            &&& server_ticks(earlier.last().later, m.event, m.step, m.after)
        }
    }
}

/// How a look at a connection ends.
pub enum LookEnd {
    /// Nothing has come.
    Nothing,
    /// A request has come.
    Request,
    /// The connection failed.
    Failed,
}

/// A look at a connection.
pub struct Look {
    pub id: usize,
    pub end: LookEnd,
}

/// How the look at a connection ends, if an event ends it.
pub open spec fn look_end<S>(s: ServerView<S>, event: ServerTickEvent<S>) -> Option<LookEnd> {
    match event {
        ServerTickEvent::Conn(e, peer) => {
            match server_read_turn(s.conns.conns[s.ids[s.at]], e, text_view(peer)).0 {
                ServerStepView::NotReady => Some(LookEnd::Nothing),
                ServerStepView::Failed(_) => Some(LookEnd::Failed),
                _ => None,
            }
        },
        ServerTickEvent::Handled(_) => Some(LookEnd::Request),
        _ => None,
    }
}

/// The looks at connections that moves have ended, in order.
pub open spec fn looks<S>(moves: Seq<ServerMove<S>>) -> Seq<Look>
    decreases moves.len(),
{
    if moves.len() <= 1 {
        Seq::empty()
    } else {
        let earlier = moves.drop_last();
        let s = earlier.last().later;
        match look_end(s, moves.last().event) {
            Some(end) => looks(earlier).push(Look { id: s.ids[s.at], end }),
            None => looks(earlier),
        }
    }
}

/// The connections that were looked at.
pub open spec fn looked_at(looks: Seq<Look>) -> Seq<usize> {
    looks.map_values(|look: Look| look.id)
}

/// The connections that failed.
pub open spec fn failed(looks: Seq<Look>) -> Seq<usize>
    decreases looks.len(),
{
    if looks.len() == 0 {
        Seq::empty()
    } else if looks.last().end is Failed {
        failed(looks.drop_last()).push(looks.last().id)
    } else {
        failed(looks.drop_last())
    }
}

/// What looks amount to: something was done where a request has come or a connection failed.
pub open spec fn looks_amount(looks: Seq<Look>) -> TickResult {
    if exists|i: int| 0 <= i < looks.len() && !((#[trigger] looks[i]).end is Nothing) {
        TickResult::Busy
    } else {
        TickResult::Idle
    }
}

/// Where a server is while it looks at its connections: it has looked at the first of them, and
/// what is to be done is to be done on the next.
pub open spec fn mid_round<S>(
    s: ServerView<S>,
    tick: TickResult,
    done: Seq<Look>,
    step: ServerTickStepView,
    now: ServerView<S>,
) -> bool {
    &&& ids_of(s.conns.conns, now.ids)
    &&& done.len() < now.ids.len()
    &&& looked_at(done) == now.ids.take(done.len() as int)
    &&& now.at == done.len()
    &&& now.remove == failed(done)
    &&& now.read == looks_amount(done)
    &&& now.tick == tick
    &&& now.conns.conns.dom() == s.conns.conns.dom()
    &&& match step {
        ServerTickStepView::Flush(id) | ServerTickStepView::NeedRead(id, _) => id
            == now.ids[now.at],
        ServerTickStepView::Request { conn_id, .. } => conn_id == now.ids[now.at],
        ServerTickStepView::Fault(_) => true,
        _ => false,
    }
}

/// What a round over the connections comes to: each was looked at once, by ascending number; those
/// that failed, and no other, are dropped; and something was done exactly where a request has come
/// or a connection failed.
pub open spec fn round_over<S>(
    s: ServerView<S>,
    tick: TickResult,
    done: Seq<Look>,
    after: ServerView<S>,
) -> bool {
    &&& ids_of(s.conns.conns, looked_at(done))
    &&& forall|id: usize| #[trigger]
        after.conns.conns.contains_key(id) <==> s.conns.conns.contains_key(id) && !failed(
            done,
        ).contains(id)
    &&& after.tick == tick.merged(looks_amount(done))
}

proof fn lemma_look_added(done: Seq<Look>, look: Look)
    ensures
        looked_at(done.push(look)) == looked_at(done).push(look.id),
        failed(done.push(look)) == if look.end is Failed {
            failed(done).push(look.id)
        } else {
            failed(done)
        },
        looks_amount(done.push(look)) == if look.end is Nothing {
            looks_amount(done)
        } else {
            TickResult::Busy
        },
{
    let all = done.push(look);
    assert(all.drop_last() =~= done);
    assert(looked_at(all) =~= looked_at(done).push(look.id));
    if exists|i: int| 0 <= i < done.len() && !((#[trigger] done[i]).end is Nothing) {
        let i = choose|i: int| 0 <= i < done.len() && !((#[trigger] done[i]).end is Nothing);
        assert(!(all[i].end is Nothing));
    }
    if !(look.end is Nothing) {
        assert(!(all[done.len() as int].end is Nothing));
    } else if exists|i: int| 0 <= i < all.len() && !((#[trigger] all[i]).end is Nothing) {
        let i = choose|i: int| 0 <= i < all.len() && !((#[trigger] all[i]).end is Nothing);
        assert(done[i] == all[i]);
    }
}

/// The turn to the next connection, or to the end of the round.
proof fn lemma_next<S>(s: ServerView<S>, tick: TickResult, done: Seq<Look>, now: ServerView<S>)
    requires
        ids_of(s.conns.conns, now.ids),
        done.len() <= now.ids.len(),
        looked_at(done) == now.ids.take(done.len() as int),
        now.at == done.len(),
        now.remove == failed(done),
        now.read == looks_amount(done),
        now.tick == tick,
        now.conns.conns.dom() == s.conns.conns.dom(),
    ensures
        ({
            let (step, after) = next_conn_turn(now);
            if done.len() < now.ids.len() {
                mid_round(s, tick, done, step, after)
            } else {
                step is OnTick && round_over(s, tick, done, after)
            }
        }),
{
    if done.len() == now.ids.len() {
        let (step, after) = next_conn_turn(now);
        assert(now.ids.take(done.len() as int) =~= now.ids);
        assert forall|id: usize| #[trigger] after.conns.conns.contains_key(id)
            <==> s.conns.conns.contains_key(id) && !failed(done).contains(id) by {
            lemma_without(now.conns.conns, now.remove, id);
            assert(now.conns.conns.contains_key(id) <==> now.conns.conns.dom().contains(id));
            assert(s.conns.conns.contains_key(id) <==> s.conns.conns.dom().contains(id));
        }
    }
}

/// What looks at connections have come to, at any time.
proof fn lemma_looks<S>(s: ServerView<S>, tick: TickResult, moves: Seq<ServerMove<S>>)
    requires
        moves.len() > 0,
        looks_by(s, tick, moves),
    ensures
        ({
            let m = moves.last();
            let done = looks(moves);
            if m.step is OnTick {
                round_over(s, tick, done, m.after)
            } else {
                mid_round(s, tick, done, m.step, m.later)
            }
        }),
    decreases moves.len(),
{
    let m = moves.last();
    let earlier = moves.drop_last();
    let done = looks(moves);
    if earlier.len() == 0 {
        let start = ServerView {
            tick,
            read: TickResult::Idle,
            ids: m.after.ids,
            at: 0,
            remove: Seq::empty(),
            ..s
        };
        assert(looked_at(done) =~= m.after.ids.take(0));
        lemma_next(s, tick, done, start);
    } else {
        lemma_looks(s, tick, earlier);
        let before = earlier.last().later;
        let so_far = looks(earlier);
        let id = before.ids[before.at];
        assert(before.conns.conns.dom().contains(id)) by {
            assert(s.conns.conns.contains_key(before.ids[before.at]));
        }
        match look_end(before, m.event) {
            Some(end) => {
                let look = Look { id, end };
                lemma_look_added(so_far, look);
                assert(looked_at(done) =~= before.ids.take(so_far.len() as int + 1));
                lemma_ended(s, tick, so_far, before, m.event, look);
            },
            None => {
                assert(m.event is Conn);
                let conn = m.after.conns.conns[id];
                assert(m.after.conns.conns.dom() =~= before.conns.conns.dom());
            },
        }
    }
}

/// The move that ends a look.
proof fn lemma_ended<S>(
    s: ServerView<S>,
    tick: TickResult,
    so_far: Seq<Look>,
    before: ServerView<S>,
    event: ServerTickEvent<S>,
    look: Look,
)
    requires
        ids_of(s.conns.conns, before.ids),
        so_far.len() < before.ids.len(),
        before.at == so_far.len(),
        before.remove == failed(so_far),
        before.read == looks_amount(so_far),
        before.tick == tick,
        before.conns.conns.dom() == s.conns.conns.dom(),
        before.conns.conns.dom().contains(before.ids[before.at]),
        look.id == before.ids[before.at],
        look_end(before, event) == Some(look.end),
        looked_at(so_far.push(look)) == before.ids.take(so_far.len() as int + 1),
    ensures
        ({
            let done = so_far.push(look);
            let (step, after) = match event {
                ServerTickEvent::Conn(e, peer) => conn_turn(before, e, text_view(peer)),
                ServerTickEvent::Handled(is_close) => handled_turn(before, is_close),
                _ => arbitrary(),
            };
            if done.len() < before.ids.len() {
                mid_round(s, tick, done, step, after)
            } else {
                step is OnTick && round_over(s, tick, done, after)
            }
        }),
{
    let done = so_far.push(look);
    let id = look.id;
    lemma_look_added(so_far, look);
    let conns = before.conns.conns;
    assert forall|conn: ConnView<S>| #[trigger] conns.insert(id, conn).dom() == conns.dom() by {
        assert(conns.insert(id, conn).dom() =~= conns.dom());
    }
    match event {
        ServerTickEvent::Conn(e, peer) => {
            let (_, conn) = server_read_turn(conns[id], e, text_view(peer));
            let next = ServerView {
                conns: ConnsView { conns: conns.insert(id, conn), ..before.conns },
                at: before.at + 1,
                remove: failed(done),
                read: looks_amount(done),
                ..before
            };
            lemma_next(s, tick, done, next);
        },
        ServerTickEvent::Handled(is_close) => {
            let closed = if is_close {
                conns.insert(id, ConnView { closed: true, ..conns[id] })
            } else {
                conns
            };
            let next = ServerView {
                conns: ConnsView { conns: closed, ..before.conns },
                at: before.at + 1,
                read: looks_amount(done),
                ..before
            };
            lemma_next(s, tick, done, next);
        },
        _ => {},
    }
}

/// In one round each connection is looked at once, by ascending number, those that were just taken
/// in among them; the connections that failed are dropped, and no other; and the looks amount to
/// something exactly where a request has come or a connection failed.
pub proof fn law_round_looks_at_all<S>(
    s: ServerView<S>,
    tick: TickResult,
    moves: Seq<ServerMove<S>>,
)
    requires
        moves.len() > 0,
        looks_by(s, tick, moves),
        moves.last().step is OnTick,
    ensures
        round_over(s, tick, looks(moves), moves.last().after),
{
    lemma_looks(s, tick, moves);
}

/// Until then, what is to be done is to be done on one connection after the other: on the one that
/// comes behind those that were looked at.
pub proof fn law_one_conn_at_a_time<S>(
    s: ServerView<S>,
    tick: TickResult,
    moves: Seq<ServerMove<S>>,
)
    requires
        moves.len() > 0,
        looks_by(s, tick, moves),
        !(moves.last().step is OnTick),
    ensures
        mid_round(s, tick, looks(moves), moves.last().step, moves.last().later),
{
    lemma_looks(s, tick, moves);
}

} // verus!
