//! What holds of whole rounds over the WebSocket streams of a server.
use crate::conn::ConnView;
use crate::id_map::ids_of;
use crate::tick::TickResult;
use crate::uri::uri_parts;
use crate::ws_accept::server_reads;
use crate::ws_server::{
    closing_turn, look, looks_on, next_pending, opens, ws_ticks, PendingEnd, PendingView,
    WsHandlerView, WsTickEvent, WsTickStepView,
};
use crate::ws_stream::{WsReadEvent, WsReadStepView};
use crate::ws_types::WsErrorView;
use vstd::prelude::*;

verus! {

/// One move of a round: the time, what has come of what was asked for, what is to be done next, the
/// handler, and the connections that are left; and the handler later, when that was done.
pub struct WsMove<S> {
    pub now: u64,
    pub event: WsTickEvent,
    pub step: WsTickStepView,
    pub after: WsHandlerView<S>,
    pub left: Map<usize, ConnView<S>>,
    pub later: WsHandlerView<S>,
}

/// How a look at a stream ends.
pub enum WsLookEnd {
    /// Nothing has come.
    Nothing,
    /// A message has come; the stream is to be dropped if the handler says so.
    Message { drop: bool },
    /// The stream failed.
    Failed,
}

/// A look at a stream.
pub struct WsLook {
    pub id: usize,
    pub end: WsLookEnd,
}

/// The looks that end without a message when the streams are looked at until one has something to
/// do.
pub open spec fn quiet_looks<S>(s: WsHandlerView<S>, now: u64, event: WsReadEvent) -> Seq<WsLook>
    decreases s.ids.len() - s.at,
{
    if s.at >= s.ids.len() {
        Seq::empty()
    } else {
        let id = s.ids[s.at];
        let turn = server_reads(s.conns[id], true, now, event);
        let next = WsHandlerView { conns: s.conns.insert(id, turn.stream), at: s.at + 1, ..s };
        match turn.step {
            WsReadStepView::Failed(WsErrorView::WouldBlock) => {
                seq![WsLook { id, end: WsLookEnd::Nothing }] + quiet_looks(
                    next,
                    now,
                    WsReadEvent::Start,
                )
            },
            WsReadStepView::Failed(_) | WsReadStepView::Connect => {
                seq![WsLook { id, end: WsLookEnd::Failed }] + quiet_looks(
                    WsHandlerView {
                        read: s.read.merged(TickResult::Busy),
                        remove: s.remove.push(id),
                        ..next
                    },
                    now,
                    WsReadEvent::Start,
                )
            },
            _ => Seq::empty(),
        }
    }
}

/// The streams that were looked at.
pub open spec fn looked_at(looks: Seq<WsLook>) -> Seq<usize> {
    looks.map_values(|look: WsLook| look.id)
}

/// Whether a stream is to be dropped after a look: it failed, or the handler says so.
pub open spec fn to_drop(look: WsLook) -> bool {
    look.end is Failed || look.end == (WsLookEnd::Message { drop: true })
}

/// The streams that are to be dropped.
pub open spec fn dropped(looks: Seq<WsLook>) -> Seq<usize>
    decreases looks.len(),
{
    if looks.len() == 0 {
        Seq::empty()
    } else if to_drop(looks.last()) {
        dropped(looks.drop_last()).push(looks.last().id)
    } else {
        dropped(looks.drop_last())
    }
}

/// What looks amount to: something was done where a message has come or a stream failed.
pub open spec fn looks_amount(looks: Seq<WsLook>) -> TickResult
    decreases looks.len(),
{
    if looks.len() == 0 {
        TickResult::Idle
    } else if looks.last().end is Nothing {
        looks_amount(looks.drop_last())
    } else {
        TickResult::Busy
    }
}

/// Looks behind looks.
proof fn lemma_looks_add(a: Seq<WsLook>, b: Seq<WsLook>)
    ensures
        looked_at(a + b) == looked_at(a) + looked_at(b),
        dropped(a + b) == dropped(a) + dropped(b),
        looks_amount(a + b) == looks_amount(a).merged(looks_amount(b)),
        looks_amount(a) is Idle || looks_amount(a) is Busy,
    decreases b.len(),
{
    assert(looked_at(a + b) =~= looked_at(a) + looked_at(b));
    if b.len() == 0 {
        assert(a + b =~= a);
        assert(dropped(a) + dropped(b) =~= dropped(a));
        lemma_amount(a);
    } else {
        assert((a + b).drop_last() =~= a + b.drop_last());
        lemma_looks_add(a, b.drop_last());
        lemma_amount(b.drop_last());
        assert(dropped(a + b) =~= dropped(a) + dropped(b));
    }
}

proof fn lemma_amount(a: Seq<WsLook>)
    ensures
        looks_amount(a) is Idle || looks_amount(a) is Busy,
    decreases a.len(),
{
    if a.len() > 0 {
        lemma_amount(a.drop_last());
    }
}

/// The streams of a handler are there that are still to be looked at.
pub open spec fn streams_there<S>(s: WsHandlerView<S>) -> bool {
    &&& 0 <= s.at <= s.ids.len()
    &&& forall|i: int| 0 <= i < s.ids.len() ==> s.conns.contains_key(#[trigger] s.ids[i])
}

/// What looking at streams until one has something to do comes to.
proof fn lemma_quiet<S>(s: WsHandlerView<S>, now: u64, event: WsReadEvent)
    requires
        streams_there(s),
        s.read is Idle || s.read is Busy,
    ensures
        ({
            let (turn, then) = look(s, now, event);
            let quiet = quiet_looks(s, now, event);
            &&& then == (WsHandlerView {
                conns: then.conns,
                at: s.at + quiet.len(),
                remove: s.remove + dropped(quiet),
                read: s.read.merged(looks_amount(quiet)),
                ..s
            })
            &&& looked_at(quiet) == s.ids.subrange(s.at, s.at + quiet.len())
            &&& then.at <= s.ids.len()
            &&& then.conns.dom() == s.conns.dom()
            &&& turn is None <==> then.at == s.ids.len()
            &&& turn matches Some(t) ==> !(t.step is Failed) && !(t.step is Connect)
        }),
    decreases s.ids.len() - s.at,
{
    let quiet = quiet_looks(s, now, event);
    if s.at >= s.ids.len() {
        assert(s.remove + dropped(quiet) =~= s.remove);
        assert(looked_at(quiet) =~= s.ids.subrange(s.at, s.at));
    } else {
        let id = s.ids[s.at];
        let turn = server_reads(s.conns[id], true, now, event);
        let conns = s.conns.insert(id, turn.stream);
        assert(conns.dom() =~= s.conns.dom());
        let next = WsHandlerView { conns, at: s.at + 1, ..s };
        match turn.step {
            WsReadStepView::Failed(WsErrorView::WouldBlock) => {
                lemma_one_quiet(s, next, now, WsLook { id, end: WsLookEnd::Nothing });
            },
            WsReadStepView::Failed(_) | WsReadStepView::Connect => {
                let failed = WsHandlerView {
                    read: s.read.merged(TickResult::Busy),
                    remove: s.remove.push(id),
                    ..next
                };
                lemma_one_quiet(s, failed, now, WsLook { id, end: WsLookEnd::Failed });
            },
            _ => {
                assert(s.remove + dropped(quiet) =~= s.remove);
                assert(looked_at(quiet) =~= s.ids.subrange(s.at, s.at));
            },
        }
    }
}

/// One look that ends without a message, and those behind it.
proof fn lemma_one_quiet<S>(s: WsHandlerView<S>, next: WsHandlerView<S>, now: u64, first: WsLook)
    requires
        streams_there(s),
        s.read is Idle || s.read is Busy,
        s.at < s.ids.len(),
        first.id == s.ids[s.at],
        first.end is Nothing || first.end is Failed,
        next == (WsHandlerView {
            conns: next.conns,
            at: s.at + 1,
            remove: if first.end is Failed {
                s.remove.push(first.id)
            } else {
                s.remove
            },
            read: if first.end is Failed {
                s.read.merged(TickResult::Busy)
            } else {
                s.read
            },
            ..s
        }),
        next.conns.dom() == s.conns.dom(),
    ensures
        ({
            let (turn, then) = look(next, now, WsReadEvent::Start);
            let quiet = seq![first] + quiet_looks(next, now, WsReadEvent::Start);
            &&& then == (WsHandlerView {
                conns: then.conns,
                at: s.at + quiet.len(),
                remove: s.remove + dropped(quiet),
                read: s.read.merged(looks_amount(quiet)),
                ..s
            })
            &&& looked_at(quiet) == s.ids.subrange(s.at, s.at + quiet.len())
            &&& then.at <= s.ids.len()
            &&& then.conns.dom() == s.conns.dom()
            &&& turn is None <==> then.at == s.ids.len()
            &&& turn matches Some(t) ==> !(t.step is Failed) && !(t.step is Connect)
        }),
    decreases s.ids.len() - s.at, 0int,
{
    let rest = quiet_looks(next, now, WsReadEvent::Start);
    let one = seq![first];
    let quiet = one + rest;
    assert(streams_there(next)) by {
        assert forall|i: int| 0 <= i < next.ids.len() implies next.conns.contains_key(
            #[trigger] next.ids[i],
        ) by {
            assert(s.conns.dom().contains(s.ids[i]));
        }
    }
    lemma_quiet(next, now, WsReadEvent::Start);
    lemma_looks_add(one, rest);
    let none = Seq::<WsLook>::empty();
    assert(one.drop_last() =~= none);
    assert(dropped(none) =~= Seq::<usize>::empty());
    assert(looks_amount(none) is Idle);
    lemma_amount(rest);
    assert(s.remove + dropped(quiet) =~= next.remove + dropped(rest));
    assert(looked_at(one) =~= seq![first.id]);
    assert(looked_at(quiet) =~= s.ids.subrange(s.at, s.at + quiet.len()));
}

/// Whether two handlers are alike but for what their streams hold, and for what was written over
/// the connection that is being answered.
pub open spec fn same_but_streams<S>(a: WsHandlerView<S>, b: WsHandlerView<S>) -> bool {
    &&& b == (WsHandlerView { conns: b.conns, opening: b.opening, ..a })
    &&& a.conns.dom() == b.conns.dom()
    &&& match (a.opening, b.opening) {
        (Some(x), Some(y)) => x.conn_id == y.conn_id && x.path == y.path,
        (None, None) => true,
        _ => false,
    }
}

/// A handler at the begin of the looks at its streams.
pub open spec fn at_first<S>(s: WsHandlerView<S>, ids: Seq<usize>) -> WsHandlerView<S> {
    WsHandlerView { read: TickResult::Idle, ids, at: 0, remove: Seq::empty(), gone: 0, ..s }
}

/// Whether a handler that has no more handshakes to answer begins to look at its streams.
pub open spec fn begins_looks<S>(
    s: WsHandlerView<S>,
    now: u64,
    step: WsTickStepView,
    after: WsHandlerView<S>,
) -> bool {
    &&& ids_of(s.conns, after.ids)
    &&& looks_on(at_first(s, after.ids), now, WsReadEvent::Start, step, after)
}

/// Whether an event can come of what was asked for while the streams are looked at.
pub open spec fn answers_step(step: WsTickStepView, event: WsTickEvent) -> bool {
    match step {
        WsTickStepView::NeedRead(_, _)
        | WsTickStepView::Send(_)
        | WsTickStepView::SendPing(_)
        | WsTickStepView::Flush(_) => event is Stream,
        WsTickStepView::Message { .. } => event is Handled,
        WsTickStepView::Closed(_) => event is Told,
        _ => false,
    }
}

/// Whether a handler looks at its streams by these moves, from where it has no more handshakes to
/// answer.
pub open spec fn looks_by<S>(s: WsHandlerView<S>, moves: Seq<WsMove<S>>) -> bool
    decreases moves.len(),
{
    if moves.len() == 0 {
        true
    } else {
        let m = moves.last();
        let earlier = moves.drop_last();
        &&& looks_by(s, earlier)
        &&& same_but_streams(m.after, m.later)
        &&& if earlier.len() == 0 {
            begins_looks(s, m.now, m.step, m.after)
        } else {
            let prev = earlier.last();
            &&& answers_step(prev.step, m.event)
            &&& ws_ticks(prev.later, prev.left, m.now, m.event, m.step, m.after, m.left)
        }
    }
}

/// A handler whose look at a stream has ended with a message.
pub open spec fn past_message<S>(s: WsHandlerView<S>, drop: bool) -> WsHandlerView<S> {
    WsHandlerView {
        remove: if drop {
            s.remove.push(s.ids[s.at])
        } else {
            s.remove
        },
        read: s.read.merged(TickResult::Busy),
        at: s.at + 1,
        ..s
    }
}

/// The looks that one event ends.
pub open spec fn looks_of<S>(s: WsHandlerView<S>, now: u64, event: WsTickEvent) -> Seq<WsLook> {
    match event {
        WsTickEvent::Stream(e) => quiet_looks(s, now, e),
        WsTickEvent::Handled(drop) => {
            seq![WsLook { id: s.ids[s.at], end: WsLookEnd::Message { drop } }] + quiet_looks(
                past_message(s, drop),
                now,
                WsReadEvent::Start,
            )
        },
        _ => Seq::empty(),
    }
}

/// The looks at streams that moves have ended, in order.
pub open spec fn looks<S>(s: WsHandlerView<S>, moves: Seq<WsMove<S>>) -> Seq<WsLook>
    decreases moves.len(),
{
    if moves.len() == 0 {
        Seq::empty()
    } else {
        let m = moves.last();
        let earlier = moves.drop_last();
        if earlier.len() == 0 {
            quiet_looks(at_first(s, m.after.ids), m.now, WsReadEvent::Start)
        } else {
            looks(s, earlier) + looks_of(earlier.last().later, m.now, m.event)
        }
    }
}

/// The streams of which the handler was told that they were dropped, in order.
pub open spec fn closed<S>(moves: Seq<WsMove<S>>) -> Seq<usize>
    decreases moves.len(),
{
    if moves.len() == 0 {
        Seq::empty()
    } else if let WsTickStepView::Closed(id) = moves.last().step {
        closed(moves.drop_last()).push(id)
    } else {
        closed(moves.drop_last())
    }
}

/// What a handler has come to by looks that have ended.
pub open spec fn looked<S>(s: WsHandlerView<S>, done: Seq<WsLook>, now: WsHandlerView<S>) -> bool {
    &&& ids_of(s.conns, now.ids)
    &&& done.len() <= now.ids.len()
    &&& looked_at(done) == now.ids.take(done.len() as int)
    &&& now.at == done.len()
    &&& now.remove == dropped(done)
    &&& now.read == looks_amount(done)
}

/// The stream that is to be dealt with, if there is one.
pub open spec fn step_on(step: WsTickStepView) -> Option<usize> {
    match step {
        WsTickStepView::NeedRead(id, _)
        | WsTickStepView::Send(id)
        | WsTickStepView::SendPing(id)
        | WsTickStepView::Flush(id)
        | WsTickStepView::NoRoom(id) => Some(id),
        WsTickStepView::Message { conn_id, .. } => Some(conn_id),
        _ => None,
    }
}

/// Where a handler is while it looks at its streams and drops some: it has looked at the first of
/// them, and what is to be done is to be done on the next; or it has looked at all, and was told of
/// the first of those that are dropped; or the round is over.
pub open spec fn mid_round<S>(
    s: WsHandlerView<S>,
    done: Seq<WsLook>,
    gone: Seq<usize>,
    step: WsTickStepView,
    now: WsHandlerView<S>,
) -> bool {
    &&& looked(s, done, now)
    &&& gone == dropped(done).take(gone.len() as int)
    &&& gone.len() <= dropped(done).len()
    &&& now.gone == gone.len()
    &&& forall|id: usize| #[trigger]
        now.conns.contains_key(id) <==> s.conns.contains_key(id) && !gone.contains(id)
    &&& if done.len() < now.ids.len() {
        &&& gone.len() == 0
        &&& now.tick == s.tick
        &&& step_on(step) == Some(now.ids[now.at])
    } else if step is Closed {
        gone.len() > 0 && now.tick == s.tick
    } else {
        &&& step is OnTick
        &&& gone == dropped(done)
        &&& now.tick == s.tick.merged(looks_amount(done))
    }
}

/// The turn where streams are dropped, or the round is over.
proof fn lemma_closing<S>(
    s: WsHandlerView<S>,
    done: Seq<WsLook>,
    gone: Seq<usize>,
    now: WsHandlerView<S>,
)
    requires
        looked(s, done, now),
        done.len() == now.ids.len(),
        gone == dropped(done).take(gone.len() as int),
        gone.len() <= dropped(done).len(),
        now.gone == gone.len(),
        now.tick == s.tick,
        forall|id: usize| #[trigger]
            now.conns.contains_key(id) <==> s.conns.contains_key(id) && !gone.contains(id),
    ensures
        ({
            let (step, after) = closing_turn(now);
            let then = if let WsTickStepView::Closed(id) = step {
                gone.push(id)
            } else {
                gone
            };
            mid_round(s, done, then, step, after)
        }),
{
    let all = dropped(done);
    let (step, after) = closing_turn(now);
    if gone.len() < all.len() {
        let id = all[gone.len() as int];
        let then = gone.push(id);
        assert(then =~= all.take(gone.len() as int + 1));
        assert forall|i: usize| #[trigger] after.conns.contains_key(i) <==> s.conns.contains_key(i)
            && !then.contains(i) by {
            assert(then[gone.len() as int] == id);
            if gone.contains(i) {
                let j = choose|j: int| 0 <= j < gone.len() && gone[j] == i;
                assert(then[j] == i);
            }
            if then.contains(i) && i != id {
                let j = choose|j: int| 0 <= j < then.len() && then[j] == i;
                assert(gone[j] == i);
            }
            assert(now.conns.contains_key(i) || !now.conns.contains_key(i));
        }
    } else {
        assert(all.take(gone.len() as int) =~= all);
    }
}

/// The turn where streams are looked at until one has something to do.
proof fn lemma_looks_on<S>(
    s: WsHandlerView<S>,
    done: Seq<WsLook>,
    from: WsHandlerView<S>,
    now: u64,
    event: WsReadEvent,
    step: WsTickStepView,
    after: WsHandlerView<S>,
)
    requires
        looked(s, done, from),
        from.conns.dom() == s.conns.dom(),
        from.gone == 0,
        from.tick == s.tick,
        looks_on(from, now, event, step, after),
    ensures
        ({
            let all = done + quiet_looks(from, now, event);
            let gone = if let WsTickStepView::Closed(id) = step {
                seq![id]
            } else {
                Seq::empty()
            };
            mid_round(s, all, gone, step, after)
        }),
{
    let quiet = quiet_looks(from, now, event);
    let all = done + quiet;
    let none = Seq::<usize>::empty();
    lemma_amount(done);
    assert(streams_there(from)) by {
        assert forall|i: int| 0 <= i < from.ids.len() implies from.conns.contains_key(
            #[trigger] from.ids[i],
        ) by {
            assert(s.conns.contains_key(from.ids[i]));
            assert(s.conns.dom().contains(from.ids[i]));
        }
    }
    lemma_quiet(from, now, event);
    lemma_looks_add(done, quiet);
    let (turn, then) = look(from, now, event);
    assert(looked_at(all) =~= from.ids.take(all.len() as int));
    assert(looked(s, all, then));
    assert(none =~= dropped(all).take(0));
    assert forall|id: usize| #[trigger] then.conns.contains_key(id) <==> s.conns.contains_key(id)
        && !none.contains(id) by {
        assert(then.conns.dom().contains(id) <==> s.conns.dom().contains(id));
    }
    match turn {
        None => {
            lemma_closing(s, all, none, then);
            if let WsTickStepView::Closed(id) = step {
                assert(none.push(id) =~= seq![id]);
            }
        },
        Some(t) => {
            let id = then.ids[then.at];
            assert(then.conns.dom().contains(id)) by {
                assert(s.conns.contains_key(then.ids[then.at]));
            }
            assert forall|i: usize| #[trigger] after.conns.contains_key(i)
                <==> s.conns.contains_key(i) && !none.contains(i) by {
                assert(then.conns.contains_key(i) <==> s.conns.contains_key(i));
            }
            assert(step_on(step) == Some(id));
        },
    }
}

/// What looks at streams have come to, at any time.
proof fn lemma_looks<S>(s: WsHandlerView<S>, moves: Seq<WsMove<S>>)
    requires
        moves.len() > 0,
        looks_by(s, moves),
    ensures
        mid_round(s, looks(s, moves), closed(moves), moves.last().step, moves.last().after),
        mid_round(s, looks(s, moves), closed(moves), moves.last().step, moves.last().later),
    decreases moves.len(),
{
    let m = moves.last();
    let earlier = moves.drop_last();
    let done = looks(s, moves);
    let none = Seq::<WsLook>::empty();
    if earlier.len() == 0 {
        let from = at_first(s, m.after.ids);
        assert(looked_at(none) =~= from.ids.take(0));
        assert(looked(s, none, from));
        lemma_looks_on(s, none, from, m.now, WsReadEvent::Start, m.step, m.after);
        assert(none + done =~= done);
        assert(closed(earlier) =~= Seq::<usize>::empty());
        if let WsTickStepView::Closed(id) = m.step {
            assert(closed(moves) =~= seq![id]);
        }
    } else {
        lemma_looks(s, earlier);
        let prev = earlier.last();
        let so_far = looks(s, earlier);
        lemma_one_move(s, so_far, closed(earlier), prev, m);
    }
    lemma_later(s, done, closed(moves), m);
}

/// What is done on the streams does not change where the handler is.
proof fn lemma_later<S>(s: WsHandlerView<S>, done: Seq<WsLook>, gone: Seq<usize>, m: WsMove<S>)
    requires
        mid_round(s, done, gone, m.step, m.after),
        same_but_streams(m.after, m.later),
    ensures
        mid_round(s, done, gone, m.step, m.later),
{
    assert forall|id: usize| #[trigger] m.later.conns.contains_key(id) <==> s.conns.contains_key(
        id,
    ) && !gone.contains(id) by {
        assert(m.later.conns.dom().contains(id) <==> m.after.conns.dom().contains(id));
        assert(m.after.conns.contains_key(id) <==> s.conns.contains_key(id) && !gone.contains(id));
    }
}

/// What one move comes to.
proof fn lemma_one_move<S>(
    s: WsHandlerView<S>,
    so_far: Seq<WsLook>,
    gone: Seq<usize>,
    prev: WsMove<S>,
    m: WsMove<S>,
)
    requires
        mid_round(s, so_far, gone, prev.step, prev.later),
        answers_step(prev.step, m.event),
        ws_ticks(prev.later, prev.left, m.now, m.event, m.step, m.after, m.left),
    ensures
        ({
            let then = if let WsTickStepView::Closed(id) = m.step {
                gone.push(id)
            } else {
                gone
            };
            mid_round(
                s,
                so_far + looks_of(prev.later, m.now, m.event),
                then,
                m.step,
                m.after,
            )
        }),
{
    let before = prev.later;
    if prev.step is Closed {
        lemma_closing(s, so_far, gone, before);
        assert(so_far + looks_of(before, m.now, m.event) =~= so_far);
    } else {
        assert(gone =~= Seq::<usize>::empty());
        assert(before.conns.dom() =~= s.conns.dom()) by {
            assert forall|id: usize| before.conns.dom().contains(id) <==> s.conns.dom().contains(
                id,
            ) by {
                assert(before.conns.contains_key(id) <==> s.conns.contains_key(id));
            }
        }
        lemma_amount(so_far);
        match m.event {
            WsTickEvent::Stream(e) => {
                lemma_looks_on(s, so_far, before, m.now, e, m.step, m.after);
            },
            WsTickEvent::Handled(drop) => {
                let look = WsLook {
                    id: before.ids[before.at],
                    end: WsLookEnd::Message { drop },
                };
                let one = seq![look];
                let done = so_far + one;
                let from = past_message(before, drop);
                lemma_looks_add(so_far, one);
                assert(one.drop_last() =~= Seq::<WsLook>::empty());
                assert(dropped(one) =~= if drop {
                    seq![look.id]
                } else {
                    Seq::empty()
                }) by {
                    assert(dropped(Seq::<WsLook>::empty()) =~= Seq::<usize>::empty());
                }
                assert(from.remove =~= dropped(done));
                assert(looked_at(done) =~= from.ids.take(done.len() as int));
                lemma_looks_on(s, done, from, m.now, WsReadEvent::Start, m.step, m.after);
                let quiet = quiet_looks(from, m.now, WsReadEvent::Start);
                assert(done + quiet =~= so_far + (one + quiet));
            },
            _ => {},
        }
        if let WsTickStepView::Closed(id) = m.step {
            assert(gone.push(id) =~= seq![id]);
        }
    }
}

/// In one round each stream is looked at once, by ascending number; those that failed, and those
/// of which the handler says so, are dropped, and no other, and the handler is told of each of them
/// once; and the looks amount to something exactly where a message has come or a stream failed.
pub proof fn law_round_looks_at_all_streams<S>(s: WsHandlerView<S>, moves: Seq<WsMove<S>>)
    requires
        moves.len() > 0,
        looks_by(s, moves),
        moves.last().step is OnTick,
    ensures
        ({
            let done = looks(s, moves);
            let after = moves.last().after;
            &&& ids_of(s.conns, looked_at(done))
            &&& closed(moves) == dropped(done)
            &&& forall|id: usize| #[trigger]
                after.conns.contains_key(id) <==> s.conns.contains_key(id) && !dropped(
                    done,
                ).contains(id)
            &&& after.tick == s.tick.merged(looks_amount(done))
        }),
{
    lemma_looks(s, moves);
    let done = looks(s, moves);
    let after = moves.last().after;
    assert(after.ids.take(done.len() as int) =~= after.ids);
}

/// Until then, what is to be done is to be done on one stream after the other: on the one that
/// comes behind those that were looked at.
pub proof fn law_one_stream_at_a_time<S>(s: WsHandlerView<S>, moves: Seq<WsMove<S>>)
    requires
        moves.len() > 0,
        looks_by(s, moves),
    ensures
        mid_round(s, looks(s, moves), closed(moves), moves.last().step, moves.last().later),
{
    lemma_looks(s, moves);
}

/// Whether a connection can become a stream: its path is part of an address.
pub open spec fn path_ok(p: PendingView) -> bool {
    uri_parts("ws://localhost"@ + p.path) is Some
}

/// Which of the connections whose clients have asked for a WebSocket become streams: the one that
/// asked last comes first; those that are gone, and those with a path that is not part of an
/// address, are passed over. A connection is taken once.
pub open spec fn to_open<S>(
    pending: Seq<PendingView>,
    conns: Map<usize, ConnView<S>>,
) -> Seq<PendingView>
    decreases pending.len(),
{
    if pending.len() == 0 {
        Seq::empty()
    } else {
        let p = pending.last();
        let rest = pending.drop_last();
        if !conns.contains_key(p.conn_id) {
            to_open(rest, conns)
        } else if path_ok(p) {
            seq![p] + to_open(rest, conns.remove(p.conn_id))
        } else {
            to_open(rest, conns.remove(p.conn_id))
        }
    }
}

/// The connections that are left when all that asked for a WebSocket are taken out.
pub open spec fn not_asking<S>(
    pending: Seq<PendingView>,
    conns: Map<usize, ConnView<S>>,
) -> Map<usize, ConnView<S>>
    decreases pending.len(),
{
    if pending.len() == 0 {
        conns
    } else {
        not_asking(pending.drop_last(), conns.remove(pending.last().conn_id))
    }
}

/// What taking them out amounts to: something was done where one of them was there.
pub open spec fn asking_amount<S>(
    pending: Seq<PendingView>,
    conns: Map<usize, ConnView<S>>,
) -> TickResult
    decreases pending.len(),
{
    if pending.len() == 0 {
        TickResult::Idle
    } else if conns.contains_key(pending.last().conn_id) {
        TickResult::Busy
    } else {
        asking_amount(pending.drop_last(), conns)
    }
}

/// What the next connection that is to become a stream leaves of the others.
proof fn lemma_next_pending<S>(
    pending: Seq<PendingView>,
    conns: Map<usize, ConnView<S>>,
    frame_size: usize,
    now: u64,
    tick: TickResult,
)
    ensures
        ({
            let next = next_pending(pending, conns, frame_size, now, tick);
            &&& !(next.end is NoAnswer) ==> {
                &&& not_asking(pending, conns) == not_asking(next.pending, next.conns)
                &&& tick.merged(asking_amount(pending, conns)) == next.tick.merged(
                    asking_amount(next.pending, next.conns),
                )
                &&& to_open(pending, conns) == match next.end {
                    PendingEnd::Answer { pending: p, .. } => seq![p] + to_open(
                        next.pending,
                        next.conns,
                    ),
                    _ => Seq::empty(),
                }
            }
            &&& next.end is Empty ==> next.pending.len() == 0
        }),
    decreases pending.len(),
{
    if pending.len() > 0 {
        let p = pending.last();
        let rest = pending.drop_last();
        if conns.contains_key(p.conn_id) {
            let left = conns.remove(p.conn_id);
            let busy = tick.merged(TickResult::Busy);
            lemma_next_pending(rest, left, frame_size, now, busy);
            lemma_asking(rest, left);
        } else {
            lemma_next_pending(rest, conns, frame_size, now, tick);
            assert(conns.remove(p.conn_id) =~= conns);
        }
    }
}

proof fn lemma_asking<S>(pending: Seq<PendingView>, conns: Map<usize, ConnView<S>>)
    ensures
        asking_amount(pending, conns) is Idle || asking_amount(pending, conns) is Busy,
    decreases pending.len(),
{
    if pending.len() > 0 {
        lemma_asking(pending.drop_last(), conns);
    }
}

/// What is left are the connections that did not ask.
proof fn lemma_not_asking<S>(pending: Seq<PendingView>, conns: Map<usize, ConnView<S>>, id: usize)
    ensures
        not_asking(pending, conns).contains_key(id) <==> conns.contains_key(id) && forall|i: int|
            0 <= i < pending.len() ==> (#[trigger] pending[i]).conn_id != id,
        not_asking(pending, conns).contains_key(id) ==> not_asking(pending, conns)[id]
            == conns[id],
    decreases pending.len(),
{
    if pending.len() > 0 {
        let rest = pending.drop_last();
        let p = pending.last();
        lemma_not_asking(rest, conns.remove(p.conn_id), id);
        if forall|i: int| 0 <= i < rest.len() ==> (#[trigger] rest[i]).conn_id != id {
            if p.conn_id != id {
                assert forall|i: int| 0 <= i < pending.len() implies (
                #[trigger] pending[i]).conn_id != id by {
                    if i < rest.len() {
                        assert(rest[i] == pending[i]);
                    }
                }
            } else {
                assert(pending[pending.len() - 1].conn_id == id);
            }
        } else {
            let i = choose|i: int| 0 <= i < rest.len() && (#[trigger] rest[i]).conn_id == id;
            assert(pending[i].conn_id == id);
        }
    }
}

/// Whether a handler answers handshakes by these moves, up to the first look at its streams.
pub open spec fn opens_by<S>(
    s: WsHandlerView<S>,
    conns: Map<usize, ConnView<S>>,
    moves: Seq<WsMove<S>>,
) -> bool
    decreases moves.len(),
{
    if moves.len() == 0 {
        true
    } else {
        let m = moves.last();
        let earlier = moves.drop_last();
        &&& opens_by(s, conns, earlier)
        &&& same_but_streams(m.after, m.later)
        &&& if earlier.len() == 0 {
            &&& m.event is Start
            &&& ws_ticks(s, conns, m.now, m.event, m.step, m.after, m.left)
        } else {
            let prev = earlier.last();
            &&& prev.step is Answer && m.event is Answered || prev.step is NewConn
                && m.event is Announced
            &&& ws_ticks(prev.later, prev.left, m.now, m.event, m.step, m.after, m.left)
        }
    }
}

/// A stream that was opened, and whether the handler did not want it.
pub struct Opened {
    pub id: usize,
    pub refused: bool,
}

/// The streams that were opened by moves, in order.
pub open spec fn opened<S>(moves: Seq<WsMove<S>>) -> Seq<Opened>
    decreases moves.len(),
{
    if moves.len() <= 1 {
        Seq::empty()
    } else {
        let earlier = moves.drop_last();
        match moves.last().event {
            WsTickEvent::Announced(refused) => opened(earlier).push(
                Opened { id: earlier.last().later.opened, refused },
            ),
            _ => opened(earlier),
        }
    }
}

/// The numbers of the streams that there are once some were opened.
pub open spec fn with_opened(ids: Set<usize>, list: Seq<Opened>) -> Set<usize>
    decreases list.len(),
{
    if list.len() == 0 {
        ids
    } else {
        let before = with_opened(ids, list.drop_last()).insert(list.last().id);
        if list.last().refused {
            before.remove(list.last().id)
        } else {
            before
        }
    }
}

/// The handler from which the last of the moves goes on to the streams, or to the next handshake.
pub open spec fn opening_from<S>(s: WsHandlerView<S>, moves: Seq<WsMove<S>>) -> WsHandlerView<S> {
    if moves.len() <= 1 {
        WsHandlerView { tick: TickResult::Idle, ..s }
    } else {
        let prev = moves.drop_last().last().later;
        match moves.last().event {
            WsTickEvent::Announced(true) => WsHandlerView {
                conns: prev.conns.remove(prev.opened),
                ..prev
            },
            _ => prev,
        }
    }
}

/// Where a handler is while it answers handshakes.
pub open spec fn mid_opening<S>(
    s: WsHandlerView<S>,
    conns: Map<usize, ConnView<S>>,
    list: Seq<Opened>,
    step: WsTickStepView,
    now: WsHandlerView<S>,
    left: Map<usize, ConnView<S>>,
) -> bool {
    let all = to_open(s.pending, conns);
    let n = list.len() as int;
    &&& n < all.len()
    &&& forall|i: int| 0 <= i < n ==> (#[trigger] list[i]).id == all[i].conn_id
    &&& all.skip(n + 1) == to_open(now.pending, left)
    &&& not_asking(s.pending, conns) == not_asking(now.pending, left)
    &&& asking_amount(s.pending, conns) == now.tick.merged(asking_amount(now.pending, left))
    &&& now.frame_size == s.frame_size
    &&& match step {
        WsTickStepView::Answer => {
            &&& now.opening matches Some(o)
            &&& o.conn_id == all[n].conn_id
            &&& o.path == all[n].path
            &&& now.conns.dom() == with_opened(s.conns.dom(), list)
        },
        WsTickStepView::NewConn { conn_id, path, is_close } => {
            &&& conn_id == all[n].conn_id
            &&& path == all[n].path
            &&& !is_close
            &&& now.opened == conn_id
            &&& now.conns.dom() == with_opened(s.conns.dom(), list).insert(conn_id)
        },
        _ => false,
    }
}

/// What a handler has come to when it has answered all handshakes: each connection whose client has
/// asked for a WebSocket, that was there and whose path is part of an address, became a stream, the
/// one that asked last first, and the handler was told of it; none of those that asked is left
/// among the connections, and all others are; and something was done exactly where one was there.
pub open spec fn all_opened<S>(
    s: WsHandlerView<S>,
    conns: Map<usize, ConnView<S>>,
    list: Seq<Opened>,
    from: WsHandlerView<S>,
    left: Map<usize, ConnView<S>>,
) -> bool {
    let all = to_open(s.pending, conns);
    &&& list.len() == all.len()
    &&& forall|i: int| 0 <= i < list.len() ==> (#[trigger] list[i]).id == all[i].conn_id
    &&& from.pending.len() == 0
    &&& from.opening is None
    &&& from.frame_size == s.frame_size
    &&& from.conns.dom() == with_opened(s.conns.dom(), list)
    &&& from.tick == asking_amount(s.pending, conns)
    &&& forall|id: usize| #[trigger]
        left.contains_key(id) <==> conns.contains_key(id) && forall|i: int|
            0 <= i < s.pending.len() ==> (#[trigger] s.pending[i]).conn_id != id
    &&& forall|id: usize| #[trigger] left.contains_key(id) ==> left[id] == conns[id]
}

/// The handler at the first look at its streams, given the one from which the last handshake was
/// looked for, and what that amounts to.
pub open spec fn nothing_pending<S>(from: WsHandlerView<S>, tick: TickResult) -> WsHandlerView<S> {
    WsHandlerView { pending: Seq::empty(), tick, opening: None, ..from }
}

/// What comes first when the streams are looked at.
proof fn lemma_first_looks<S>(s: WsHandlerView<S>, m: WsMove<S>)
    requires
        begins_looks(s, m.now, m.step, m.after),
    ensures
        step_on(m.step) is Some || m.step is Closed || m.step is OnTick,
{
    let none = Seq::<WsLook>::empty();
    let first = at_first(s, m.after.ids);
    assert(looked_at(none) =~= first.ids.take(0));
    lemma_looks_on(s, none, first, m.now, WsReadEvent::Start, m.step, m.after);
}

/// The move that looks for the next handshake.
proof fn lemma_opens<S>(
    s: WsHandlerView<S>,
    conns: Map<usize, ConnView<S>>,
    list: Seq<Opened>,
    from: WsHandlerView<S>,
    before: Map<usize, ConnView<S>>,
    m: WsMove<S>,
)
    requires
        list.len() <= to_open(s.pending, conns).len(),
        forall|i: int|
            0 <= i < list.len() ==> (#[trigger] list[i]).id == to_open(s.pending, conns)[i].conn_id,
        to_open(s.pending, conns).skip(list.len() as int) == to_open(from.pending, before),
        not_asking(s.pending, conns) == not_asking(from.pending, before),
        asking_amount(s.pending, conns) == from.tick.merged(asking_amount(from.pending, before)),
        from.frame_size == s.frame_size,
        from.conns.dom() == with_opened(s.conns.dom(), list),
        opens(from, before, m.now, m.step, m.after, m.left),
        !(m.step is Fault),
    ensures
        !(m.step is NewConn),
        m.step is Answer ==> mid_opening(s, conns, list, m.step, m.after, m.left),
        !(m.step is Answer) ==> ({
            let then = nothing_pending(from, asking_amount(s.pending, conns));
            &&& all_opened(s, conns, list, then, m.left)
            &&& begins_looks(then, m.now, m.step, m.after)
        }),
{
    let all = to_open(s.pending, conns);
    let n = list.len() as int;
    let next = next_pending(from.pending, before, from.frame_size, m.now, from.tick);
    lemma_next_pending(from.pending, before, from.frame_size, m.now, from.tick);
    match next.end {
        PendingEnd::Answer { pending: p, .. } => {
            let rest = to_open(next.pending, next.conns);
            assert(all.skip(n) == seq![p] + rest);
            assert(all.skip(n).len() == all.len() - n);
            assert(all[n] == all.skip(n)[0]);
            assert(all.skip(n + 1) =~= rest) by {
                assert forall|i: int| 0 <= i < rest.len() implies all.skip(n + 1)[i]
                    == rest[i] by {
                    assert(all.skip(n)[i + 1] == rest[i]);
                }
            }
        },
        PendingEnd::Empty => {
            assert(all.skip(n).len() == 0);
            assert(next.pending =~= Seq::<PendingView>::empty());
            let then = nothing_pending(from, asking_amount(s.pending, conns));
            assert(begins_looks(then, m.now, m.step, m.after));
            lemma_first_looks(then, m);
            assert forall|id: usize| #[trigger] m.left.contains_key(id) <==> conns.contains_key(id)
                && forall|i: int|
                0 <= i < s.pending.len() ==> (#[trigger] s.pending[i]).conn_id != id by {
                lemma_not_asking(s.pending, conns, id);
            }
            assert forall|id: usize| #[trigger] m.left.contains_key(id) implies m.left[id]
                == conns[id] by {
                lemma_not_asking(s.pending, conns, id);
            }
        },
        _ => {},
    }
}

/// What answering handshakes has come to, at any time.
proof fn lemma_openings<S>(
    s: WsHandlerView<S>,
    conns: Map<usize, ConnView<S>>,
    moves: Seq<WsMove<S>>,
)
    requires
        moves.len() > 0,
        opens_by(s, conns, moves),
        !(moves.last().step is Fault),
    ensures
        ({
            let m = moves.last();
            let list = opened(moves);
            if m.step is Answer || m.step is NewConn {
                mid_opening(s, conns, list, m.step, m.later, m.left)
            } else {
                let then = nothing_pending(
                    opening_from(s, moves),
                    asking_amount(s.pending, conns),
                );
                &&& all_opened(s, conns, list, then, m.left)
                &&& begins_looks(then, m.now, m.step, m.after)
            }
        }),
    decreases moves.len(),
{
    let m = moves.last();
    let earlier = moves.drop_last();
    let list = opened(moves);
    let all = to_open(s.pending, conns);
    lemma_asking(s.pending, conns);
    if earlier.len() == 0 {
        let from = WsHandlerView { tick: TickResult::Idle, ..s };
        assert(all.skip(0) =~= all);
        lemma_opens(s, conns, list, from, conns, m);
    } else {
        let prev = earlier.last();
        let so_far = opened(earlier);
        lemma_openings(s, conns, earlier);
        match m.event {
            WsTickEvent::Answered(_) => {
                let o = prev.later.opening->0;
                assert(m.after.conns.dom() =~= prev.later.conns.dom().insert(o.conn_id));
            },
            WsTickEvent::Announced(refused) => {
                let from = opening_from(s, moves);
                let n = so_far.len() as int;
                assert(list.drop_last() =~= so_far);
                assert(from.conns.dom() =~= with_opened(s.conns.dom(), list));
                assert forall|i: int| 0 <= i < list.len() implies (#[trigger] list[i]).id
                    == all[i].conn_id by {
                    if i < n {
                        assert(so_far[i] == list[i]);
                    }
                }
                lemma_opens(s, conns, list, from, prev.left, m);
            },
            _ => {},
        }
    }
}

/// At the begin of a round the handshakes are answered: see [`all_opened`]. Then the streams are
/// looked at.
pub proof fn law_handshakes_come_first<S>(
    s: WsHandlerView<S>,
    conns: Map<usize, ConnView<S>>,
    moves: Seq<WsMove<S>>,
)
    requires
        moves.len() > 0,
        opens_by(s, conns, moves),
        !(moves.last().step is Fault),
        !(moves.last().step is Answer),
        !(moves.last().step is NewConn),
    ensures
        ({
            let m = moves.last();
            let then = nothing_pending(opening_from(s, moves), asking_amount(s.pending, conns));
            &&& all_opened(s, conns, opened(moves), then, m.left)
            &&& begins_looks(then, m.now, m.step, m.after)
            &&& looks_by(then, seq![m])
        }),
{
    lemma_openings(s, conns, moves);
    let m = moves.last();
    let then = nothing_pending(opening_from(s, moves), asking_amount(s.pending, conns));
    assert(seq![m].drop_last() =~= Seq::<WsMove<S>>::empty());
    assert(looks_by(then, Seq::<WsMove<S>>::empty()));
}

} // verus!
