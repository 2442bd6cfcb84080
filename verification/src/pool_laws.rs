//! What holds of the connections of a pool, whatever is sent over them.
use crate::client_pool::{
    busiest_first, pool_read_turn, pool_writes, total_inflight, PoolReadEvent, PoolView,
    PoolWriteEvent, PoolWriteStepView,
};
use crate::conn::ConnView;
use vstd::arithmetic::div_mod::lemma_fundamental_div_mod_converse;
use vstd::prelude::*;
use vstd::seq_lib::{lemma_fold_right_permutation, to_multiset_contains, to_multiset_len};

verus! {

/// All connections of a pool, the one that is in use last.
pub open spec fn everyone<S>(p: PoolView<S>) -> Seq<ConnView<S>> {
    match p.current {
        Some(conn) => p.clients.push(conn),
        None => p.clients,
    }
}

/// A pool keeps the number of its connections, whatever an event of sending comes to, failures and
/// new streams among them.
pub proof fn law_sending_keeps_pool_size<S>(
    p: PoolView<S>,
    req_id: usize,
    event: PoolWriteEvent<S>,
    bytes: Seq<u8>,
    step: PoolWriteStepView,
    after: PoolView<S>,
)
    requires
        event is Start ==> p.current is None && p.clients.len() > 0,
        !(event is Start) ==> p.current is Some,
        pool_writes(p, req_id, event, bytes, step, after),
    ensures
        everyone(after).len() == everyone(p).len(),
{
    if after.current is None && !(event matches PoolWriteEvent::Reconnected(Err(_))) {
        let left = if event is Start {
            p.clients.drop_last()
        } else {
            p.clients
        };
        let conn = choose|conn: ConnView<S>|
            after.clients.to_multiset() == #[trigger] left.push(conn).to_multiset();
        to_multiset_len(after.clients);
        to_multiset_len(left.push(conn));
    }
}

/// A pool keeps the number of its connections, whatever an event of reading comes to, failures and
/// new streams among them.
pub proof fn law_reading_keeps_pool_size<S>(p: PoolView<S>, event: PoolReadEvent<S>)
    requires
        !(event is Start) ==> 0 <= p.at < p.clients.len(),
    ensures
        everyone(pool_read_turn(p, event).1).len() == everyone(p).len(),
{
}

/// One move of sending requests over a pool: the event, what is to be done next, and the pool; and
/// the pool later, when some of what is to be sent is gone.
pub struct PoolMove<S> {
    pub event: PoolWriteEvent<S>,
    pub req_id: usize,
    pub bytes: Seq<u8>,
    pub step: PoolWriteStepView,
    pub after: PoolView<S>,
    pub later: PoolView<S>,
}

/// Whether the same requests wait for answers on the connections of two lists.
pub open spec fn same_waiting<S>(a: Seq<ConnView<S>>, b: Seq<ConnView<S>>) -> bool {
    &&& a.len() == b.len()
    &&& forall|i: int| 0 <= i < a.len() ==> (#[trigger] a[i]).inflight == b[i].inflight
}

/// The pool at the end of moves.
pub open spec fn pool_after<S>(p: PoolView<S>, moves: Seq<PoolMove<S>>) -> PoolView<S> {
    if moves.len() == 0 {
        p
    } else {
        moves.last().later
    }
}

/// Whether requests can be sent over a pool by these moves, with no stream that has come to its
/// end.
pub open spec fn is_sending<S>(p: PoolView<S>, moves: Seq<PoolMove<S>>) -> bool
    decreases moves.len(),
{
    if moves.len() == 0 {
        true
    } else {
        let now = pool_after(p, moves.drop_last());
        let m = moves.last();
        &&& is_sending(p, moves.drop_last())
        &&& m.event is Start <==> now.current is None
        &&& !(m.event is Reconnected)
        &&& !(m.step is Reconnect)
        &&& pool_writes(now, m.req_id, m.event, m.bytes, m.step, m.after)
        &&& m.after.current is Some <==> m.later.current is Some
        &&& same_waiting(everyone(m.after), everyone(m.later))
    }
}

/// How many requests were sent by moves.
pub open spec fn sent_by<S>(moves: Seq<PoolMove<S>>) -> nat
    decreases moves.len(),
{
    if moves.len() == 0 {
        0
    } else {
        sent_by(moves.drop_last()) + if moves.last().step is Done {
            1nat
        } else {
            0
        }
    }
}

/// Whether the busiest connections come first, and have at most one request more than the others.
spec fn even<S>(conns: Seq<ConnView<S>>) -> bool {
    &&& conns.len() > 0
    &&& busiest_first(conns)
    &&& conns[0].inflight.len() <= conns.last().inflight.len() + 1
}

proof fn lemma_same_total<S>(a: Seq<ConnView<S>>, b: Seq<ConnView<S>>)
    requires
        same_waiting(a, b),
    ensures
        total_inflight(a) == total_inflight(b),
    decreases a.len(),
{
    if a.len() > 0 {
        assert(a[a.len() - 1].inflight == b[a.len() - 1].inflight);
        assert forall|i: int| 0 <= i < a.len() - 1 implies (
        #[trigger] a.drop_last()[i]).inflight == b.drop_last()[i].inflight by {
            assert(a[i].inflight == b[i].inflight);
        }
        lemma_same_total(a.drop_last(), b.drop_last());
    }
}

proof fn lemma_total_is_fold<S>(conns: Seq<ConnView<S>>, start: nat)
    ensures
        conns.fold_right(|c: ConnView<S>, n: nat| n + c.inflight.len(), start) == start
            + total_inflight(conns),
    decreases conns.len(),
{
    if conns.len() > 0 {
        lemma_total_is_fold(conns.drop_last(), start + conns.last().inflight.len());
    }
}

/// Putting connections in another order leaves as many requests waiting.
proof fn lemma_total_reordered<S>(a: Seq<ConnView<S>>, b: Seq<ConnView<S>>)
    requires
        a.to_multiset() == b.to_multiset(),
    ensures
        total_inflight(a) == total_inflight(b),
{
    let f = |c: ConnView<S>, n: nat| n + c.inflight.len();
    lemma_fold_right_permutation(a, b, f, 0nat);
    lemma_total_is_fold(a, 0);
    lemma_total_is_fold(b, 0);
}

/// Connections that were put in order, of which none has many more requests than another.
proof fn lemma_even_reordered<S>(conns: Seq<ConnView<S>>, low: nat, after: Seq<ConnView<S>>)
    requires
        conns.len() > 0,
        forall|i: int|
            0 <= i < conns.len() ==> low <= (#[trigger] conns[i]).inflight.len() <= low + 1,
        after.to_multiset() == conns.to_multiset(),
        busiest_first(after),
    ensures
        even(after),
        after.len() == conns.len(),
        total_inflight(after) == total_inflight(conns),
{
    to_multiset_len(conns);
    to_multiset_len(after);
    lemma_total_reordered(after, conns);
    assert forall|i: int| 0 <= i < after.len() implies low <= (
    #[trigger] after[i]).inflight.len() <= low + 1 by {
        assert(after.contains(after[i]));
        to_multiset_contains(after, after[i]);
        to_multiset_contains(conns, after[i]);
        let j = choose|j: int| 0 <= j < conns.len() && conns[j] == after[i];
        assert(low <= conns[j].inflight.len() <= low + 1);
    }
}

/// One move.
proof fn lemma_move<S>(now: PoolView<S>, m: PoolMove<S>, sent: nat)
    requires
        even(everyone(now)),
        total_inflight(everyone(now)) == sent,
        m.event is Start <==> now.current is None,
        !(m.event is Reconnected),
        !(m.step is Reconnect),
        pool_writes(now, m.req_id, m.event, m.bytes, m.step, m.after),
    ensures
        even(everyone(m.after)),
        everyone(m.after).len() == everyone(now).len(),
        total_inflight(everyone(m.after)) == sent + if m.step is Done {
            1nat
        } else {
            0
        },
{
    let all = everyone(now);
    let conn = all.last();
    let others = all.drop_last();
    let low = conn.inflight.len();
    assert forall|i: int| 0 <= i < all.len() implies low <= (
    #[trigger] all[i]).inflight.len() <= low + 1 by {
        assert(all[0].inflight.len() >= all[i].inflight.len());
        assert(all[i].inflight.len() >= all[all.len() - 1].inflight.len());
    }
    assert(others == if m.event is Start {
        now.clients.drop_last()
    } else {
        now.clients
    });
    if m.after.current is Some {
        let used = m.after.current->0;
        let next = everyone(m.after);
        assert(next == others.push(used));
        assert(used.inflight == conn.inflight);
        assert forall|i: int| 0 <= i < all.len() implies (#[trigger] all[i]).inflight
            == next[i].inflight by {}
        lemma_same_total(all, next);
        lemma_even_alike(all, next);
    } else {
        let used = choose|used: ConnView<S>|
            m.after.clients.to_multiset() == #[trigger] others.push(used).to_multiset() && (
            used.inflight == conn.inflight || used.inflight == conn.inflight.push(m.req_id)) && (
            m.step is Done <==> used.inflight == conn.inflight.push(m.req_id));
        let next = others.push(used);
        assert(used.inflight.len() <= low + 1);
        assert forall|i: int| 0 <= i < next.len() implies low <= (
        #[trigger] next[i]).inflight.len() <= low + 1 by {
            if i < others.len() {
                assert(next[i] == all[i]);
            }
        }
        lemma_even_reordered(next, low, m.after.clients);
        assert(next.drop_last() =~= others);
    }
}

proof fn lemma_even_alike<S>(a: Seq<ConnView<S>>, b: Seq<ConnView<S>>)
    requires
        even(a),
        same_waiting(a, b),
    ensures
        even(b),
{
    assert forall|i: int, j: int| 0 <= i <= j < b.len() implies (#[trigger] b[i]).inflight.len() >= (
    #[trigger] b[j]).inflight.len() by {
        assert(a[i].inflight.len() >= a[j].inflight.len());
    }
    assert(a[0].inflight == b[0].inflight);
    assert(a[a.len() - 1].inflight == b[a.len() - 1].inflight);
}

/// What holds after every move.
proof fn lemma_sending<S>(p: PoolView<S>, moves: Seq<PoolMove<S>>)
    requires
        p.current is None,
        p.clients.len() > 0,
        forall|i: int| 0 <= i < p.clients.len() ==> (#[trigger] p.clients[i]).inflight.len() == 0,
        is_sending(p, moves),
    ensures
        even(everyone(pool_after(p, moves))),
        everyone(pool_after(p, moves)).len() == p.clients.len(),
        total_inflight(everyone(pool_after(p, moves))) == sent_by(moves),
    decreases moves.len(),
{
    if moves.len() == 0 {
        lemma_nothing_waits(p.clients);
    } else {
        let m = moves.last();
        lemma_sending(p, moves.drop_last());
        lemma_move(pool_after(p, moves.drop_last()), m, sent_by(moves.drop_last()));
        lemma_even_alike(everyone(m.after), everyone(m.later));
        lemma_same_total(everyone(m.after), everyone(m.later));
    }
}

proof fn lemma_nothing_waits<S>(conns: Seq<ConnView<S>>)
    requires
        forall|i: int| 0 <= i < conns.len() ==> (#[trigger] conns[i]).inflight.len() == 0,
    ensures
        total_inflight(conns) == 0,
    decreases conns.len(),
{
    if conns.len() > 0 {
        assert(conns[conns.len() - 1].inflight.len() == 0);
        assert forall|i: int| 0 <= i < conns.len() - 1 implies (
        #[trigger] conns.drop_last()[i]).inflight.len() == 0 by {
            assert(conns[i].inflight.len() == 0);
        }
        lemma_nothing_waits(conns.drop_last());
    }
}

/// How many requests wait on connections of which each has `low` or one more.
proof fn lemma_total_bounds<S>(conns: Seq<ConnView<S>>, low: nat)
    requires
        forall|i: int|
            0 <= i < conns.len() ==> low <= (#[trigger] conns[i]).inflight.len() <= low + 1,
    ensures
        conns.len() * low <= total_inflight(conns) <= conns.len() * low + conns.len(),
        forall|i: int|
            0 <= i < conns.len() && (#[trigger] conns[i]).inflight.len() == low
                ==> total_inflight(conns) < conns.len() * low + conns.len(),
        forall|i: int|
            0 <= i < conns.len() && (#[trigger] conns[i]).inflight.len() == low + 1
                ==> total_inflight(conns) > conns.len() * low,
    decreases conns.len(),
{
    if conns.len() > 0 {
        let front = conns.drop_last();
        assert forall|i: int| 0 <= i < front.len() implies low <= (
        #[trigger] front[i]).inflight.len() <= low + 1 by {
            assert(front[i] == conns[i]);
        }
        lemma_total_bounds(front, low);
        assert(low <= conns[conns.len() - 1].inflight.len() <= low + 1);
        assert(conns.len() * low == front.len() * low + low) by (nonlinear_arith)
            requires
                conns.len() == front.len() + 1,
        ;
        assert forall|i: int|
            0 <= i < conns.len() && (#[trigger] conns[i]).inflight.len() == low
            implies total_inflight(conns) < conns.len() * low + conns.len() by {
            if i < front.len() {
                assert(front[i] == conns[i]);
            }
        }
        assert forall|i: int|
            0 <= i < conns.len() && (#[trigger] conns[i]).inflight.len() == low + 1
            implies total_inflight(conns) > conns.len() * low by {
            if i < front.len() {
                assert(front[i] == conns[i]);
            }
        }
    }
}

/// Requests are spread evenly over the connections of a pool: once so many were sent over a pool
/// that nothing waited on, and none was answered, each connection has its share of them, rounded
/// down or up, and all together have all of them.
pub proof fn law_requests_are_spread<S>(p: PoolView<S>, moves: Seq<PoolMove<S>>)
    requires
        p.current is None,
        p.clients.len() > 0,
        forall|i: int| 0 <= i < p.clients.len() ==> (#[trigger] p.clients[i]).inflight.len() == 0,
        is_sending(p, moves),
        pool_after(p, moves).current is None,
    ensures
        ({
            let clients = pool_after(p, moves).clients;
            let sent = sent_by(moves);
            let n = p.clients.len();
            &&& clients.len() == n
            &&& total_inflight(clients) == sent
            &&& forall|i: int|
                0 <= i < n ==> {
                    ||| (#[trigger] clients[i]).inflight.len() == sent / n
                    ||| clients[i].inflight.len() == (sent + n - 1) / (n as int)
                }
        }),
{
    lemma_sending(p, moves);
    let clients = pool_after(p, moves).clients;
    let sent = sent_by(moves) as int;
    let n = clients.len() as int;
    let low = clients.last().inflight.len();
    assert(clients[n - 1].inflight.len() == low);
    assert forall|i: int| 0 <= i < n implies low <= (
    #[trigger] clients[i]).inflight.len() <= low + 1 by {
        assert(clients[0].inflight.len() >= clients[i].inflight.len());
        assert(clients[i].inflight.len() >= clients[n - 1].inflight.len());
    }
    lemma_total_bounds(clients, low);
    let over = sent - n * low;
    assert(n * low == low * n) by (nonlinear_arith);
    lemma_fundamental_div_mod_converse(sent, n, low as int, over);
    assert forall|i: int| 0 <= i < n implies {
        ||| (#[trigger] clients[i]).inflight.len() == sent / n
        ||| clients[i].inflight.len() == (sent + n - 1) / n
    } by {
        if clients[i].inflight.len() == low + 1 {
            assert(over >= 1);
            assert(low * n + n == (low + 1) * n) by (nonlinear_arith);
            assert(n * (low + 1) == (low + 1) * n) by (nonlinear_arith);
            lemma_fundamental_div_mod_converse(sent + n - 1, n, low as int + 1, over - 1);
        }
    }
}

} // verus!
