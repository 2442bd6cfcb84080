//! What holds of a client that keeps connections for later.
use crate::conn::{ConnView, HttpConnErrorView};
use crate::conn_blocking::{send_turn, SendEvent, SendStepView};
use crate::conn_pool::{law_nothing_stale_is_taken, stale, taken_out};
use crate::http_client::{
    attempts, fails, http_sends, kept, looked, pool_under, time_left, ConnInUse, HttpSendEvent,
    HttpSendStepView, PoolMap, SendView,
};
use crate::uri::UriView;
use vstd::prelude::*;

verus! {

/// A connection that was kept is the one that the next request to the same address uses, if it has
/// not lain too long and there is time left.
pub proof fn law_kept_conn_is_used_next<S>(
    pools: PoolMap<S>,
    conn: ConnView<S>,
    since: u64,
    with: PoolMap<S>,
    s: SendView<S>,
    now: u64,
    bytes: Seq<u8>,
    step: HttpSendStepView,
    after: SendView<S>,
)
    requires
        kept(pools, s.key, conn, since, with),
        !stale(with[s.key].idle_time, since, now),
        time_left(s.deadline, now) != Some(0u64),
        attempts(with, s, now, bytes, step, after),
    ensures
        step == HttpSendStepView::Conn(SendStepView::Write(bytes)),
        after.guard == Some(ConnInUse { create_time: now, reused: true, conn }),
        looked(with, s.key, now)[s.key].list == pool_under(pools, s.key).list,
{
}

/// Where a connection that was just opened ends before the answer came, the request fails: it is
/// not sent again.
pub proof fn law_fresh_conn_is_not_retried<S>(
    pools: PoolMap<S>,
    s: SendView<S>,
    uri: UriView,
    now: u64,
    event: SendEvent,
    bytes: Seq<u8>,
    step: HttpSendStepView,
    then: PoolMap<S>,
    after: SendView<S>,
)
    requires
        s.guard matches Some(guard) && !guard.reused && send_turn(
            guard.conn,
            s.tries,
            event,
            bytes,
        ).0 == SendStepView::Failed(HttpConnErrorView::EOF),
        http_sends(pools, s, uri, now, HttpSendEvent::Conn(event), bytes, step, then, after),
    ensures
        step == fails(HttpConnErrorView::EOF),
        then == pools,
        after.guard is None,
{
}

/// Where a connection that was kept ends before the answer came, the request is sent again, unless
/// the time is up, over another one. That cannot go on for ever: either a new connection is to be
/// opened, or there are fewer that were kept.
pub proof fn law_retries_end<S>(
    pools: PoolMap<S>,
    s: SendView<S>,
    uri: UriView,
    now: u64,
    event: SendEvent,
    bytes: Seq<u8>,
    step: HttpSendStepView,
    then: PoolMap<S>,
    after: SendView<S>,
)
    requires
        s.guard matches Some(guard) && guard.reused && send_turn(
            guard.conn,
            s.tries,
            event,
            bytes,
        ).0 == SendStepView::Failed(HttpConnErrorView::EOF),
        http_sends(pools, s, uri, now, HttpSendEvent::Conn(event), bytes, step, then, after),
    ensures
        step is Connect || then[s.key].list.len() < pool_under(pools, s.key).list.len(),
        step is Connect || step == fails(HttpConnErrorView::Timeout) || step
            == HttpSendStepView::Conn(SendStepView::Write(bytes)),
{
    let pool = pool_under(pools, s.key);
    law_nothing_stale_is_taken(pool.list, pool.idle_time, now);
    assert(then[s.key].list == taken_out(pool.list, pool.idle_time, now).1);
}

} // verus!
