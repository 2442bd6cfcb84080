//! What holds of connections, whatever goes over them.
use crate::buffer::BufferView;
use crate::client_pool::{
    busiest_first, gave_up, pool_writes, PoolView, PoolWriteEvent, PoolWriteStepView,
};
use crate::conn::{
    request_sent, response_in, server_read_turn, write_response_turn, ClientStepView,
    ConnReadEvent, ConnView, ConnWriteStepView, HttpConnErrorView, ServerStepView,
};
use crate::response::ResponseView;
use crate::response_read::{response_turn, ResponseStateView, ResponseStepView};
use crate::response_stream_laws::{
    law_responses_in_a_row, reading, reads_fit, reads_tell, stream_of, SentResponse,
};
use crate::stream::{IOError, ReadView};
use vstd::prelude::*;
use vstd::seq_lib::to_multiset_len;

verus! {

/// Calls for a response, one after the other: the answers that were given, with the numbers of
/// the requests, and the connection then.
pub struct Answers<S> {
    pub given: Seq<(usize, ResponseView)>,
    pub conn: ConnView<S>,
}

/// What calls for a response come to, each with what reading gave, if there was a read.
pub open spec fn answers<S>(c: ConnView<S>, reads: Seq<Option<ReadView>>) -> Answers<S>
    decreases reads.len(),
{
    if reads.len() == 0 {
        Answers { given: Seq::empty(), conn: c }
    } else {
        let before = answers(c, reads.drop_last());
        let (step, next) = response_in(before.conn, reads.last());
        Answers {
            given: match step {
                ClientStepView::Done(id, response) => before.given.push((id, response)),
                _ => before.given,
            },
            conn: next,
        }
    }
}

/// The responses that such calls read, and how far they come with the next.
pub open spec fn responses_read<S>(c: ConnView<S>, reads: Seq<Option<ReadView>>) -> (
    Seq<ResponseView>,
    BufferView,
    ResponseStateView,
)
    decreases reads.len(),
{
    if reads.len() == 0 {
        (Seq::empty(), c.header, c.response)
    } else {
        let (given, header, state) = responses_read(c, reads.drop_last());
        let turn = response_turn(reads.last(), header, state);
        (
            match turn.step {
                ResponseStepView::Done(response) => given.push(response),
                _ => given,
            },
            turn.header,
            turn.state,
        )
    }
}

/// Responses with the numbers of the requests that they answer: the first response answers the
/// request that was sent first, and so on. The largest number marks requests whose answers are
/// dropped, and so are responses to no request.
pub open spec fn paired(ids: Seq<usize>, responses: Seq<ResponseView>) -> Seq<(usize, ResponseView)>
    decreases responses.len(),
{
    if responses.len() == 0 {
        Seq::empty()
    } else {
        let n = responses.len() - 1;
        let before = paired(ids, responses.drop_last());
        if n < ids.len() && ids[n] != usize::MAX {
            before.push((ids[n], responses.last()))
        } else {
            before
        }
    }
}

/// The least of two numbers.
spec fn lesser(a: nat, b: nat) -> nat {
    if a <= b {
        a
    } else {
        b
    }
}

/// Requests are answered in the order in which they were sent: whatever is read, each response that
/// is read goes with the oldest request that is not answered yet. Where no answer is to be dropped,
/// the `j`th answer is the `j`th response, with the number of the `j`th request.
pub proof fn law_answers_in_order<S>(c: ConnView<S>, reads: Seq<Option<ReadView>>)
    ensures
        answers(c, reads).given == paired(c.inflight, responses_read(c, reads).0),
        answers(c, reads).conn.inflight.is_suffix_of(c.inflight),
        !c.inflight.contains(usize::MAX) ==> {
            let given = answers(c, reads).given;
            let read = responses_read(c, reads).0;
            &&& given.len() <= read.len()
            &&& given.len() <= c.inflight.len()
            &&& given.len() == read.len() || given.len() == c.inflight.len()
            &&& forall|j: int|
                0 <= j < given.len() ==> #[trigger] given[j] == (c.inflight[j], read[j])
        },
{
    lemma_answers(c, reads);
    if !c.inflight.contains(usize::MAX) {
        lemma_paired(c.inflight, responses_read(c, reads).0);
    }
    let n = lesser(responses_read(c, reads).0.len(), c.inflight.len()) as int;
    let left = c.inflight.skip(n);
    assert(left =~= c.inflight.subrange(c.inflight.len() - left.len(), c.inflight.len() as int));
}

proof fn lemma_answers<S>(c: ConnView<S>, reads: Seq<Option<ReadView>>)
    ensures
        ({
            let a = answers(c, reads);
            let (read, header, state) = responses_read(c, reads);
            &&& a.given == paired(c.inflight, read)
            &&& a.conn.header == header
            &&& a.conn.response == state
            &&& a.conn.inflight == c.inflight.skip(lesser(read.len(), c.inflight.len()) as int)
        }),
    decreases reads.len(),
{
    if reads.len() == 0 {
        assert(c.inflight.skip(0) =~= c.inflight);
    } else {
        lemma_answers(c, reads.drop_last());
        let before = answers(c, reads.drop_last());
        let (given, header, state) = responses_read(c, reads.drop_last());
        let (read, _, _) = responses_read(c, reads);
        let turn = response_turn(reads.last(), header, state);
        if turn.step is Done {
            assert(read.drop_last() =~= given);
            let n = lesser(given.len(), c.inflight.len()) as int;
            if before.conn.inflight.len() > 0 {
                assert(before.conn.inflight[0] == c.inflight[n]);
                assert(before.conn.inflight.skip(1) =~= c.inflight.skip(n + 1));
            }
        }
    }
}

proof fn lemma_paired(ids: Seq<usize>, responses: Seq<ResponseView>)
    requires
        !ids.contains(usize::MAX),
    ensures
        ({
            let given = paired(ids, responses);
            &&& given.len() == lesser(responses.len(), ids.len())
            &&& forall|j: int|
                0 <= j < given.len() ==> #[trigger] given[j] == (ids[j], responses[j])
        }),
    decreases responses.len(),
{
    if responses.len() > 0 {
        lemma_paired(ids, responses.drop_last());
        let n = responses.len() - 1;
        if n < ids.len() {
            assert(ids.contains(ids[n]));
        }
    }
}

/// The responses that a server sends one behind the other, however their bytes are cut, go with the
/// requests that were sent to it, in order.
pub proof fn law_responses_go_with_requests<S>(
    c: ConnView<S>,
    responses: Seq<SentResponse>,
    reads: Seq<Option<ReadView>>,
)
    requires
        c.header.data.len() == 0,
        c.response is Empty,
        !c.inflight.contains(usize::MAX),
        responses.len() > 0,
        forall|i: int|
            0 <= i < responses.len() ==> (#[trigger] responses[i]).fits(c.header.cap),
        reads_fit(reads, c.header.cap),
        reads_tell(responses, reads, c.header.cap),
        reading(reads, c.header.cap).got.is_prefix_of(stream_of(responses)),
    ensures
        ({
            let given = answers(c, reads).given;
            let read = reading(reads, c.header.cap).given;
            &&& given.len() == read.len() || given.len() == c.inflight.len()
            &&& given.len() <= read.len() <= responses.len()
            &&& given.len() <= c.inflight.len()
            &&& forall|j: int|
                0 <= j < given.len() ==> #[trigger] given[j] == (
                    c.inflight[j],
                    responses[j].response,
                )
        }),
{
    let cap = c.header.cap;
    law_answers_in_order(c, reads);
    law_responses_in_a_row(responses, reads, cap);
    lemma_same_reading(c, reads);
    let read = reading(reads, cap).given;
    assert forall|j: int| 0 <= j < read.len() implies read[j] == (
    #[trigger] responses[j]).response by {
        assert(responses.take(read.len() as int)[j] == responses[j]);
    }
}

proof fn lemma_same_reading<S>(c: ConnView<S>, reads: Seq<Option<ReadView>>)
    requires
        c.header.data.len() == 0,
        c.response is Empty,
    ensures
        ({
            let r = reading(reads, c.header.cap);
            responses_read(c, reads) == (r.given, r.header, r.state)
        }),
    decreases reads.len(),
{
    if reads.len() == 0 {
        assert(c.header.data =~= Seq::<u8>::empty());
    } else {
        lemma_same_reading(c, reads.drop_last());
    }
}

/// A request that was sent waits behind all that were sent before, and what waits is not changed
/// where sending failed.
pub proof fn law_request_waits<S>(c: ConnView<S>, req_id: usize, outcome: Result<(), IOError>)
    ensures
        ({
            let (step, after) = request_sent(c, req_id, outcome);
            &&& step is Done <==> outcome is Ok
            &&& after.inflight == if step is Done {
                c.inflight.push(req_id)
            } else {
                c.inflight
            }
        }),
{
}

/// A connection that is to be closed gives no request any more, and ends as soon as nothing waits
/// for an answer.
pub proof fn law_closed_gives_no_request<S>(
    c: ConnView<S>,
    outcome: Result<(), IOError>,
    peer_ip: Option<Seq<char>>,
)
    requires
        c.closed,
    ensures
        ({
            let (step, after) = server_read_turn(c, ConnReadEvent::Flushed(outcome), peer_ip);
            &&& step is NotReady || step is Failed
            &&& outcome is Ok && c.inflight.len() == 0 ==> step == ServerStepView::Failed(
                HttpConnErrorView::EOF,
            )
            &&& after == c
        }),
{
}

/// Answering as many requests as were read leaves none waiting, and one answer more is refused.
pub proof fn law_no_answer_without_request<S>(
    c: ConnView<S>,
    bytes: Seq<u8>,
    outcome: Option<Result<(), IOError>>,
)
    ensures
        ({
            let (step, after) = write_response_turn(c, bytes, outcome);
            &&& c.inflight.len() == 0 ==> step == ConnWriteStepView::Failed(HttpConnErrorView::EOF)
                && after == c
            &&& step is Done ==> after.inflight.len() == c.inflight.len() - 1
        }),
{
}

/// A request goes to a connection that is no busier than any other, if the busiest come first.
pub proof fn law_least_busy_is_used<S>(
    p: PoolView<S>,
    req_id: usize,
    idle: u64,
    bytes: Seq<u8>,
    step: PoolWriteStepView,
    after: PoolView<S>,
)
    requires
        p.clients.len() > 0,
        busiest_first(p.clients),
        pool_writes(p, req_id, PoolWriteEvent::Start(idle), bytes, step, after),
    ensures
        after.current is Some,
        forall|i: int|
            0 <= i < p.clients.len() ==> after.current->0.inflight.len() <= (
            #[trigger] p.clients[i]).inflight.len(),
        after.clients == p.clients.drop_last(),
{
}

/// Once a request is sent, or could not be sent though there was a stream, the connection is put
/// back and the busiest come first again.
pub proof fn law_pool_in_order<S>(
    p: PoolView<S>,
    req_id: usize,
    event: PoolWriteEvent<S>,
    bytes: Seq<u8>,
    step: PoolWriteStepView,
    after: PoolView<S>,
)
    requires
        p.current is Some,
        !(event is Start),
        pool_writes(p, req_id, event, bytes, step, after),
        step is Done || (step is Failed && !gave_up(event)),
    ensures
        busiest_first(after.clients),
        after.current is None,
        after.clients.len() == p.clients.len() + 1,
{
    let conn = choose|conn: ConnView<S>|
        after.clients.to_multiset() == #[trigger] p.clients.push(conn).to_multiset();
    assert(after.clients.to_multiset() == p.clients.push(conn).to_multiset());
    to_multiset_len(after.clients);
    to_multiset_len(p.clients.push(conn));
}

} // verus!
