//! The client that waits for each response.
use crate::conn::{
    conn_error, fresh_conn, ConnView, HttpConn, HttpConnBlockingClientType, HttpConnError,
    HttpConnErrorView,
};
use crate::request_build::{is_message_of, HttpRequestBuilder};
use crate::response::{HttpResponse, ResponseView};
use crate::response_read::{
    response_room, response_turn, ResponseFault, ResponseStep, ResponseStepView,
};
use crate::stream::{read_fits, read_view, ReadView, StreamRead};
use crate::uri::Uri;
use vstd::prelude::*;

verus! {

/// What has come of what was asked for last, or a new wish to send a request.
pub enum SendEvent {
    Start,
    /// Writing out the request gave this, or an error in words.
    Written(Result<(), String>),
    /// Reading gave this.
    Read(StreamRead),
}

/// What is to be done next to send a request and get its answer.
pub enum SendStep {
    /// Write out all of this.
    Write(Vec<u8>),
    /// Wait for bytes, and read at most this many. With no room at all, tell that reading gave no
    /// bytes.
    NeedRead(usize),
    Done(HttpResponse),
    Failed(HttpConnError),
    Fault(ResponseFault),
}

/// What a [`SendStep`] stands for.
pub enum SendStepView {
    Write(Seq<u8>),
    NeedRead(int),
    Done(ResponseView),
    Failed(HttpConnErrorView),
    IllegalBody(Seq<char>),
    ChunkOverflow,
}

impl View for SendStep {
    type V = SendStepView;

    open spec fn view(&self) -> SendStepView {
        match *self {
            SendStep::Write(bytes) => SendStepView::Write(bytes@),
            SendStep::NeedRead(n) => SendStepView::NeedRead(n as int),
            SendStep::Done(response) => SendStepView::Done(response@),
            SendStep::Failed(e) => SendStepView::Failed(e@),
            SendStep::Fault(ResponseFault::IllegalBody(text)) => SendStepView::IllegalBody(text@),
            SendStep::Fault(ResponseFault::ChunkOverflow) => SendStepView::ChunkOverflow,
        }
    }
}

/// How often a client looks for a response that is not there yet.
pub const TRIES: usize = 10000;

/// What a turn of reading a response is to a client that waits.
pub open spec fn waiting(step: ResponseStepView, room: int) -> SendStepView {
    match step {
        ResponseStepView::NeedRead(n) => SendStepView::NeedRead(n),
        ResponseStepView::NotReady => SendStepView::NeedRead(room),
        ResponseStepView::Done(response) => SendStepView::Done(response),
        ResponseStepView::Failed(e) => SendStepView::Failed(conn_error(e)),
        ResponseStepView::IllegalBody(text) => SendStepView::IllegalBody(text),
        ResponseStepView::ChunkOverflow => SendStepView::ChunkOverflow,
    }
}

/// One turn of waiting for a response, after `tries` vain looks: what is to be done next, the
/// connection, and the vain looks so far.
pub open spec fn await_turn<S>(c: ConnView<S>, tries: usize, read: Option<ReadView>) -> (
    SendStepView,
    ConnView<S>,
    int,
) {
    let turn = response_turn(read, c.header, c.response);
    let next = ConnView { header: turn.header, response: turn.state, ..c };
    let room = response_room(turn.header, turn.state);
    if turn.step is NotReady {
        if tries + 1 >= TRIES {
            (SendStepView::Failed(HttpConnErrorView::EOF), next, tries + 1)
        } else {
            (SendStepView::NeedRead(room), next, tries + 1)
        }
    } else {
        (waiting(turn.step, room), next, tries as int)
    }
}

/// What an event comes to where a request is to be sent; `bytes` are what it is written as.
pub open spec fn send_turn<S>(c: ConnView<S>, tries: usize, event: SendEvent, bytes: Seq<u8>) -> (
    SendStepView,
    ConnView<S>,
    int,
) {
    match event {
        SendEvent::Start => (SendStepView::Write(bytes), c, tries as int),
        SendEvent::Written(Err(text)) => (
            SendStepView::Failed(HttpConnErrorView::IoError(text@)),
            c,
            tries as int,
        ),
        SendEvent::Written(Ok(_)) => await_turn(c, 0, None),
        SendEvent::Read(read) => await_turn(c, tries, Some(read@)),
    }
}

impl<S> HttpConn<S, HttpConnBlockingClientType> {
    /// The connection over a stream to what an address names.
    pub fn connect(uri: Uri, stream: S) -> (r: Self)
        ensures
            r.wf(),
            r@ == fresh_conn(uri@, stream, None),
    {
        Self::new(uri, stream, None)
    }

    fn await_response(&mut self, tries: &mut usize, read: Option<StreamRead>) -> (r: SendStep)
        requires
            old(self).wf(),
            *old(tries) < TRIES,
            read_fits(read_view(read), response_room(old(self)@.header, old(self)@.response)),
        ensures
            final(self).wf(),
            (r@, final(self)@, *final(tries) as int) == await_turn(
                old(self)@,
                *old(tries),
                read_view(read),
            ),
    {
        match self.read_one(read) {
            ResponseStep::NotReady => {
                *tries += 1;
                if *tries >= TRIES {
                    return SendStep::Failed(HttpConnError::EOF);
                }
                SendStep::NeedRead(self.response_space())
            },
            ResponseStep::NeedRead(n) => SendStep::NeedRead(n),
            ResponseStep::Done(response) => SendStep::Done(response),
            ResponseStep::Failed(e) => SendStep::Failed(HttpConnError::from(e)),
            ResponseStep::Fault(fault) => SendStep::Fault(fault),
        }
    }

    /// Sends a request and waits for the answer. `tries` counts the vain looks for it.
    pub fn send(&mut self, req: &HttpRequestBuilder, tries: &mut usize, event: SendEvent) -> (r:
        SendStep)
        requires
            old(self).wf(),
            *old(tries) < TRIES,
            event matches SendEvent::Read(read) ==> read_fits(
                Some(read@),
                response_room(old(self)@.header, old(self)@.response),
            ),
        ensures
            final(self).wf(),
            exists|bytes: Seq<u8>|
                is_message_of(req@, bytes) && (r@, final(self)@, *final(tries) as int)
                    == #[trigger] send_turn(old(self)@, *old(tries), event, bytes),
    {
        let msg = req.parse_msg();
        let ghost turn = send_turn(self@, *tries, event, msg@);
        match event {
            SendEvent::Start => SendStep::Write(msg),
            SendEvent::Written(Err(text)) => SendStep::Failed(HttpConnError::IoError(text)),
            SendEvent::Written(Ok(_)) => {
                *tries = 0;
                self.await_response(tries, None)
            },
            SendEvent::Read(read) => self.await_response(tries, Some(read)),
        }
    }
}

} // verus!
