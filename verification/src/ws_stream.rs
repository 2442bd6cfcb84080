//! WebSocket streams: putting messages together from frames, and taking them apart into frames.
//! A stream keeps what was read and not understood yet, and what is written and not sent yet;
//! whoever owns it moves the bytes. Times are in nanoseconds since some moment in the past.
use crate::buffer::{concatenated, BufferVec, BufferView, ExpandVec};
use crate::stream::{IOError, StreamRead};
use crate::text::bytes_eq;
use crate::uri::{Uri, UriView};
use crate::ws_frame::{are_frames, frame_len, is_frame, lemma_frames_push, Frame};
use crate::ws_parser::{
    can_write, parser_read, parser_write, read_out, send_code, ws_parser_state, written_frame,
    wrote, WsParser, WsParserState, WsReadError, WsReadResult, WsWriteError,
};
use crate::ws_types::{WsDataType, WsError, WsErrorView, WsReceiveType, WsSendType};
use vstd::prelude::*;
use vstd::slice::slice_subrange;

verus! {

pub struct WsStreamConfig {
    pub endpoint: Uri,
    /// The most bytes of a message that go into one frame; 0 stands for 4096.
    pub frame_size: usize,
    /// After how long without a message the other side is probed.
    pub keep_alive: Option<u64>,
    pub auto_reconnect: bool,
}

/// A WebSocket stream over `S`, with `H` for what is known of its handshake.
pub struct WsStream<S, H> {
    pub cfg: WsStreamConfig,
    connected: Option<(S, WsParser)>,
    is_client: bool,
    connection_epoch: usize,
    handshake: H,
    buffer: Vec<u8>,
    read_buffer: BufferVec,
    last_msg_time: u64,
    continuation_buffer: ExpandVec,
    wbuf: Vec<u8>,
    loop_cnt: usize,
}

/// What a [`WsStream`] holds, apart from its handshake.
pub struct WsView<S> {
    pub endpoint: UriView,
    pub frame_size: usize,
    pub keep_alive: Option<u64>,
    pub auto_reconnect: bool,
    /// The stream and the state of the parser, if there is a connection.
    pub connected: Option<(S, WsParserState)>,
    pub epoch: usize,
    /// Room that reading and writing share.
    pub buffer: Seq<u8>,
    /// What was read and not understood yet.
    pub input: BufferView,
    pub last_msg_time: u64,
    /// The pieces of the message that is being read.
    pub pieces: Seq<Seq<u8>>,
    /// What is written and not sent yet.
    pub output: Seq<u8>,
    /// How often a frame was asked for since the last message.
    pub loop_cnt: usize,
}

impl<S> WsView<S> {
    /// The stream without its connection.
    pub open spec fn disconnected(self) -> WsView<S> {
        WsView { connected: None, ..self }
    }

    /// The stream with its parser in another state.
    pub open spec fn with_parser(self, state: WsParserState) -> WsView<S> {
        match self.connected {
            Some((stream, _)) => WsView { connected: Some((stream, state)), ..self },
            None => self,
        }
    }

    /// The state of the parser.
    pub open spec fn parser(self) -> WsParserState {
        let (_, state) = self.connected->0;
        state
    }
}

/// Whether two streams are alike but for what is to be sent and the room that is shared.
pub open spec fn alike_inside<S>(a: WsView<S>, b: WsView<S>) -> bool {
    a == (WsView { output: a.output, buffer: a.buffer, ..b }) && a.buffer.len() == b.buffer.len()
}

/// How often a frame is asked for, at most, before a message must be complete.
pub const LOOP_LIMIT: usize = 11000;

/// What the other side is probed with.
pub open spec fn ping_message() -> Seq<u8> {
    vstd::utf8::encode_utf8("1234567890abcdefghijklmnopqrstuvwxyz"@)
}

/// Whether reading a frame gave nothing for want of bytes.
pub open spec fn incomplete(result: Result<WsReadResult, WsReadError>) -> bool {
    match result {
        Ok(r) => {
            &&& r.len_from == 0
            &&& r.len_to == 0
            &&& !r.end_of_message
            &&& r.message_type is Text || r.message_type is Binary
        },
        Err(e) => e is FrameIncomplete,
    }
}

/// What reading a message works on.
pub struct MsgState {
    pub parser: WsParserState,
    pub buffer: Seq<u8>,
    pub input: BufferView,
    pub pieces: Seq<Seq<u8>>,
}

/// How reading a message ends.
pub enum MsgEnd {
    /// The message is complete, and is of this kind.
    Message(WsReceiveType),
    /// More bytes are needed.
    NeedRead,
    /// More bytes are needed, and there is no room for them.
    Full,
    /// The frames are in disorder, or close the connection.
    Broken,
    /// The message takes too many frames.
    Endless,
}

pub struct MsgRun {
    pub end: MsgEnd,
    pub loop_cnt: int,
    pub state: MsgState,
}

/// Reads frames until a message is complete.
#[verifier::opaque]
pub open spec fn msg_run(s: MsgState, loop_cnt: int) -> MsgRun
    decreases LOOP_LIMIT - loop_cnt,
{
    if loop_cnt >= LOOP_LIMIT {
        MsgRun { end: MsgEnd::Endless, loop_cnt: loop_cnt + 1, state: s }
    } else {
        let out = read_out(s.parser, s.input.data, s.buffer);
        let read = MsgState { parser: out.state, buffer: out.to, ..s };
        if incomplete(out.result) {
            MsgRun {
                end: if s.input.room() == 0 {
                    MsgEnd::Full
                } else {
                    MsgEnd::NeedRead
                },
                loop_cnt: loop_cnt + 1,
                state: read,
            }
        } else {
            match out.result {
                Err(_) => MsgRun { end: MsgEnd::Broken, loop_cnt: loop_cnt + 1, state: read },
                Ok(r) => {
                    let taken = MsgState { input: s.input.consumed(r.len_from as int), ..read };
                    let more = MsgState {
                        pieces: s.pieces.push(out.to.take(r.len_to as int)),
                        ..taken
                    };
                    if r.closing {
                        MsgRun { end: MsgEnd::Broken, loop_cnt: loop_cnt + 1, state: taken }
                    } else if r.end_of_message {
                        MsgRun {
                            end: MsgEnd::Message(r.message_type),
                            loop_cnt: loop_cnt + 1,
                            state: more,
                        }
                    } else {
                        msg_run(more, loop_cnt + 1)
                    }
                },
            }
        }
    }
}

/// What comes of trying to read a message.
pub enum MsgStep {
    Message(WsReceiveType),
    /// At most this many bytes are to be read off the stream.
    NeedRead(usize),
    Failed(WsError),
}

/// What a [`MsgStep`] stands for.
pub enum MsgStepView {
    Message(WsReceiveType),
    NeedRead(int),
    Failed(WsErrorView),
}

impl View for MsgStep {
    type V = MsgStepView;

    open spec fn view(&self) -> MsgStepView {
        match *self {
            MsgStep::Message(ty) => MsgStepView::Message(ty),
            MsgStep::NeedRead(n) => MsgStepView::NeedRead(n as int),
            MsgStep::Failed(e) => MsgStepView::Failed(e@),
        }
    }
}

/// The error that the connection is gone.
pub open spec fn gone(temporary: bool) -> WsErrorView {
    WsErrorView::ServerDisconnected { temporary }
}

/// Why a stream is not connected, if it is not, and what it is after looking: one that was shut
/// down drops its connection.
pub open spec fn connection_check<S>(w: WsView<S>, alive: bool) -> (Option<WsErrorView>, WsView<S>) {
    if !alive {
        (Some(gone(false)), w.disconnected())
    } else if w.connected is None {
        (Some(gone(w.auto_reconnect)), w)
    } else {
        (None, w)
    }
}

/// A stream with what reading a message works on put back.
pub open spec fn put_back<S>(w: WsView<S>, s: MsgState) -> WsView<S> {
    WsView { buffer: s.buffer, input: s.input, pieces: s.pieces, ..w.with_parser(s.parser) }
}

/// What trying to read a message comes to.
pub open spec fn msg_turn<S>(w: WsView<S>, alive: bool, now: u64) -> (MsgStepView, WsView<S>) {
    let over = WsView { loop_cnt: 0, ..w };
    if w.loop_cnt >= LOOP_LIMIT {
        (MsgStepView::Failed(gone(false)), over.disconnected())
    } else {
        match connection_check(over, alive) {
            (Some(e), checked) => (MsgStepView::Failed(e), checked),
            (None, _) => {
                let run = msg_run(
                    MsgState {
                        parser: w.parser(),
                        buffer: w.buffer,
                        input: w.input,
                        pieces: w.pieces,
                    },
                    w.loop_cnt as int,
                );
                let after = put_back(over, run.state);
                match run.end {
                    MsgEnd::Message(ty) => (
                        MsgStepView::Message(ty),
                        WsView { last_msg_time: now, ..after },
                    ),
                    MsgEnd::NeedRead => (
                        MsgStepView::NeedRead(run.state.input.room()),
                        WsView { loop_cnt: run.loop_cnt as usize, ..after },
                    ),
                    MsgEnd::Full => (MsgStepView::Failed(WsErrorView::WouldBlock), after),
                    MsgEnd::Broken => (MsgStepView::Failed(gone(true)), after.disconnected()),
                    MsgEnd::Endless => (MsgStepView::Failed(gone(false)), after.disconnected()),
                }
            },
        }
    }
}

/// Whether every piece of a message of `count` bytes fits into the room for frames. Where the
/// first does not, no other would. An empty message needs no room.
pub open spec fn pieces_fit(frame_size: usize, count: nat, is_client: bool) -> bool {
    let n = if count < frame_size {
        count
    } else {
        frame_size as nat
    };
    count == 0 || frame_len(n, is_client) <= 2 * frame_size
}

/// The frames that a message is cut into, from `at` on: each takes as much as it may, the last is
/// marked as such, and all but the first of the message are continuations.
#[verifier::opaque]
pub open spec fn cut(message: Seq<u8>, at: int, code: u8, frame_size: usize) -> Seq<Frame>
    decreases message.len() - at,
    when 0 <= at < message.len() && frame_size > 0
{
    let n: int = if message.len() - at > frame_size {
        frame_size as int
    } else {
        message.len() - at
    };
    let fin = at + n == message.len();
    let frame = Frame {
        fin,
        code: if at > 0 {
            0
        } else {
            code
        },
        payload: message.subrange(at, at + n),
    };
    if fin {
        seq![frame]
    } else {
        seq![frame] + cut(message, at + n, code, frame_size)
    }
}

/// The frames that a message is written in; an empty message takes none.
pub open spec fn message_frames(message: Seq<u8>, ty: WsSendType, frame_size: usize) -> Seq<Frame> {
    if message.len() == 0 {
        Seq::empty()
    } else {
        cut(message, 0, send_code(ty), frame_size)
    }
}

/// How writing a message ends.
pub enum WriteEnd {
    Written,
    /// The message does not fit into the room for frames, and never will.
    NoRoom,
    Failed(WsErrorView),
}

/// What writing a message comes to: how it ends, the stream but for what is to be sent, and the
/// frames that are added to that.
pub open spec fn write_turn<S>(
    w: WsView<S>,
    alive: bool,
    now: u64,
    ty: WsSendType,
    message: Seq<u8>,
) -> (WriteEnd, WsView<S>, Seq<Frame>) {
    let done = WsView { last_msg_time: now, ..w };
    match connection_check(w, alive) {
        (Some(e), checked) => (WriteEnd::Failed(e), checked, Seq::empty()),
        (None, _) => if message.len() == 0 {
            (WriteEnd::Written, done, Seq::empty())
        } else if !can_write(w.parser()) {
            (WriteEnd::Failed(gone(true)), w.disconnected(), Seq::empty())
        } else if !pieces_fit(w.frame_size, message.len(), w.parser().is_client) {
            (WriteEnd::NoRoom, w, Seq::empty())
        } else {
            (
                WriteEnd::Written,
                done.with_parser(wrote(w.parser(), ty, true)),
                message_frames(message, ty, w.frame_size),
            )
        },
    }
}

/// Whether `after` is `before` with the bytes of `frames` behind it.
pub open spec fn sends(
    before: Seq<u8>,
    after: Seq<u8>,
    frames: Seq<Frame>,
    is_client: bool,
) -> bool {
    &&& before.is_prefix_of(after)
    &&& are_frames(frames, is_client, after.skip(before.len() as int))
}

/// What has come of what was asked for last, or a new wish for a message.
pub enum WsReadEvent {
    /// A message is wanted.
    Start,
    /// Reading gave this.
    Read(StreamRead),
    /// Writing out the answer to a probe gave this.
    Sent(Result<(), IOError>),
    /// Writing out a probe gave this.
    PingSent(Result<(), IOError>),
    /// Writing out what was left to be sent gave this.
    Flushed(Result<(), IOError>),
}

/// What is to be done next to read a message.
pub enum WsReadStep {
    /// Go on with the handshake, and ask again once there is a connection.
    Connect,
    /// Read at most this many bytes off the stream.
    NeedRead(usize),
    /// Write out what is to be sent, an answer to a probe; what the stream does not take now may
    /// stay for later.
    Send,
    /// Write out what is to be sent, a probe; what the stream does not take now may stay for later.
    SendPing,
    /// Write out all that is to be sent.
    Flush,
    /// The message is there, and is of this kind.
    Done(WsDataType),
    Failed(WsError),
    /// A probe, or the answer to one, does not fit into the room for frames. There is no answer to
    /// that but to stop.
    NoRoom,
}

/// What a [`WsReadStep`] stands for.
pub enum WsReadStepView {
    Connect,
    NeedRead(int),
    Send,
    SendPing,
    Flush,
    Done(WsDataType),
    Failed(WsErrorView),
    NoRoom,
}

impl View for WsReadStep {
    type V = WsReadStepView;

    open spec fn view(&self) -> WsReadStepView {
        match *self {
            WsReadStep::Connect => WsReadStepView::Connect,
            WsReadStep::NeedRead(n) => WsReadStepView::NeedRead(n as int),
            WsReadStep::Send => WsReadStepView::Send,
            WsReadStep::SendPing => WsReadStepView::SendPing,
            WsReadStep::Flush => WsReadStepView::Flush,
            WsReadStep::Done(ty) => WsReadStepView::Done(ty),
            WsReadStep::Failed(e) => WsReadStepView::Failed(e@),
            WsReadStep::NoRoom => WsReadStepView::NoRoom,
        }
    }
}

/// What is to be done where one does not go on without an outcome.
pub enum BlockingStep<E> {
    /// Wait, and try again.
    Wait,
    /// It is over, with this outcome.
    Over(Result<E, WsError>),
}

/// What is to be done next to send a message.
pub enum WsWriteStep {
    /// Go on with the handshake, and ask again once there is a connection.
    Connect,
    /// Write out what is to be sent; what the stream does not take now may stay for later.
    Send,
    Failed(WsError),
    /// The message does not fit into the room for frames. There is no answer to that but to stop.
    NoRoom,
}

/// What a [`WsWriteStep`] stands for.
pub enum WsWriteStepView {
    Connect,
    Send,
    Failed(WsErrorView),
    NoRoom,
}

impl View for WsWriteStep {
    type V = WsWriteStepView;

    open spec fn view(&self) -> WsWriteStepView {
        match *self {
            WsWriteStep::Connect => WsWriteStepView::Connect,
            WsWriteStep::Send => WsWriteStepView::Send,
            WsWriteStep::Failed(e) => WsWriteStepView::Failed(e@),
            WsWriteStep::NoRoom => WsWriteStepView::NoRoom,
        }
    }
}

/// Whether sending a message over a connection, or finding out that there is none, makes `after`
/// of a stream, and `step` the next thing to do.
pub open spec fn message_sent<S>(
    w: WsView<S>,
    alive: bool,
    now: u64,
    ty: WsSendType,
    message: Seq<u8>,
    step: WsWriteStepView,
    after: WsView<S>,
) -> bool {
    let (end, then, frames) = write_turn(w, alive, now, ty, message);
    match end {
        WriteEnd::Failed(e) => step == WsWriteStepView::Failed(e) && after == then,
        WriteEnd::NoRoom => step is NoRoom && after == then,
        WriteEnd::Written => {
            &&& step is Send
            &&& alike_inside(after, then)
            &&& message.len() == 0 ==> after == then
            &&& message.len() > 0 ==> w.connected is Some && sends(
                w.output,
                after.output,
                frames,
                w.parser().is_client,
            )
        },
    }
}

/// One turn of reading messages: what is to be done next, the stream but for what is to be sent,
/// the frames that are added to that, and the bytes of the message.
pub struct ReadTurn<S> {
    pub step: WsReadStepView,
    pub stream: WsView<S>,
    pub frames: Seq<Frame>,
    pub data: Seq<u8>,
}

/// A turn that sends nothing and gives no message.
pub open spec fn plain_turn<S>(step: WsReadStepView, stream: WsView<S>) -> ReadTurn<S> {
    ReadTurn { step, stream, frames: Seq::empty(), data: Seq::empty() }
}

/// How a message is dealt with: one of data that is what this side probes with counts as the
/// answer to a probe.
pub open spec fn taken_as(ty: WsReceiveType, pieces: Seq<Seq<u8>>) -> WsReceiveType {
    if (ty is Binary || ty is Text) && pieces.len() > 0 && pieces.last() == ping_message() {
        WsReceiveType::Pong
    } else {
        ty
    }
}

/// A stream without the piece that came last.
pub open spec fn popped<S>(w: WsView<S>) -> WsView<S> {
    if w.pieces.len() > 0 {
        WsView { pieces: w.pieces.drop_last(), ..w }
    } else {
        w
    }
}

/// The piece that came last.
pub open spec fn last_piece(pieces: Seq<Seq<u8>>) -> Seq<u8> {
    if pieces.len() > 0 {
        pieces.last()
    } else {
        Seq::empty()
    }
}

/// Whether the other side is to be probed.
pub open spec fn probe_due<S>(w: WsView<S>, now: u64) -> bool {
    w.keep_alive matches Some(time) && concatenated(w.pieces).len() == 0 && now - w.last_msg_time
        > time
}

/// The turn where no message has come.
pub open spec fn blocked_turn<S>(w: WsView<S>, alive: bool, now: u64) -> ReadTurn<S> {
    if probe_due(w, now) {
        match write_turn(w, alive, now, WsSendType::Ping, ping_message()) {
            (WriteEnd::Failed(e), after, _) => plain_turn(WsReadStepView::Failed(e), after),
            (WriteEnd::NoRoom, after, _) => plain_turn(WsReadStepView::NoRoom, after),
            (WriteEnd::Written, after, frames) => ReadTurn {
                step: WsReadStepView::SendPing,
                stream: after,
                frames,
                data: Seq::empty(),
            },
        }
    } else {
        flush_turn(w, alive)
    }
}

/// The turn where what is left is to be sent.
pub open spec fn flush_turn<S>(w: WsView<S>, alive: bool) -> ReadTurn<S> {
    match connection_check(w, alive) {
        (Some(e), checked) => plain_turn(WsReadStepView::Failed(e), checked),
        (None, _) => plain_turn(WsReadStepView::Flush, w),
    }
}

/// The turn where a message is looked for in what has come in. Answers to probes are dropped and
/// requests to close are passed over; `fuel` bounds how many messages that may be.
pub open spec fn message_turn<S>(w: WsView<S>, alive: bool, now: u64, fuel: nat) -> ReadTurn<S>
    decreases fuel, 1int,
{
    match msg_turn(w, alive, now) {
        (MsgStepView::NeedRead(n), after) => plain_turn(WsReadStepView::NeedRead(n), after),
        (MsgStepView::Failed(WsErrorView::WouldBlock), after) => blocked_turn(after, alive, now),
        (MsgStepView::Failed(e), after) => plain_turn(WsReadStepView::Failed(e), after),
        (MsgStepView::Message(ty), after) => {
            let next = popped(after);
            match taken_as(ty, after.pieces) {
                WsReceiveType::Binary => data_turn(WsDataType::Binary, after),
                WsReceiveType::Text => data_turn(WsDataType::Text, after),
                WsReceiveType::CloseCompleted => plain_turn(
                    WsReadStepView::Failed(gone(true)),
                    after.disconnected(),
                ),
                WsReceiveType::CloseMustReply | WsReceiveType::Pong => if fuel > 0 {
                    next_turn(next, alive, now, fuel)
                } else {
                    arbitrary()
                },
                WsReceiveType::Ping => {
                    let message = last_piece(after.pieces);
                    match write_turn(next, alive, now, WsSendType::Pong, message) {
                        (WriteEnd::Failed(e), then, _) => plain_turn(
                            WsReadStepView::Failed(e),
                            then,
                        ),
                        (WriteEnd::NoRoom, then, _) => plain_turn(WsReadStepView::NoRoom, then),
                        (WriteEnd::Written, then, frames) => if message.len() > 0 {
                            ReadTurn {
                                step: WsReadStepView::Send,
                                stream: then,
                                frames,
                                data: Seq::empty(),
                            }
                        } else if fuel > 0 {
                            next_turn(then, alive, now, fuel)
                        } else {
                            arbitrary()
                        },
                    }
                },
            }
        },
    }
}

/// The turn where the message after this one is looked for.
pub open spec fn next_turn<S>(w: WsView<S>, alive: bool, now: u64, fuel: nat) -> ReadTurn<S>
    decreases fuel, 0int,
    when fuel > 0
{
    match connection_check(w, alive) {
        (Some(e), checked) => plain_turn(WsReadStepView::Failed(e), checked),
        (None, _) => message_turn(w, alive, now, (fuel - 1) as nat),
    }
}

/// The turn where a message of data is there.
pub open spec fn data_turn<S>(ty: WsDataType, w: WsView<S>) -> ReadTurn<S> {
    ReadTurn {
        step: WsReadStepView::Done(ty),
        stream: WsView { pieces: Seq::empty(), ..w },
        frames: Seq::empty(),
        data: concatenated(w.pieces),
    }
}

/// The turn from the top: whether there is a connection, and then whether a message has come.
pub open spec fn top_turn<S>(w: WsView<S>, alive: bool, now: u64) -> ReadTurn<S> {
    match connection_check(w, alive) {
        (Some(e), checked) => plain_turn(WsReadStepView::Failed(e), checked),
        (None, _) => message_turn(w, alive, now, w.input.data.len()),
    }
}

/// What an event comes to.
pub open spec fn read_turn<S>(
    w: WsView<S>,
    alive: bool,
    now: u64,
    event: WsReadEvent,
) -> ReadTurn<S> {
    let over = WsView { loop_cnt: 0, ..w };
    match event {
        WsReadEvent::Start => top_turn(over, alive, now),
        WsReadEvent::Read(StreamRead::Data(bytes)) => {
            let fed = WsView { input: w.input.appended(bytes@), ..w };
            message_turn(fed, alive, now, fed.input.data.len())
        },
        WsReadEvent::Read(StreamRead::WouldBlock) => blocked_turn(over, alive, now),
        WsReadEvent::Read(_) => plain_turn(
            WsReadStepView::Failed(gone(true)),
            over.disconnected(),
        ),
        WsReadEvent::Sent(Ok(_)) => top_turn(w, alive, now),
        WsReadEvent::PingSent(Ok(_)) => flush_turn(w, alive),
        WsReadEvent::Sent(_) | WsReadEvent::PingSent(_) => plain_turn(
            WsReadStepView::Failed(gone(true)),
            w.disconnected(),
        ),
        WsReadEvent::Flushed(Ok(_)) | WsReadEvent::Flushed(Err(IOError::WouldBlock)) => {
            plain_turn(WsReadStepView::Failed(WsErrorView::WouldBlock), w)
        },
        WsReadEvent::Flushed(Err(IOError::EOF { temporary })) => plain_turn(
            WsReadStepView::Failed(gone(temporary)),
            w,
        ),
        WsReadEvent::Flushed(Err(IOError::Other(_))) => plain_turn(
            WsReadStepView::Failed(gone(false)),
            w,
        ),
    }
}

/// Whether a stream that was `before` is, after a turn, what the turn says.
pub open spec fn turned<S>(before: WsView<S>, after: WsView<S>, turn: ReadTurn<S>) -> bool {
    if turn.step is Send || turn.step is SendPing {
        &&& alike_inside(after, turn.stream)
        &&& before.connected is Some
        &&& sends(before.output, after.output, turn.frames, before.parser().is_client)
    } else {
        after == turn.stream
    }
}

impl<S, H> View for WsStream<S, H> {
    type V = WsView<S>;

    closed spec fn view(&self) -> WsView<S> {
        WsView {
            endpoint: self.cfg.endpoint@,
            frame_size: self.cfg.frame_size,
            keep_alive: self.cfg.keep_alive,
            auto_reconnect: self.cfg.auto_reconnect,
            connected: match self.connected {
                Some((stream, parser)) => Some((stream, ws_parser_state(parser))),
                None => None,
            },
            epoch: self.connection_epoch,
            buffer: self.buffer@,
            input: self.read_buffer@,
            last_msg_time: self.last_msg_time,
            pieces: self.continuation_buffer@,
            output: self.wbuf@,
            loop_cnt: self.loop_cnt,
        }
    }
}

impl<S, H> WsStream<S, H> {
    /// There is room for frames, it is known which side this is, and no message is half written.
    pub closed spec fn wf(&self) -> bool {
        &&& self@.frame_size > 0
        &&& self@.buffer.len() == 2 * self@.frame_size
        &&& self@.buffer.len() <= usize::MAX
        &&& self.read_buffer.wf()
        &&& self@.connected matches Some((_, parser)) ==> {
            &&& !parser.continuing
            &&& parser.is_client == self.is_client
        }
    }

    /// What is known of the handshake.
    pub closed spec fn handshake(&self) -> H {
        self.handshake
    }

    /// A stream without a connection.
    pub(crate) fn init(cfg: WsStreamConfig, handshake: H, now: u64) -> (r: Self)
        requires
            2 * cfg.frame_size <= usize::MAX,
        ensures
            r.wf(),
            r@ == fresh::<S>(cfg, r@.buffer, now),
            r.handshake() == handshake,
    {
        let mut cfg = cfg;
        if cfg.frame_size == 0 {
            cfg.frame_size = 4096;
        }
        let size = cfg.frame_size * 2;
        let r = WsStream {
            cfg,
            connected: None,
            is_client: false,
            connection_epoch: 1,
            handshake,
            buffer: vec![0u8; size],
            read_buffer: BufferVec::new(size),
            last_msg_time: now,
            continuation_buffer: ExpandVec::new(),
            wbuf: Vec::new(),
            loop_cnt: 0,
        };
        r
    }

    /// What is known of the handshake.
    pub(crate) fn handshake_state(&self) -> (r: &H)
        ensures
            *r == self.handshake(),
    {
        &self.handshake
    }

    /// Where the handshake is kept.
    pub(crate) fn handshake_mut(&mut self) -> (r: &mut H)
        requires
            old(self).wf(),
        ensures
            *r == old(self).handshake(),
            final(self).handshake() == *final(r),
            final(self).wf(),
            final(self)@ == old(self)@,
    {
        &mut self.handshake
    }

    /// The address that the stream leads to.
    pub fn endpoint(&self) -> (r: &Uri)
        ensures
            r@ == self@.endpoint,
    {
        &self.cfg.endpoint
    }

    pub(crate) fn set_endpoint(&mut self, endpoint: Uri)
        requires
            old(self).wf(),
        ensures
            final(self).wf(),
            final(self)@ == (WsView { endpoint: endpoint@, ..old(self)@ }),
            final(self).handshake() == old(self).handshake(),
    {
        self.cfg.endpoint = endpoint;
    }

    /// Takes a connection into use, with what was already read off it. The parser is that of a
    /// client, or of a server, as `is_client` says.
    pub(crate) fn open(
        &mut self,
        stream: S,
        parser: WsParser,
        is_client: bool,
        input: BufferVec,
        epoch: usize,
    )
        requires
            old(self).wf(),
            input.wf(),
            !ws_parser_state(parser).continuing,
            ws_parser_state(parser).is_client == is_client,
        ensures
            final(self).wf(),
            final(self)@ == (WsView {
                connected: Some((stream, ws_parser_state(parser))),
                input: input@,
                epoch,
                ..old(self)@
            }),
            final(self).handshake() == old(self).handshake(),
    {
        self.connected = Some((stream, parser));
        self.is_client = is_client;
        self.read_buffer = input;
        self.connection_epoch = epoch;
    }

    pub fn is_connected(&self) -> (r: bool)
        ensures
            r == self@.connected is Some,
    {
        self.connected.is_some()
    }

    /// Drops the connection.
    pub fn disconnect(&mut self)
        requires
            old(self).wf(),
        ensures
            final(self).wf(),
            final(self)@ == old(self)@.disconnected(),
            final(self).handshake() == old(self).handshake(),
    {
        self.connected = None;
    }

    /// How often the stream was connected, and one.
    pub fn epoch(&self) -> (r: usize)
        ensures
            r == self@.epoch,
    {
        self.connection_epoch
    }

    /// The stream, if there is a connection.
    pub fn stream_mut(&mut self) -> (r: Option<&mut S>)
        requires
            old(self).wf(),
        ensures
            match r {
                Some(stream) => {
                    &&& old(self)@.connected matches Some((s, _)) && *stream == s
                    &&& final(self)@ == (WsView {
                        connected: Some((*final(stream), old(self)@.parser())),
                        ..old(self)@
                    })
                },
                None => old(self)@.connected is None && final(self)@ == old(self)@,
            },
            final(self).wf(),
            final(self).handshake() == old(self).handshake(),
    {
        match &mut self.connected {
            Some((stream, _)) => Some(stream),
            None => None,
        }
    }

    /// Looks whether there is a connection; `alive` tells whether the stream was not shut down.
    fn check_connected(&mut self, alive: bool) -> (r: Result<(), WsError>)
        requires
            old(self).wf(),
        ensures
            final(self).wf(),
            final(self).handshake() == old(self).handshake(),
            match (r, connection_check(old(self)@, alive)) {
                (Ok(_), (e, w)) => e is None && final(self)@ == w,
                (Err(f), (e, w)) => e == Some(f@) && final(self)@ == w,
            },
    {
        if !alive {
            self.connected = None;
            return Err(WsError::ServerDisconnected { temporary: false });
        }
        if self.connected.is_none() {
            return Err(WsError::ServerDisconnected { temporary: self.cfg.auto_reconnect });
        }
        Ok(())
    }

    /// Tries to read a message from what has come in.
    fn read_msg(&mut self, alive: bool, now: u64) -> (r: MsgStep)
        requires
            old(self).wf(),
        ensures
            final(self).wf(),
            final(self).handshake() == old(self).handshake(),
            (r@, final(self)@) == msg_turn(old(self)@, alive, now),
            r is Message ==> final(self)@.input.data.len() < old(self)@.input.data.len(),
            final(self)@.connected is Some ==> {
                &&& old(self)@.connected is Some
                &&& final(self)@.parser().is_client == old(self)@.parser().is_client
            },
    {
        let count = self.loop_cnt;
        self.loop_cnt = 0;
        if count >= LOOP_LIMIT {
            self.connected = None;
            return MsgStep::Failed(WsError::ServerDisconnected { temporary: false });
        }
        match self.check_connected(alive) {
            Ok(_) => {},
            Err(e) => return MsgStep::Failed(e),
        }
        let (stream, parser) = match self.connected.take() {
            Some(connected) => connected,
            None => return MsgStep::Failed(WsError::WouldBlock),
        };
        let mut parser = parser;
        let (end, count) = read_frames(
            &mut parser,
            &mut self.buffer,
            &mut self.read_buffer,
            &mut self.continuation_buffer,
            count,
        );
        match end {
            MsgEnd::Message(ty) => {
                self.connected = Some((stream, parser));
                self.last_msg_time = now;
                MsgStep::Message(ty)
            },
            MsgEnd::NeedRead => {
                self.connected = Some((stream, parser));
                self.loop_cnt = count;
                MsgStep::NeedRead(self.read_buffer.room())
            },
            MsgEnd::Full => {
                self.connected = Some((stream, parser));
                MsgStep::Failed(WsError::WouldBlock)
            },
            MsgEnd::Broken => MsgStep::Failed(WsError::ServerDisconnected { temporary: true }),
            MsgEnd::Endless => MsgStep::Failed(WsError::ServerDisconnected { temporary: false }),
        }
    }

    /// What is to be done about the outcome of a try, where one does not go on without one: as long
    /// as the other side is not ready, it is tried again.
    pub fn blocking<E>(outcome: Result<E, WsError>) -> (r: BlockingStep<E>)
        ensures
            r == (if outcome == Err::<E, WsError>(WsError::WouldBlock) {
                BlockingStep::Wait
            } else {
                BlockingStep::Over(outcome)
            }),
    {
        match outcome {
            Err(WsError::WouldBlock) => BlockingStep::Wait,
            other => BlockingStep::Over(other),
        }
    }

    /// Writes a message, of any length, behind what is to be sent.
    pub(crate) fn write_msg(&mut self, alive: bool, now: u64, ty: WsSendType, message: &[u8]) -> (r:
        WsWriteStep)
        requires
            old(self).wf(),
            ty is CloseReply ==> message@.len() == 0,
        ensures
            final(self).wf(),
            final(self).handshake() == old(self).handshake(),
            message_sent(old(self)@, alive, now, ty, message@, r@, final(self)@),
    {
        match self.check_connected(alive) {
            Ok(_) => {},
            Err(e) => return WsWriteStep::Failed(e),
        }
        if message.len() > 0 {
            let (stream, parser) = match self.connected.take() {
                Some(connected) => connected,
                None => return WsWriteStep::Failed(WsError::WouldBlock),
            };
            let mut parser = parser;
            match write_frames(
                &mut parser,
                self.is_client,
                &mut self.buffer,
                &mut self.wbuf,
                ty,
                message,
                self.cfg.frame_size,
            ) {
                FramesEnd::Written => {},
                FramesEnd::NotOpen => {
                    return WsWriteStep::Failed(WsError::ServerDisconnected { temporary: true });
                },
                FramesEnd::NoRoom => {
                    self.connected = Some((stream, parser));
                    return WsWriteStep::NoRoom;
                },
            }
            self.connected = Some((stream, parser));
        }
        self.last_msg_time = now;
        WsWriteStep::Send
    }

    pub(crate) fn auto_reconnects(&self) -> (r: bool)
        ensures
            r == self@.auto_reconnect,
    {
        self.cfg.auto_reconnect
    }

    /// What is written and not sent yet.
    pub fn unsent(&self) -> (r: &[u8])
        ensures
            r@ == self@.output,
    {
        self.wbuf.as_slice()
    }

    /// Takes note that the first `n` bytes of what is to be sent are sent.
    pub fn sent(&mut self, n: usize)
        requires
            old(self).wf(),
            n <= old(self)@.output.len(),
        ensures
            final(self).wf(),
            final(self).handshake() == old(self).handshake(),
            final(self)@ == (WsView { output: old(self)@.output.skip(n as int), ..old(self)@ }),
    {
        let rest = self.wbuf.split_off(n);
        assert(rest@ =~= old(self)@.output.skip(n as int));
        self.wbuf = rest;
    }

    /// Takes note of what came of writing out a message: where it failed, the connection is
    /// dropped.
    pub fn after_write(&mut self, outcome: Result<(), IOError>) -> (r: Result<(), WsError>)
        requires
            old(self).wf(),
        ensures
            final(self).wf(),
            final(self).handshake() == old(self).handshake(),
            outcome is Ok ==> r is Ok && final(self)@ == old(self)@,
            outcome is Err ==> (r matches Err(e) && e@ == gone(true)) && final(self)@ == old(
                self,
            )@.disconnected(),
    {
        match outcome {
            Ok(_) => Ok(()),
            Err(_) => {
                self.connected = None;
                Err(WsError::ServerDisconnected { temporary: true })
            },
        }
    }

    /// Probes the other side if that is due, and else asks to send what is left.
    fn blocked(&mut self, alive: bool, now: u64) -> (r: WsReadStep)
        requires
            old(self).wf(),
        ensures
            final(self).wf(),
            final(self).handshake() == old(self).handshake(),
            r@ == blocked_turn(old(self)@, alive, now).step,
            turned(old(self)@, final(self)@, blocked_turn(old(self)@, alive, now)),
    {
        if let Some(time) = self.cfg.keep_alive {
            if self.continuation_buffer.is_empty() && now > self.last_msg_time && now
                - self.last_msg_time > time {
                let ping = "1234567890abcdefghijklmnopqrstuvwxyz".as_bytes();
                proof {
                    reveal_strlit("1234567890abcdefghijklmnopqrstuvwxyz");
                    lemma_nonempty("1234567890abcdefghijklmnopqrstuvwxyz"@);
                }
                return match self.write_msg(alive, now, WsSendType::Ping, ping) {
                    WsWriteStep::NoRoom => WsReadStep::NoRoom,
                    WsWriteStep::Failed(e) => WsReadStep::Failed(e),
                    _ => WsReadStep::SendPing,
                };
            }
        }
        self.flush_wbuf(alive)
    }

    /// Asks to send what is left, if there is a connection.
    fn flush_wbuf(&mut self, alive: bool) -> (r: WsReadStep)
        requires
            old(self).wf(),
        ensures
            final(self).wf(),
            final(self).handshake() == old(self).handshake(),
            r@ == flush_turn(old(self)@, alive).step,
            final(self)@ == flush_turn(old(self)@, alive).stream,
            r is Flush || r is Failed,
    {
        match self.check_connected(alive) {
            Ok(_) => WsReadStep::Flush,
            Err(e) => WsReadStep::Failed(e),
        }
    }

    /// Looks for messages in what has come in, until one is of data or something is to be done.
    fn read_on(&mut self, alive: bool, now: u64, data: &mut Vec<u8>) -> (r: WsReadStep)
        requires
            old(self).wf(),
        ensures
            final(self).wf(),
            final(self).handshake() == old(self).handshake(),
            ({
                let turn = message_turn(old(self)@, alive, now, old(self)@.input.data.len());
                &&& r@ == turn.step
                &&& turned(old(self)@, final(self)@, turn)
                &&& final(data)@ == old(data)@ + turn.data
            }),
            !(r is Done) ==> final(data)@ == old(data)@,
    {
        let ghost turn = message_turn(self@, alive, now, self@.input.data.len());
        let ghost mut fuel = self@.input.data.len();
        loop
            invariant
                self.wf(),
                self.handshake() == old(self).handshake(),
                data@ == old(data)@,
                turn == message_turn(old(self)@, alive, now, old(self)@.input.data.len()),
                turn == message_turn(self@, alive, now, fuel),
                fuel >= self@.input.data.len(),
                self@.output == old(self)@.output,
                self@.frame_size == old(self)@.frame_size,
                self@.connected matches Some((_, parser)) ==> {
                    &&& old(self)@.connected is Some
                    &&& old(self)@.parser().is_client == parser.is_client
                },
            decreases self@.input.data.len(),
        {
            let ghost before = self@;
            let ty = match self.read_msg(alive, now) {
                MsgStep::Message(ty) => ty,
                MsgStep::NeedRead(n) => return WsReadStep::NeedRead(n),
                MsgStep::Failed(WsError::WouldBlock) => return self.blocked(alive, now),
                MsgStep::Failed(e) => return WsReadStep::Failed(e),
            };
            match taken(ty, &self.continuation_buffer) {
                WsReceiveType::Binary => {
                    self.continuation_buffer.move_to(data);
                    return WsReadStep::Done(WsDataType::Binary);
                },
                WsReceiveType::Text => {
                    self.continuation_buffer.move_to(data);
                    return WsReadStep::Done(WsDataType::Text);
                },
                WsReceiveType::CloseCompleted => {
                    self.connected = None;
                    return WsReadStep::Failed(WsError::ServerDisconnected { temporary: true });
                },
                WsReceiveType::CloseMustReply => {
                    let _ = self.continuation_buffer.pop();
                    let empty: [u8; 0] = [];
                    match self.write_msg(alive, now, WsSendType::CloseReply, &empty) {
                        WsWriteStep::Failed(e) => return WsReadStep::Failed(e),
                        _ => {},
                    }
                },
                WsReceiveType::Ping => {
                    let message = match self.continuation_buffer.pop() {
                        Some(message) => message,
                        None => Vec::new(),
                    };
                    match self.write_msg(alive, now, WsSendType::Pong, message.as_slice()) {
                        WsWriteStep::NoRoom => return WsReadStep::NoRoom,
                        WsWriteStep::Failed(e) => return WsReadStep::Failed(e),
                        _ => {},
                    }
                    if message.len() > 0 {
                        return WsReadStep::Send;
                    }
                },
                WsReceiveType::Pong => {
                    let _ = self.continuation_buffer.pop();
                },
            }
            proof {
                assert(turn == next_turn(self@, alive, now, fuel));
                fuel = (fuel - 1) as nat;
            }
            match self.check_connected(alive) {
                Ok(_) => {},
                Err(e) => return WsReadStep::Failed(e),
            }
        }
    }

    /// Reads a message of data. Probes are answered on the way, and sent where that is due. The
    /// message goes to the end of `data`.
    pub(crate) fn generic_read(
        &mut self,
        alive: bool,
        now: u64,
        event: WsReadEvent,
        data: &mut Vec<u8>,
    ) -> (r: WsReadStep)
        requires
            old(self).wf(),
            event matches WsReadEvent::Read(StreamRead::Data(bytes)) ==> bytes@.len() <= old(
                self,
            )@.input.room(),
        ensures
            final(self).wf(),
            final(self).handshake() == old(self).handshake(),
            ({
                let turn = read_turn(old(self)@, alive, now, event);
                &&& r@ == turn.step
                &&& turned(old(self)@, final(self)@, turn)
                &&& final(data)@ == old(data)@ + turn.data
            }),
            !(r is Done) ==> final(data)@ == old(data)@,
    {
        match event {
            WsReadEvent::Start => {
                self.loop_cnt = 0;
            },
            WsReadEvent::Read(StreamRead::Data(bytes)) => {
                self.read_buffer.append(bytes.as_slice());
                return self.read_on(alive, now, data);
            },
            WsReadEvent::Read(StreamRead::WouldBlock) => {
                self.loop_cnt = 0;
                return self.blocked(alive, now);
            },
            WsReadEvent::Read(_) => {
                self.loop_cnt = 0;
                self.connected = None;
                return WsReadStep::Failed(WsError::ServerDisconnected { temporary: true });
            },
            WsReadEvent::Sent(outcome) => {
                match self.after_write(outcome) {
                    Ok(_) => {},
                    Err(e) => return WsReadStep::Failed(e),
                }
            },
            WsReadEvent::PingSent(outcome) => {
                return match self.after_write(outcome) {
                    Ok(_) => self.flush_wbuf(alive),
                    Err(e) => WsReadStep::Failed(e),
                };
            },
            WsReadEvent::Flushed(outcome) => {
                return WsReadStep::Failed(
                    match outcome {
                        Ok(_) | Err(IOError::WouldBlock) => WsError::WouldBlock,
                        Err(IOError::EOF { temporary }) => WsError::ServerDisconnected {
                            temporary,
                        },
                        Err(IOError::Other(_)) => WsError::ServerDisconnected { temporary: false },
                    },
                );
            },
        }
        match self.check_connected(alive) {
            Ok(_) => self.read_on(alive, now, data),
            Err(e) => WsReadStep::Failed(e),
        }
    }
}

/// How a message is dealt with.
fn taken(ty: WsReceiveType, pieces: &ExpandVec) -> (r: WsReceiveType)
    ensures
        r == taken_as(ty, pieces@),
{
    let is_data = match ty {
        WsReceiveType::Binary | WsReceiveType::Text => true,
        _ => false,
    };
    if is_data {
        if let Some(last) = pieces.last_msg() {
            if bytes_eq(last, "1234567890abcdefghijklmnopqrstuvwxyz".as_bytes()) {
                return WsReceiveType::Pong;
            }
        }
    }
    ty
}

/// A text that is not empty has bytes.
proof fn lemma_nonempty(text: Seq<char>)
    requires
        text.len() > 0,
    ensures
        vstd::utf8::encode_utf8(text).len() > 0,
{
}

/// A stream that was just made.
pub open spec fn fresh<S>(cfg: WsStreamConfig, buffer: Seq<u8>, now: u64) -> WsView<S> {
    let frame_size: usize = if cfg.frame_size == 0 {
        4096
    } else {
        cfg.frame_size
    };
    WsView {
        endpoint: cfg.endpoint@,
        frame_size,
        keep_alive: cfg.keep_alive,
        auto_reconnect: cfg.auto_reconnect,
        connected: None,
        epoch: 1,
        buffer,
        input: BufferView { data: Seq::empty(), cap: 2 * frame_size as nat },
        last_msg_time: now,
        pieces: Seq::empty(),
        output: Seq::empty(),
        loop_cnt: 0,
    }
}

/// Whether reading a frame gave nothing for want of bytes.
fn is_read_frame_incomplete(result: &Result<WsReadResult, WsReadError>) -> (r: bool)
    ensures
        r == incomplete(*result),
{
    match result {
        Ok(r) => {
            r.len_from == 0 && r.len_to == 0 && !r.end_of_message && match r.message_type {
                WsReceiveType::Text | WsReceiveType::Binary => true,
                _ => false,
            }
        },
        Err(WsReadError::FrameIncomplete) => true,
        Err(_) => false,
    }
}

/// Reads frames until a message is complete.
fn read_frames(
    parser: &mut WsParser,
    buffer: &mut Vec<u8>,
    input: &mut BufferVec,
    pieces: &mut ExpandVec,
    loop_cnt: usize,
) -> (r: (MsgEnd, usize))
    requires
        old(input).wf(),
        loop_cnt < LOOP_LIMIT,
    ensures
        ({
            let run = msg_run(
                MsgState {
                    parser: ws_parser_state(*old(parser)),
                    buffer: old(buffer)@,
                    input: old(input)@,
                    pieces: old(pieces)@,
                },
                loop_cnt as int,
            );
            &&& r.0 == run.end
            &&& r.1 == run.loop_cnt
            &&& run.state == (MsgState {
                parser: ws_parser_state(*final(parser)),
                buffer: final(buffer)@,
                input: final(input)@,
                pieces: final(pieces)@,
            })
        }),
        final(input).wf(),
        final(buffer)@.len() == old(buffer)@.len(),
        ws_parser_state(*final(parser)).continuing == ws_parser_state(*old(parser)).continuing,
        ws_parser_state(*final(parser)).is_client == ws_parser_state(*old(parser)).is_client,
        r.0 is Message ==> final(input)@.data.len() < old(input)@.data.len(),
{
    let ghost all = msg_run(
        MsgState {
            parser: ws_parser_state(*parser),
            buffer: buffer@,
            input: input@,
            pieces: pieces@,
        },
        loop_cnt as int,
    );
    let mut count: usize = loop_cnt;
    while count < LOOP_LIMIT
        invariant
            count <= LOOP_LIMIT,
            input.wf(),
            input@.cap == old(input)@.cap,
            input@.data.len() <= old(input)@.data.len(),
            buffer@.len() == old(buffer)@.len(),
            ws_parser_state(*parser).continuing == ws_parser_state(*old(parser)).continuing,
            ws_parser_state(*parser).is_client == ws_parser_state(*old(parser)).is_client,
            all == msg_run(
                MsgState {
                    parser: ws_parser_state(*old(parser)),
                    buffer: old(buffer)@,
                    input: old(input)@,
                    pieces: old(pieces)@,
                },
                loop_cnt as int,
            ),
            all == msg_run(
                MsgState {
                    parser: ws_parser_state(*parser),
                    buffer: buffer@,
                    input: input@,
                    pieces: pieces@,
                },
                count as int,
            ),
        decreases LOOP_LIMIT - count,
    {
        proof {
            reveal_with_fuel(msg_run, 1);
        }
        count += 1;
        let result = parser_read(parser, input.read(), buffer);
        if is_read_frame_incomplete(&result) {
            if input.room() == 0 {
                return (MsgEnd::Full, count);
            }
            return (MsgEnd::NeedRead, count);
        }
        let result = match result {
            Ok(result) => result,
            Err(_) => return (MsgEnd::Broken, count),
        };
        input.rotate_left(result.len_from);
        if result.closing {
            return (MsgEnd::Broken, count);
        }
        pieces.push(slice_subrange(buffer.as_slice(), 0, result.len_to));
        proof {
            assert(buffer@.subrange(0, result.len_to as int) =~= buffer@.take(
                result.len_to as int,
            ));
        }
        if result.end_of_message {
            return (MsgEnd::Message(result.message_type), count);
        }
    }
    proof {
        reveal_with_fuel(msg_run, 1);
    }
    (MsgEnd::Endless, count + 1)
}

/// The next frame of a message.
proof fn lemma_cut(message: Seq<u8>, at: int, code: u8, frame_size: usize)
    requires
        0 <= at < message.len(),
        frame_size > 0,
    ensures
        ({
            let all = cut(message, at, code, frame_size);
            let left = message.len() - at;
            let n: int = if left > frame_size {
                frame_size as int
            } else {
                left
            };
            let frame = Frame {
                fin: n == left,
                code: if at > 0 {
                    0
                } else {
                    code
                },
                payload: message.subrange(at, at + n),
            };
            &&& n == left ==> all == seq![frame]
            &&& n != left ==> all == seq![frame] + cut(message, at + n, code, frame_size)
        }),
{
    reveal_with_fuel(cut, 1);
}

proof fn lemma_next_frame(done: Seq<Frame>, frame: Frame, rest: Seq<Frame>)
    ensures
        done + (seq![frame] + rest) == done.push(frame) + rest,
        done + seq![frame] == done.push(frame),
{
    assert(done + (seq![frame] + rest) =~= done.push(frame) + rest);
    assert(done + seq![frame] =~= done.push(frame));
}

/// Frames that were sent or stand in the first `used` bytes of the room, and one more behind them.
proof fn lemma_frame_added(
    sent: Seq<u8>,
    room: Seq<u8>,
    after: Seq<u8>,
    used: int,
    size: int,
    done: Seq<Frame>,
    frame: Frame,
    is_client: bool,
)
    requires
        are_frames(done, is_client, sent + room.take(used)),
        0 <= used <= used + size <= after.len(),
        after.take(used) == room.take(used),
        is_frame(frame, is_client, after.subrange(used, used + size)),
    ensures
        are_frames(done.push(frame), is_client, sent + after.take(used + size)),
{
    let more = after.subrange(used, used + size);
    lemma_frames_push(done, is_client, sent + room.take(used), frame, more);
    assert(after.take(used + size) =~= after.take(used) + more);
    assert(sent + after.take(used + size) =~= (sent + room.take(used)) + more);
}

/// How writing the frames of a message ends.
enum FramesEnd {
    Written,
    /// The connection is not open.
    NotOpen,
    /// There is never enough room.
    NoRoom,
}

/// How many bytes a frame has when it is sent.
fn sent_len(count: usize, is_client: bool) -> (r: usize)
    requires
        count + 14 <= usize::MAX,
    ensures
        r == frame_len(count as nat, is_client),
{
    let head: usize = if count < 126 {
        2
    } else if count < 65535 {
        4
    } else {
        10
    };
    if is_client {
        head + count + 4
    } else {
        head + count
    }
}

/// Writes a message out in frames, which are packed into the room and sent when it is full.
#[verifier::rlimit(40)]
fn write_frames(
    parser: &mut WsParser,
    is_client: bool,
    buffer: &mut Vec<u8>,
    output: &mut Vec<u8>,
    ty: WsSendType,
    message: &[u8],
    frame_size: usize,
) -> (r: FramesEnd)
    requires
        frame_size > 0,
        2 * frame_size <= usize::MAX,
        old(buffer)@.len() == 2 * frame_size,
        message@.len() > 0,
        !(ty is CloseReply),
        !ws_parser_state(*old(parser)).continuing,
        is_client == ws_parser_state(*old(parser)).is_client,
    ensures
        r is NotOpen <==> !can_write(ws_parser_state(*old(parser))),
        r is NoRoom <==> can_write(ws_parser_state(*old(parser))) && !pieces_fit(
            frame_size,
            message@.len(),
            is_client,
        ),
        final(buffer)@.len() == old(buffer)@.len(),
        !(r is Written) ==> {
            &&& final(output)@ == old(output)@
            &&& final(buffer)@ == old(buffer)@
            &&& ws_parser_state(*final(parser)) == ws_parser_state(*old(parser))
        },
        r is Written ==> ws_parser_state(*final(parser)) == wrote(
            ws_parser_state(*old(parser)),
            ty,
            true,
        ),
        r is Written ==> sends(
            old(output)@,
            final(output)@,
            message_frames(message@, ty, frame_size),
            is_client,
        ),
{
    let ghost start = ws_parser_state(*parser);
    let ghost code = send_code(ty);
    let ghost all = cut(message@, 0, code, frame_size);
    let ghost mut done = Seq::<Frame>::empty();
    let mut at: usize = 0;
    let mut used: usize = 0;
    let first: usize = if message.len() > frame_size {
        frame_size
    } else {
        message.len()
    };
    if first > 2 * frame_size - 2 || first > usize::MAX - 14 || sent_len(first, is_client)
        > buffer.len() {
        assert(!pieces_fit(frame_size, message@.len(), is_client));
        let from = slice_subrange(message, 0, first);
        return match parser_write(parser, ty, true, from, buffer, 0) {
            Err(WsWriteError::NotOpen) => FramesEnd::NotOpen,
            _ => FramesEnd::NoRoom,
        };
    }
    proof {
        assert(done + all =~= all);
        assert(output@.skip(output@.len() as int) + buffer@.take(0) =~= Seq::<u8>::empty());
    }
    while at < message.len()
        invariant
            at <= message@.len(),
            used <= buffer@.len(),
            frame_size > 0,
            2 * frame_size <= usize::MAX,
            first <= usize::MAX - 14,
            first == if message@.len() > frame_size {
                frame_size as int
            } else {
                message@.len() as int
            },
            frame_len(first as nat, is_client) <= buffer@.len(),
            buffer@.len() == 2 * frame_size,
            old(buffer)@.len() == 2 * frame_size,
            !(ty is CloseReply),
            code == send_code(ty),
            start == ws_parser_state(*old(parser)),
            is_client == start.is_client,
            !start.continuing,
            ws_parser_state(*parser) == (WsParserState { continuing: 0 < at < message@.len(), ..start }),
            all == cut(message@, 0, code, frame_size),
            at < message@.len() ==> all == done + cut(message@, at as int, code, frame_size),
            at == message@.len() ==> all == done,
            at > 0 || used > 0 ==> can_write(start),
            at == 0 ==> output@ == old(output)@ && buffer@ == old(buffer)@,
            old(output)@.is_prefix_of(output@),
            are_frames(
                done,
                is_client,
                output@.skip(old(output)@.len() as int) + buffer@.take(used as int),
            ),
            at == 0 ==> used == 0,
        decreases message@.len() - at, used,
    {
        let left = message.len() - at;
        let count = if left > frame_size {
            frame_size
        } else {
            left
        };
        if sent_len(count, is_client) > buffer.len() - used {
            let ghost sent = output@;
            output.extend_from_slice(slice_subrange(buffer.as_slice(), 0, used));
            proof {
                let n = old(output)@.len() as int;
                assert(output@.skip(n) + buffer@.take(0) =~= sent.skip(n) + buffer@.take(
                    used as int,
                ));
            }
            used = 0;
        } else {
            let from = slice_subrange(message, at, at + count);
            let end_of_message = count == left;
            let ghost state = ws_parser_state(*parser);
            let ghost room = buffer@;
            match parser_write(parser, ty, end_of_message, from, buffer, used) {
                Ok(size) => {
                    proof {
                        let frame = written_frame(state, ty, end_of_message, from@);
                        lemma_frame_added(
                            output@.skip(old(output)@.len() as int),
                            room,
                            buffer@,
                            used as int,
                            size as int,
                            done,
                            frame,
                            is_client,
                        );
                        lemma_cut(message@, at as int, code, frame_size);
                        lemma_next_frame(
                            done,
                            frame,
                            cut(message@, at + count, code, frame_size),
                        );
                        done = done.push(frame);
                    }
                    at += count;
                    used += size;
                },
                Err(_) => return FramesEnd::NotOpen,
            }
        }
    }
    let ghost packed_before = output@;
    output.extend_from_slice(slice_subrange(buffer.as_slice(), 0, used));
    proof {
        let n = old(output)@.len() as int;
        assert(output@.skip(n) =~= packed_before.skip(n) + buffer@.take(used as int));
        assert(old(output)@ =~= output@.subrange(0, n));
    }
    FramesEnd::Written
}

} // verus!
