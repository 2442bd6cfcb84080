//! What holds of the messages of a WebSocket, whatever they are and however they are cut.
use crate::buffer::{concatenated, BufferView};
use crate::ws_client::{connects, ClientHandshake, WsConnectEvent, WsConnectStepView};
use crate::ws_frame::{
    are_frames, frame_len, is_frame, lemma_frame_len, mask_in, Frame, FrameHead,
};
use crate::ws_parser::{
    can_read, can_write, frame_read, lemma_close_read, lemma_frame_read, message_kind, send_code,
    starts_with_close, starts_with_frame, WsParserState,
};
use crate::ws_stream::{
    cut, gone, message_frames, message_turn, msg_run, pieces_fit, ping_message, plain_turn, MsgEnd,
    MsgRun, MsgState, WsReadStepView, WsView, LOOP_LIMIT,
};
use crate::ws_types::{WsDataType, WsErrorView, WsReceiveType, WsSendType};
use vstd::prelude::*;

verus! {

/// The kind under which a message that was sent arrives.
pub open spec fn arrives_as(ty: WsSendType) -> WsReceiveType {
    match ty {
        WsSendType::Text => WsReceiveType::Text,
        WsSendType::Binary => WsReceiveType::Binary,
        WsSendType::Ping => WsReceiveType::Ping,
        WsSendType::Pong => WsReceiveType::Pong,
        WsSendType::CloseReply => WsReceiveType::CloseMustReply,
    }
}

/// Whether a parser is open and between two messages.
pub open spec fn at_rest(parser: WsParserState) -> bool {
    can_read(parser) && parser.part is None && parser.message is None
}

/// The length of the longest piece of a message.
pub open spec fn longest_piece(count: nat, frame_size: usize) -> nat {
    if count < frame_size {
        count
    } else {
        frame_size as nat
    }
}

/// What one whole frame makes of what a message is read from.
spec fn after_frame(s: MsgState, frame: Frame, mask: Option<Seq<u8>>) -> MsgState {
    let out = frame_read(s.parser, s.buffer, frame, mask);
    MsgState {
        parser: out.state,
        buffer: out.to,
        input: s.input.consumed(frame_len(frame.payload.len(), mask is Some) as int),
        pieces: s.pieces.push(frame.payload),
    }
}

/// Reading one whole frame.
proof fn lemma_one_frame(s: MsgState, frame: Frame, mask: Option<Seq<u8>>, loop_cnt: int)
    requires
        can_read(s.parser),
        s.parser.part is None,
        starts_with_frame(s.parser, s.input.data, s.buffer.len(), frame, mask),
        s.input.data.len() <= usize::MAX,
        0 <= loop_cnt < LOOP_LIMIT,
    ensures
        ({
            let next = after_frame(s, frame, mask);
            let out = frame_read(s.parser, s.buffer, frame, mask);
            msg_run(s, loop_cnt) == if frame.fin {
                MsgRun {
                    end: MsgEnd::Message(out.result->Ok_0.message_type),
                    loop_cnt: loop_cnt + 1,
                    state: next,
                }
            } else {
                msg_run(next, loop_cnt + 1)
            }
        }),
{
    reveal_with_fuel(msg_run, 1);
    lemma_frame_read(s.parser, s.input.data, s.buffer, frame, mask);
    lemma_frame_len(frame, mask);
    let out = frame_read(s.parser, s.buffer, frame, mask);
    assert(out.to.take(frame.payload.len() as int) =~= frame.payload);
}

/// What frames hold.
pub open spec fn payloads(frames: Seq<Frame>) -> Seq<Seq<u8>> {
    Seq::new(frames.len(), |i: int| frames[i].payload)
}

/// Whether frames are some of a message with the code `code`, from its first on or, if it has
/// begun, from a later one on: all but the first are continuations, and each fits.
pub open spec fn in_message(frames: Seq<Frame>, code: u8, begun: bool, room: nat) -> bool {
    forall|i: int|
        0 <= i < frames.len() ==> {
            let frame = #[trigger] frames[i];
            &&& frame.code == if begun || i > 0 {
                0
            } else {
                code
            }
            &&& frame.payload.len() <= room
            &&& frame.payload.len() <= usize::MAX
        }
}

/// Whether frames are a message with the code `code`, or the rest of one that has begun: the last
/// of them, and no other, is marked as such.
pub open spec fn is_message(frames: Seq<Frame>, code: u8, begun: bool, room: nat) -> bool {
    &&& frames.len() > 0
    &&& in_message(frames, code, begun, room)
    &&& forall|i: int|
        0 <= i < frames.len() ==> (#[trigger] frames[i]).fin == (i == frames.len() - 1)
}

/// What follows the first frame of a message.
proof fn lemma_in_message(frames: Seq<Frame>, code: u8, begun: bool, room: nat)
    requires
        frames.len() > 0,
        in_message(frames, code, begun, room),
    ensures
        in_message(frames.skip(1), code, true, room),
{
    assert forall|i: int| 0 <= i < frames.len() - 1 implies {
        let f = #[trigger] frames.skip(1)[i];
        &&& f.code == 0
        &&& f.payload.len() <= room
        &&& f.payload.len() <= usize::MAX
    } by {
        assert(frames.skip(1)[i] == frames[i + 1]);
    }
}

/// Whether the frames of a message with the code `code` can be read, from its first on or, if it
/// has begun, from a later one on. That a message was cut within its last frame is forgotten only
/// after the next; so one may follow that has the same code.
pub open spec fn ready_for(parser: WsParserState, code: u8, begun: bool) -> bool {
    &&& can_read(parser)
    &&& parser.part is None
    &&& parser.message == Some(code) || !begun && parser.message is None
}

/// Reading the first of the frames that stand in the input.
proof fn lemma_first_frame(
    frames: Seq<Frame>,
    code: u8,
    begun: bool,
    is_client: bool,
    bytes: Seq<u8>,
    s: MsgState,
    loop_cnt: int,
) -> (next: MsgState)
    requires
        frames.len() > 0,
        in_message(frames, code, begun, s.buffer.len()),
        message_kind(code) is Some,
        ready_for(s.parser, code, begun),
        are_frames(frames, is_client, bytes),
        bytes.is_prefix_of(s.input.data),
        s.input.data.len() <= usize::MAX,
        0 <= loop_cnt < LOOP_LIMIT,
    ensures
        ({
            let size = frame_len(frames[0].payload.len(), is_client) as int;
            &&& next.parser == (WsParserState {
                message: if frames[0].fin {
                    None
                } else {
                    Some(code)
                },
                ..s.parser
            })
            &&& next.buffer.len() == s.buffer.len()
            &&& next.pieces == s.pieces.push(frames[0].payload)
            &&& next.input == (BufferView { data: s.input.data.skip(size), ..s.input })
            &&& size <= bytes.len()
            &&& are_frames(frames.skip(1), is_client, bytes.skip(size))
            &&& bytes.skip(size).is_prefix_of(next.input.data)
            &&& in_message(frames.skip(1), code, true, s.buffer.len())
            &&& msg_run(s, loop_cnt) == if frames[0].fin {
                MsgRun {
                    end: MsgEnd::Message(message_kind(code)->0),
                    loop_cnt: loop_cnt + 1,
                    state: next,
                }
            } else {
                msg_run(next, loop_cnt + 1)
            }
        }),
{
    let frame = frames[0];
    let size = frame_len(frame.payload.len(), is_client) as int;
    let first = bytes.take(size);
    let mask = mask_in(first, frame.payload.len(), is_client);
    assert(is_frame(frame, is_client, first));
    assert(first =~= s.input.data.subrange(0, size));
    assert(starts_with_frame(s.parser, s.input.data, s.buffer.len(), frame, mask));
    lemma_one_frame(s, frame, mask, loop_cnt);
    lemma_in_message(frames, code, begun, s.buffer.len());
    let next = after_frame(s, frame, mask);
    let left = bytes.skip(size);
    assert(left =~= next.input.data.subrange(0, left.len() as int));
    next
}

/// Reading frames of which none is the last.
pub proof fn lemma_pass_frames(
    frames: Seq<Frame>,
    code: u8,
    begun: bool,
    is_client: bool,
    bytes: Seq<u8>,
    s: MsgState,
    loop_cnt: int,
) -> (next: MsgState)
    requires
        in_message(frames, code, begun, s.buffer.len()),
        forall|i: int| 0 <= i < frames.len() ==> !(#[trigger] frames[i]).fin,
        message_kind(code) is Some,
        ready_for(s.parser, code, begun),
        are_frames(frames, is_client, bytes),
        bytes.is_prefix_of(s.input.data),
        s.input.data.len() <= usize::MAX,
        0 <= loop_cnt,
        loop_cnt + frames.len() <= LOOP_LIMIT,
    ensures
        msg_run(s, loop_cnt) == msg_run(next, loop_cnt + frames.len()),
        ready_for(next.parser, code, begun || frames.len() > 0),
        next.parser.is_client == s.parser.is_client,
        next.buffer.len() == s.buffer.len(),
        next.input == (BufferView { data: s.input.data.skip(bytes.len() as int), ..s.input }),
        next.pieces == s.pieces + payloads(frames),
    decreases frames.len(),
{
    if frames.len() == 0 {
        assert(s.input.data.skip(0) =~= s.input.data);
        assert(s.pieces + payloads(frames) =~= s.pieces);
        s
    } else {
        let first = lemma_first_frame(frames, code, begun, is_client, bytes, s, loop_cnt);
        let size = frame_len(frames[0].payload.len(), is_client) as int;
        let rest = frames.skip(1);
        let left = bytes.skip(size);
        assert forall|i: int| 0 <= i < rest.len() implies !(#[trigger] rest[i]).fin by {
            assert(rest[i] == frames[i + 1]);
        }
        let next = lemma_pass_frames(rest, code, true, is_client, left, first, loop_cnt + 1);
        assert(first.pieces + payloads(rest) =~= s.pieces + payloads(frames));
        assert(first.input.data.skip(left.len() as int) =~= s.input.data.skip(bytes.len() as int));
        next
    }
}

/// Reading the frames of a message.
pub proof fn lemma_read_frames(
    frames: Seq<Frame>,
    code: u8,
    begun: bool,
    is_client: bool,
    bytes: Seq<u8>,
    s: MsgState,
    loop_cnt: int,
)
    requires
        is_message(frames, code, begun, s.buffer.len()),
        message_kind(code) is Some,
        ready_for(s.parser, code, begun),
        are_frames(frames, is_client, bytes),
        bytes.is_prefix_of(s.input.data),
        s.input.data.len() <= usize::MAX,
        0 <= loop_cnt,
        loop_cnt + frames.len() <= LOOP_LIMIT,
    ensures
        ({
            let run = msg_run(s, loop_cnt);
            &&& run.end == MsgEnd::Message(message_kind(code)->0)
            &&& run.state.parser == (WsParserState { message: None, ..s.parser })
            &&& run.state.input.data == s.input.data.skip(bytes.len() as int)
            &&& run.state.pieces == s.pieces + payloads(frames)
        }),
    decreases frames.len(),
{
    let next = lemma_first_frame(frames, code, begun, is_client, bytes, s, loop_cnt);
    let size = frame_len(frames[0].payload.len(), is_client) as int;
    let rest = frames.skip(1);
    let left = bytes.skip(size);
    assert(next.input.data.skip(left.len() as int) =~= s.input.data.skip(bytes.len() as int));
    if frames.len() > 1 {
        assert forall|i: int| 0 <= i < rest.len() implies (#[trigger] rest[i]).fin == (i
            == rest.len() - 1) by {
            assert(rest[i] == frames[i + 1]);
        }
        lemma_read_frames(rest, code, true, is_client, left, next, loop_cnt + 1);
        assert(next.pieces + payloads(rest) =~= s.pieces + payloads(frames));
    } else {
        assert(left.len() == 0);
        assert(next.pieces =~= s.pieces + payloads(frames));
    }
}

pub proof fn lemma_concatenated_add(a: Seq<Seq<u8>>, b: Seq<Seq<u8>>)
    ensures
        concatenated(a + b) == concatenated(a) + concatenated(b),
    decreases b.len(),
{
    if b.len() == 0 {
        assert(a + b =~= a);
        assert(concatenated(a) + concatenated(b) =~= concatenated(a));
    } else {
        lemma_concatenated_add(a, b.drop_last());
        assert((a + b).drop_last() =~= a + b.drop_last());
        assert(concatenated(a + b) =~= concatenated(a) + concatenated(b));
    }
}

/// The frames that a message is cut into are a message, and hold what the message holds.
pub proof fn lemma_cut_message(message: Seq<u8>, at: int, code: u8, frame_size: usize)
    requires
        0 <= at < message.len() <= usize::MAX,
        frame_size > 0,
    ensures
        ({
            let frames = cut(message, at, code, frame_size);
            &&& is_message(frames, code, at > 0, longest_piece(message.len(), frame_size))
            &&& concatenated(payloads(frames)) == message.skip(at)
        }),
    decreases message.len() - at,
{
    reveal_with_fuel(cut, 1);
    let frames = cut(message, at, code, frame_size);
    let n: int = if message.len() - at > frame_size {
        frame_size as int
    } else {
        message.len() - at
    };
    let piece = message.subrange(at, at + n);
    let none = Seq::<Seq<u8>>::empty();
    assert(seq![piece].drop_last() =~= none);
    assert(concatenated(seq![piece]) =~= piece) by {
        assert(concatenated(none) =~= Seq::<u8>::empty());
    }
    if at + n == message.len() {
        assert(payloads(frames) =~= seq![piece]);
        assert(piece =~= message.skip(at));
    } else {
        let rest = cut(message, at + n, code, frame_size);
        lemma_cut_message(message, at + n, code, frame_size);
        assert(payloads(frames) =~= seq![piece] + payloads(rest));
        lemma_concatenated_add(seq![piece], payloads(rest));
        assert(piece + message.skip(at + n) =~= message.skip(at));
        assert forall|i: int| 1 <= i < frames.len() implies #[trigger] frames[i] == rest[i - 1] by {
        }
    }
}

/// Reading the frames that a message was cut into.
proof fn lemma_read_message(
    message: Seq<u8>,
    ty: WsSendType,
    frame_size: usize,
    is_client: bool,
    bytes: Seq<u8>,
    s: MsgState,
    loop_cnt: int,
)
    requires
        0 < message.len() <= usize::MAX,
        frame_size > 0,
        !(ty is CloseReply),
        are_frames(message_frames(message, ty, frame_size), is_client, bytes),
        at_rest(s.parser),
        bytes.is_prefix_of(s.input.data),
        s.input.data.len() <= usize::MAX,
        s.buffer.len() >= longest_piece(message.len(), frame_size),
        0 <= loop_cnt,
        loop_cnt + message_frames(message, ty, frame_size).len() <= LOOP_LIMIT,
    ensures
        ({
            let frames = message_frames(message, ty, frame_size);
            let run = msg_run(s, loop_cnt);
            &&& run.end == MsgEnd::Message(arrives_as(ty))
            &&& run.state.parser == s.parser
            &&& run.state.input.data == s.input.data.skip(bytes.len() as int)
            &&& frames.len() > 0
            &&& run.state.pieces == s.pieces + payloads(frames)
            &&& concatenated(run.state.pieces) == concatenated(s.pieces) + message
        }),
{
    let frames = message_frames(message, ty, frame_size);
    let code = send_code(ty);
    lemma_cut_message(message, 0, code, frame_size);
    assert(is_message(frames, code, false, s.buffer.len()));
    lemma_read_frames(frames, code, false, is_client, bytes, s, loop_cnt);
    lemma_concatenated_add(s.pieces, payloads(frames));
    assert(message.skip(0) =~= message);
}

/// A message that is written is read back: the frames that it was cut into, under whatever masks,
/// are put together to the message again, as one of the same kind, and what stands behind them is
/// left. It holds for as many frames as a reader accepts for one message.
pub proof fn law_message_read_back(
    message: Seq<u8>,
    ty: WsSendType,
    frame_size: usize,
    is_client: bool,
    bytes: Seq<u8>,
    s: MsgState,
    loop_cnt: int,
)
    requires
        0 < message.len() <= usize::MAX,
        frame_size > 0,
        !(ty is CloseReply),
        are_frames(message_frames(message, ty, frame_size), is_client, bytes),
        at_rest(s.parser),
        bytes.is_prefix_of(s.input.data),
        s.input.data.len() <= usize::MAX,
        s.buffer.len() >= longest_piece(message.len(), frame_size),
        0 <= loop_cnt,
        loop_cnt + message_frames(message, ty, frame_size).len() <= LOOP_LIMIT,
    ensures
        ({
            let run = msg_run(s, loop_cnt);
            &&& run.end == MsgEnd::Message(arrives_as(ty))
            &&& run.state.parser == s.parser
            &&& run.state.input.data == s.input.data.skip(bytes.len() as int)
            &&& concatenated(run.state.pieces) == concatenated(s.pieces) + message
        }),
{
    lemma_read_message(message, ty, frame_size, is_client, bytes, s, loop_cnt);
}

/// A message of data that is written reaches the reader of the other side whole, unless its last
/// piece is what sides probe each other with.
pub proof fn law_message_delivered<S>(
    message: Seq<u8>,
    ty: WsDataType,
    frame_size: usize,
    is_client: bool,
    bytes: Seq<u8>,
    w: WsView<S>,
    now: u64,
    fuel: nat,
)
    requires
        0 < message.len() <= usize::MAX,
        frame_size > 0,
        are_frames(
            message_frames(message, sent_as(ty), frame_size),
            is_client,
            bytes,
        ),
        message_frames(message, sent_as(ty), frame_size).last().payload
            != ping_message(),
        w.connected is Some,
        at_rest(w.parser()),
        w.pieces.len() == 0,
        bytes.is_prefix_of(w.input.data),
        w.input.data.len() <= usize::MAX,
        w.buffer.len() >= longest_piece(message.len(), frame_size),
        w.loop_cnt + message_frames(message, sent_as(ty), frame_size).len()
            <= LOOP_LIMIT,
    ensures
        ({
            let turn = message_turn(w, true, now, fuel);
            &&& turn.step == WsReadStepView::Done(ty)
            &&& turn.data == message
            &&& turn.frames.len() == 0
            &&& turn.stream.input.data == w.input.data.skip(bytes.len() as int)
            &&& turn.stream.connected == w.connected
            &&& turn.stream.last_msg_time == now
            &&& turn.stream.pieces.len() == 0
            &&& turn.stream.loop_cnt == 0
            &&& turn.stream.output == w.output
        }),
{
    let s = MsgState { parser: w.parser(), buffer: w.buffer, input: w.input, pieces: w.pieces };
    lemma_read_message(
        message,
        sent_as(ty),
        frame_size,
        is_client,
        bytes,
        s,
        w.loop_cnt as int,
    );
    assert(concatenated(w.pieces) + message =~= message);
}

/// The kind under which a message of data is sent.
pub open spec fn sent_as(ty: WsDataType) -> WsSendType {
    match ty {
        WsDataType::Binary => WsSendType::Binary,
        WsDataType::Text => WsSendType::Text,
    }
}

/// A probe in one frame is answered with what it holds, where that fits into the room for frames.
pub proof fn law_probe_answered<S>(
    message: Seq<u8>,
    frame_size: usize,
    is_client: bool,
    bytes: Seq<u8>,
    w: WsView<S>,
    now: u64,
    fuel: nat,
)
    requires
        0 < message.len() <= frame_size,
        are_frames(
            message_frames(message, WsSendType::Ping, frame_size),
            is_client,
            bytes,
        ),
        w.connected is Some,
        at_rest(w.parser()),
        can_write(w.parser()),
        pieces_fit(w.frame_size, message.len(), w.parser().is_client),
        bytes.is_prefix_of(w.input.data),
        w.input.data.len() <= usize::MAX,
        w.buffer.len() >= message.len(),
        w.loop_cnt < LOOP_LIMIT,
    ensures
        ({
            let turn = message_turn(w, true, now, fuel);
            &&& turn.step is Send
            &&& turn.frames == message_frames(message, WsSendType::Pong, w.frame_size)
            &&& turn.stream.pieces == w.pieces
            &&& turn.stream.input.data == w.input.data.skip(bytes.len() as int)
        }),
{
    reveal_with_fuel(cut, 1);
    let s = MsgState { parser: w.parser(), buffer: w.buffer, input: w.input, pieces: w.pieces };
    let frames = message_frames(message, WsSendType::Ping, frame_size);
    assert(message.subrange(0, message.len() as int) =~= message);
    assert(frames.len() == 1 && frames[0].payload == message);
    lemma_read_message(
        message,
        WsSendType::Ping,
        frame_size,
        is_client,
        bytes,
        s,
        w.loop_cnt as int,
    );
    let run = msg_run(s, w.loop_cnt as int);
    assert(run.state.pieces.drop_last() =~= w.pieces);
}

/// A client that fails to get a connection, without being shut down, says so with the error that a
/// connection could not be set up, and starts over the next time; or it would have to wait, and
/// goes on where it was. It has no connection either way.
pub proof fn law_failed_connection_starts_over<S>(
    w: WsView<S>,
    h: ClientHandshake<S>,
    event: WsConnectEvent<S>,
    e: WsErrorView,
    after: WsView<S>,
    then: ClientHandshake<S>,
)
    requires
        connects(w, h, true, event, WsConnectStepView::Failed(e), after, then),
        event is NotOpened ==> h is NotStarted,
        w.connected is None,
    ensures
        after == w,
        match e {
            WsErrorView::InitError(_) => then is NotStarted,
            WsErrorView::WouldBlock => {
                ||| h is WaitSend && then is WaitSend
                ||| h is Send && then is Send
            },
            _ => false,
        },
{
}

/// Where the other side closes the connection, in whatever words, the stream is dropped and the
/// reader is told that the connection is gone for now. Nothing reaches the data, and a frame that
/// has not come as a whole is enough.
pub proof fn law_close_drops_stream<S>(
    w: WsView<S>,
    head: FrameHead,
    now: u64,
    fuel: nat,
)
    requires
        w.connected is Some,
        can_read(w.parser()),
        w.parser().part is None,
        starts_with_close(w.parser(), w.input.data, head),
        w.loop_cnt < LOOP_LIMIT,
    ensures
        ({
            let turn = message_turn(w, true, now, fuel);
            &&& turn == plain_turn(WsReadStepView::Failed(gone(true)), turn.stream)
            &&& turn.stream.connected is None
            &&& turn.stream.pieces == w.pieces
            &&& turn.stream.output == w.output
        }),
{
    reveal_with_fuel(msg_run, 1);
    lemma_close_read(w.parser(), w.input.data, w.buffer, head);
}

/// The stream once an answer to a probe in one frame was taken off its input.
pub open spec fn passed_over<S>(
    w: WsView<S>,
    frame: Frame,
    mask: Option<Seq<u8>>,
    now: u64,
) -> WsView<S> {
    let count = frame.payload.len();
    WsView {
        buffer: frame.payload + w.buffer.skip(count as int),
        input: w.input.consumed(frame_len(count, mask is Some) as int),
        last_msg_time: now,
        loop_cnt: 0,
        ..w
    }
}

/// The answer to a probe is passed over: nothing of it reaches the data or is answered, and reading
/// goes on with what is behind it.
pub proof fn law_pong_is_passed_over<S>(
    w: WsView<S>,
    frame: Frame,
    mask: Option<Seq<u8>>,
    now: u64,
    fuel: nat,
)
    requires
        w.connected is Some,
        at_rest(w.parser()),
        frame.fin,
        frame.code == 10,
        starts_with_frame(w.parser(), w.input.data, w.buffer.len(), frame, mask),
        w.input.data.len() <= usize::MAX,
        w.loop_cnt < LOOP_LIMIT,
        fuel > 0,
    ensures
        message_turn(w, true, now, fuel) == message_turn(
            passed_over(w, frame, mask, now),
            true,
            now,
            (fuel - 1) as nat,
        ),
{
    let s = MsgState { parser: w.parser(), buffer: w.buffer, input: w.input, pieces: w.pieces };
    lemma_one_frame(s, frame, mask, w.loop_cnt as int);
    let run = msg_run(s, w.loop_cnt as int);
    assert(run.state.pieces.drop_last() =~= w.pieces);
    assert(run.state.parser == w.parser());
}

/// A message of data that is what this side probes with counts as the answer to a probe, and is
/// passed over like one.
pub proof fn law_echoed_probe_is_passed_over<S>(
    w: WsView<S>,
    frame: Frame,
    mask: Option<Seq<u8>>,
    now: u64,
    fuel: nat,
)
    requires
        w.connected is Some,
        at_rest(w.parser()),
        frame.fin,
        frame.code == 1 || frame.code == 2,
        frame.payload == ping_message(),
        starts_with_frame(w.parser(), w.input.data, w.buffer.len(), frame, mask),
        w.input.data.len() <= usize::MAX,
        w.loop_cnt < LOOP_LIMIT,
        fuel > 0,
    ensures
        message_turn(w, true, now, fuel) == message_turn(
            passed_over(w, frame, mask, now),
            true,
            now,
            (fuel - 1) as nat,
        ),
{
    let s = MsgState { parser: w.parser(), buffer: w.buffer, input: w.input, pieces: w.pieces };
    lemma_one_frame(s, frame, mask, w.loop_cnt as int);
    let run = msg_run(s, w.loop_cnt as int);
    assert(run.state.pieces.drop_last() =~= w.pieces);
    assert(run.state.parser == w.parser());
}

/// A probe that holds nothing needs no answer: it is passed over.
pub proof fn law_empty_probe_is_passed_over<S>(
    w: WsView<S>,
    frame: Frame,
    mask: Option<Seq<u8>>,
    now: u64,
    fuel: nat,
)
    requires
        w.connected is Some,
        at_rest(w.parser()),
        frame.fin,
        frame.code == 9,
        frame.payload.len() == 0,
        starts_with_frame(w.parser(), w.input.data, w.buffer.len(), frame, mask),
        w.input.data.len() <= usize::MAX,
        w.loop_cnt < LOOP_LIMIT,
        fuel > 0,
    ensures
        message_turn(w, true, now, fuel) == message_turn(
            passed_over(w, frame, mask, now),
            true,
            now,
            (fuel - 1) as nat,
        ),
{
    let s = MsgState { parser: w.parser(), buffer: w.buffer, input: w.input, pieces: w.pieces };
    lemma_one_frame(s, frame, mask, w.loop_cnt as int);
    let run = msg_run(s, w.loop_cnt as int);
    assert(run.state.pieces.drop_last() =~= w.pieces);
    assert(run.state.parser == w.parser());
}

} // verus!
