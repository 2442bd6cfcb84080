//! What comes of reading and writing messages over a WebSocket stream, one event after the other.
use crate::buffer::{concatenated, BufferView};
use crate::stream::{IOError, StreamRead};
use crate::ws_accept::{server_reads, server_writes};
use crate::ws_client::{client_read, client_writes, ClientHandshake};
use crate::ws_frame::are_frames;
use crate::ws_laws::{at_rest, law_message_delivered, longest_piece, sent_as};
use crate::ws_parser::{can_write, read_out, send_code, WsReadError, WsReadResult};
use crate::ws_stream::{
    cut, fresh, message_frames, message_sent, msg_run, ping_message, read_turn, turned, ReadTurn,
    WsReadEvent, WsReadStepView, WsStreamConfig, WsView, WsWriteStepView,
};
use crate::ws_types::{WsDataType, WsErrorView, WsSendType};
use vstd::prelude::*;
use vstd::std_specs::convert::FromSpec;

verus! {

/// Whether a turn does nothing but to say what is to be done next: nothing is sent, no message is
/// given, and the stream is `stream`.
pub open spec fn only<S>(turn: ReadTurn<S>, step: WsReadStepView, stream: WsView<S>) -> bool {
    &&& turn.step == step
    &&& turn.stream == stream
    &&& turn.frames.len() == 0
    &&& turn.data.len() == 0
}

/// Whether two streams have a connection over the same stream.
pub open spec fn same_stream<S>(a: WsView<S>, b: WsView<S>) -> bool {
    match (a.connected, b.connected) {
        (Some((one, _)), Some((other, _))) => one == other,
        _ => false,
    }
}

/// A client without a connection gets one by itself where it is set to, or is about to get one: who
/// wants a message, or wants to send one, is told to go on with that first, and nothing is changed.
/// Only where it is not set to, and no handshake is under way, is the connection gone for good.
pub proof fn law_client_reconnects<S>(
    w: WsView<S>,
    h: ClientHandshake<S>,
    alive: bool,
    now: u64,
    ty: WsSendType,
    message: Seq<u8>,
    step: WsWriteStepView,
    after: WsView<S>,
)
    requires
        w.connected is None,
        client_writes(w, h, alive, now, ty, message, step, after),
    ensures
        ({
            let connects = w.auto_reconnect || !(h is NotStarted);
            let lost = WsErrorView::ServerDisconnected { temporary: false };
            let turn = client_read(w, h, alive, now, WsReadEvent::Start);
            &&& connects ==> only(turn, WsReadStepView::Connect, w)
            &&& !connects ==> only(turn, WsReadStepView::Failed(lost), w)
            &&& connects ==> step is Connect
            &&& !connects ==> step == WsWriteStepView::Failed(lost)
            &&& after == w
        }),
{
}

/// A client with a connection reads and writes over it, as any stream does.
pub proof fn law_connected_client_uses_connection<S>(
    w: WsView<S>,
    h: ClientHandshake<S>,
    alive: bool,
    now: u64,
    event: WsReadEvent,
    ty: WsSendType,
    message: Seq<u8>,
    step: WsWriteStepView,
    after: WsView<S>,
)
    requires
        w.connected is Some,
        client_writes(w, h, alive, now, ty, message, step, after),
    ensures
        client_read(w, h, alive, now, event) == read_turn(w, alive, now, event),
        message_sent(w, alive, now, ty, message, step, after),
{
}

/// A stream of a server without a connection gets one first, unless it was shut down; one with a
/// connection reads and writes over it, as any stream does.
pub proof fn law_server_stream_connects_first<S>(
    w: WsView<S>,
    alive: bool,
    now: u64,
    event: WsReadEvent,
    ty: WsSendType,
    message: Seq<u8>,
    step: WsWriteStepView,
    after: WsView<S>,
)
    requires
        server_writes(w, alive, now, ty, message, step, after),
    ensures
        w.connected is None ==> {
            let lost = WsErrorView::ServerDisconnected { temporary: false };
            let turn = server_reads(w, alive, now, WsReadEvent::Start);
            &&& alive ==> only(turn, WsReadStepView::Connect, w) && step is Connect
            &&& !alive ==> only(turn, WsReadStepView::Failed(lost), w) && step
                == WsWriteStepView::Failed(lost)
            &&& after == w
        },
        w.connected is Some ==> {
            &&& server_reads(w, alive, now, event) == read_turn(w, alive, now, event)
            &&& message_sent(w, alive, now, ty, message, step, after)
        },
{
}

/// A message that is sent over a connection is written behind all that is to be sent, in frames of
/// its kind that are under masks where a client sends them, and nothing else of the stream is
/// changed but the time of the last message. An empty message is not written at all.
pub proof fn law_message_is_queued<S>(
    w: WsView<S>,
    now: u64,
    ty: WsSendType,
    message: Seq<u8>,
    step: WsWriteStepView,
    after: WsView<S>,
)
    requires
        w.connected is Some,
        !(ty is CloseReply),
        message_sent(w, true, now, ty, message, step, after),
        step is Send,
    ensures
        w.output.is_prefix_of(after.output),
        message.len() == 0 ==> after.output == w.output,
        message.len() > 0 ==> can_write(w.parser()) && are_frames(
            message_frames(message, ty, w.frame_size),
            w.parser().is_client,
            after.output.skip(w.output.len() as int),
        ),
        after.last_msg_time == now,
        after.connected is Some,
        same_stream(w, after),
        after.endpoint == w.endpoint,
        after.frame_size == w.frame_size,
        after.keep_alive == w.keep_alive,
        after.auto_reconnect == w.auto_reconnect,
        after.epoch == w.epoch,
        after.input == w.input,
        after.pieces == w.pieces,
        after.buffer.len() == w.buffer.len(),
{
    assert(w.output =~= w.output.subrange(0, w.output.len() as int));
}

/// Sending a message fails only where there is no connection, or it is being closed, or where no
/// piece of the message fits into the room for frames; a stream that was shut down drops its
/// connection.
pub proof fn law_message_is_sent_or_refused<S>(
    w: WsView<S>,
    alive: bool,
    now: u64,
    ty: WsSendType,
    message: Seq<u8>,
    step: WsWriteStepView,
    after: WsView<S>,
)
    requires
        message_sent(w, alive, now, ty, message, step, after),
    ensures
        !alive ==> {
            &&& step == WsWriteStepView::Failed(
                WsErrorView::ServerDisconnected { temporary: false },
            )
            &&& after == (WsView { connected: None, ..w })
        },
        alive && w.connected is None ==> {
            &&& step == WsWriteStepView::Failed(
                WsErrorView::ServerDisconnected { temporary: w.auto_reconnect },
            )
            &&& after == w
        },
        alive && w.connected is Some && message.len() > 0 && !can_write(w.parser()) ==> {
            &&& step == WsWriteStepView::Failed(WsErrorView::ServerDisconnected { temporary: true })
            &&& after == (WsView { connected: None, ..w })
        },
        alive && w.connected is Some && (message.len() == 0 || can_write(w.parser())) ==> step
            is Send || step is NoRoom && after == w,
        alive && w.connected is Some && message.len() == 0 ==> step is Send,
        alive && w.connected is Some && can_write(w.parser()) && w.frame_size >= 14 ==> step
            is Send,
{
}

/// What one side writes, the other side reads: a message of a kind that is sent over a stream with
/// a connection arrives at the reader as a message of that kind with these bytes, once all that was
/// written has come in and nothing came before it.
pub proof fn law_sent_message_arrives<S, T>(
    from: WsView<S>,
    sent_at: u64,
    ty: WsDataType,
    message: Seq<u8>,
    step: WsWriteStepView,
    after: WsView<S>,
    to: WsView<T>,
    data: Vec<u8>,
    rest: Seq<u8>,
    now: u64,
)
    requires
        0 < message.len() <= usize::MAX,
        from.connected is Some,
        from.frame_size > 0,
        message_sent(from, true, sent_at, WsSendType::from_spec(ty), message, step, after),
        step is Send,
        message_frames(message, sent_as(ty), from.frame_size).last().payload != ping_message(),
        to.connected is Some,
        at_rest(to.parser()),
        to.pieces.len() == 0,
        to.input.data.len() == 0,
        data@ == after.output.skip(from.output.len() as int) + rest,
        data@.len() <= usize::MAX,
        to.buffer.len() >= longest_piece(message.len(), from.frame_size),
        to.loop_cnt + message_frames(message, sent_as(ty), from.frame_size).len() <= 11000,
    ensures
        ({
            let turn = read_turn(to, true, now, WsReadEvent::Read(StreamRead::Data(data)));
            &&& turn.step == WsReadStepView::Done(ty)
            &&& turn.data == message
            &&& turn.frames.len() == 0
            &&& turn.stream.input.data == rest
            &&& turn.stream.connected == to.connected
            &&& turn.stream.last_msg_time == now
            &&& turn.stream.pieces.len() == 0
            &&& turn.stream.loop_cnt == 0
            &&& turn.stream.output == to.output
        }),
{
    let bytes = after.output.skip(from.output.len() as int);
    let fed = WsView { input: to.input.appended(data@), ..to };
    assert(fed.input.data =~= data@);
    assert(bytes =~= data@.subrange(0, bytes.len() as int));
    law_message_delivered(
        message,
        ty,
        from.frame_size,
        from.parser().is_client,
        bytes,
        fed,
        now,
        fed.input.data.len(),
    );
    assert(data@.skip(bytes.len() as int) =~= rest);
}

/// A message that is already there is given when a message is wanted, and when an answer to a probe
/// was written out: nothing has to be read for it.
pub proof fn law_message_that_is_there_is_given<S>(
    w: WsView<S>,
    frame_size: usize,
    is_client: bool,
    ty: WsDataType,
    message: Seq<u8>,
    bytes: Seq<u8>,
    event: WsReadEvent,
    now: u64,
)
    requires
        match event {
            WsReadEvent::Start => true,
            WsReadEvent::Sent(outcome) => outcome is Ok,
            _ => false,
        },
        0 < message.len() <= usize::MAX,
        frame_size > 0,
        are_frames(message_frames(message, sent_as(ty), frame_size), is_client, bytes),
        message_frames(message, sent_as(ty), frame_size).last().payload != ping_message(),
        w.connected is Some,
        at_rest(w.parser()),
        w.pieces.len() == 0,
        bytes.is_prefix_of(w.input.data),
        w.input.data.len() <= usize::MAX,
        w.buffer.len() >= longest_piece(message.len(), frame_size),
        message_frames(message, sent_as(ty), frame_size).len() <= 11000,
        event is Start || w.loop_cnt == 0,
    ensures
        ({
            let turn = read_turn(w, true, now, event);
            &&& turn.step == WsReadStepView::Done(ty)
            &&& turn.data == message
            &&& turn.stream.input.data == w.input.data.skip(bytes.len() as int)
            &&& turn.stream.connected == w.connected
        }),
{
    let start = if event is Start {
        WsView { loop_cnt: 0, ..w }
    } else {
        w
    };
    law_message_delivered(
        message,
        ty,
        frame_size,
        is_client,
        bytes,
        start,
        now,
        w.input.data.len(),
    );
}

/// Behind an answer to a probe the stream is read as if a message was wanted anew.
pub proof fn law_reading_goes_on_behind_answer<S>(w: WsView<S>, alive: bool, now: u64)
    requires
        w.loop_cnt == 0,
    ensures
        read_turn(w, alive, now, WsReadEvent::Sent(Ok(()))) == read_turn(
            w,
            alive,
            now,
            WsReadEvent::Start,
        ),
{
}

/// A stream on which nothing is there yet is read off: as many bytes as there is room for are asked
/// for, and nothing else happens.
pub proof fn law_more_is_asked_for<S>(w: WsView<S>, now: u64)
    requires
        w.connected is Some,
        at_rest(w.parser()),
        w.input.data.len() == 0,
        w.input.cap > 0,
    ensures
        ({
            let turn = read_turn(w, true, now, WsReadEvent::Start);
            &&& turn.step == WsReadStepView::NeedRead(w.input.cap as int)
            &&& turn.data.len() == 0
            &&& turn.frames.len() == 0
            &&& same_stream(w, turn.stream)
            &&& turn.stream.input.data.len() == 0
            &&& turn.stream.pieces == w.pieces
            &&& turn.stream.output == w.output
            &&& turn.stream.last_msg_time == w.last_msg_time
        }),
{
    reveal_with_fuel(msg_run, 1);
}

/// Where what has come in is only a part of a frame, and there is no room for more, the stream is
/// kept as it is: what is to be sent is written out, and whoever reads has to wait.
pub proof fn law_full_reader_waits<S>(w: WsView<S>, now: u64)
    requires
        w.connected is Some,
        w.keep_alive is None,
        w.loop_cnt == 0,
        w.input.data.len() == w.input.cap,
        read_out(w.parser(), w.input.data, w.buffer).result == Err::<WsReadResult, WsReadError>(
            WsReadError::FrameIncomplete,
        ),
    ensures
        ({
            let turn = read_turn(w, true, now, WsReadEvent::Start);
            &&& turn.step is Flush
            &&& turn.data.len() == 0
            &&& turn.frames.len() == 0
            &&& same_stream(w, turn.stream)
            &&& turn.stream.input == w.input
            &&& turn.stream.pieces == w.pieces
            &&& turn.stream.output == w.output
            &&& turn.stream.last_msg_time == w.last_msg_time
            &&& turn.stream.loop_cnt == 0
        }),
{
    reveal_with_fuel(msg_run, 1);
}

/// A stream that has ended or failed drops its connection, and says that it is gone for now; so
/// does one over which an answer to a probe, or a probe, could not be written out.
pub proof fn law_ended_stream_is_dropped<S>(
    w: WsView<S>,
    alive: bool,
    now: u64,
    event: WsReadEvent,
)
    requires
        match event {
            WsReadEvent::Read(read) => read is Eof || read is Failed,
            WsReadEvent::Sent(outcome) => outcome is Err,
            WsReadEvent::PingSent(outcome) => outcome is Err,
            _ => false,
        },
    ensures
        ({
            let turn = read_turn(w, alive, now, event);
            &&& only(
                turn,
                WsReadStepView::Failed(WsErrorView::ServerDisconnected { temporary: true }),
                turn.stream,
            )
            &&& turn.stream == (WsView { connected: None, loop_cnt: turn.stream.loop_cnt, ..w })
        }),
{
}

/// Where nothing has come, the other side is probed if the stream is set to, no message is half
/// read and nothing has come for longer than it is set to; and else what is left is written out.
/// Then the reader is told that it would have to wait.
pub proof fn law_silence_is_probed<S>(w: WsView<S>, now: u64)
    requires
        w.connected is Some,
        can_write(w.parser()),
        w.frame_size >= 36,
    ensures
        ({
            let turn = read_turn(w, true, now, WsReadEvent::Read(StreamRead::WouldBlock));
            let due = (w.keep_alive matches Some(time) && now - w.last_msg_time > time)
                && concatenated(w.pieces).len() == 0;
            &&& due ==> {
                &&& turn.step is SendPing
                &&& turn.frames == message_frames(ping_message(), WsSendType::Ping, w.frame_size)
                &&& turn.data.len() == 0
                &&& turn.stream.last_msg_time == now
                &&& turn.stream.connected is Some
                &&& turn.stream.input == w.input
                &&& turn.stream.pieces == w.pieces
            }
            &&& !due ==> only(turn, WsReadStepView::Flush, WsView { loop_cnt: 0, ..w })
        }),
        ping_message() == vstd::utf8::encode_utf8("1234567890abcdefghijklmnopqrstuvwxyz"@),
        only(
            read_turn(w, true, now, WsReadEvent::PingSent(Ok(()))),
            WsReadStepView::Flush,
            w,
        ),
        only(
            read_turn(w, true, now, WsReadEvent::Flushed(Ok(()))),
            WsReadStepView::Failed(WsErrorView::WouldBlock),
            w,
        ),
        only(
            read_turn(w, true, now, WsReadEvent::Flushed(Err(IOError::WouldBlock))),
            WsReadStepView::Failed(WsErrorView::WouldBlock),
            w,
        ),
{
    lemma_probe_fits(w.frame_size, w.parser().is_client);
}

/// What a side probes with is not empty, and fits into frames of its length.
proof fn lemma_probe_fits(frame_size: usize, is_client: bool)
    requires
        frame_size >= 36,
    ensures
        0 < ping_message().len() <= 36,
        crate::ws_stream::pieces_fit(frame_size, ping_message().len(), is_client),
{
    let text = "1234567890abcdefghijklmnopqrstuvwxyz"@;
    reveal_strlit("1234567890abcdefghijklmnopqrstuvwxyz");
    assert(vstd::utf8::is_ascii_chars(text));
    vstd::utf8::is_ascii_chars_encode_utf8(text);
}

/// A stream that was shut down gives no message: its connection is dropped, and is gone for good.
pub proof fn law_shut_down_stream_is_gone<S>(w: WsView<S>, now: u64)
    ensures
        only(
            read_turn(w, false, now, WsReadEvent::Start),
            WsReadStepView::Failed(WsErrorView::ServerDisconnected { temporary: false }),
            WsView { connected: None, loop_cnt: 0, ..w },
        ),
{
}

/// A stream that was just made is set as the configuration says, has no connection, and has nothing
/// to read or to send. Frames take 4096 bytes of a message where nothing else is said.
pub proof fn law_new_stream<S>(cfg: WsStreamConfig, buffer: Seq<u8>, now: u64)
    ensures
        ({
            let w = fresh::<S>(cfg, buffer, now);
            &&& w.endpoint == cfg.endpoint@
            &&& w.keep_alive == cfg.keep_alive
            &&& w.auto_reconnect == cfg.auto_reconnect
            &&& cfg.frame_size > 0 ==> w.frame_size == cfg.frame_size
            &&& cfg.frame_size == 0 ==> w.frame_size == 4096
            &&& w.connected is None
            &&& w.pieces.len() == 0
            &&& w.output.len() == 0
            &&& w.input == (BufferView { data: Seq::empty(), cap: 2 * w.frame_size as nat })
            &&& w.last_msg_time == now
            &&& w.epoch == 1
            &&& w.loop_cnt == 0
        }),
{
}

/// Where what is left cannot be written out because the other side is gone, the reader is told
/// whether it is worth trying again; after another error it is not.
pub proof fn law_failed_flush_is_told<S>(
    w: WsView<S>,
    alive: bool,
    now: u64,
    temporary: bool,
    text: String,
)
    ensures
        only(
            read_turn(w, alive, now, WsReadEvent::Flushed(Err(IOError::EOF { temporary }))),
            WsReadStepView::Failed(WsErrorView::ServerDisconnected { temporary }),
            w,
        ),
        only(
            read_turn(w, alive, now, WsReadEvent::Flushed(Err(IOError::Other(text)))),
            WsReadStepView::Failed(WsErrorView::ServerDisconnected { temporary: false }),
            w,
        ),
{
}

/// A message that has taken too many frames is given up: the connection is dropped, and gone for
/// good.
pub proof fn law_endless_message_is_given_up<S>(w: WsView<S>, alive: bool, now: u64, data: Vec<u8>)
    requires
        w.loop_cnt >= 11000,
    ensures
        ({
            let turn = read_turn(w, alive, now, WsReadEvent::Read(StreamRead::Data(data)));
            &&& turn.step == WsReadStepView::Failed(
                WsErrorView::ServerDisconnected { temporary: false },
            )
            &&& turn.stream.connected is None
            &&& turn.data.len() == 0
            &&& turn.frames.len() == 0
        }),
{
}

/// How a message is cut, from a byte on.
proof fn lemma_pieces(message: Seq<u8>, at: int, code: u8, size: usize, i: int)
    requires
        0 <= at < message.len(),
        size > 0,
        0 <= i < cut(message, at, code, size).len(),
    ensures
        ({
            let frames = cut(message, at, code, size);
            let from = at + i * size;
            &&& from < message.len()
            &&& i == frames.len() - 1 <==> from + size >= message.len()
            &&& frames[i].fin <==> i == frames.len() - 1
            &&& frames[i].code == if at == 0 && i == 0 {
                code
            } else {
                0
            }
            &&& frames[i].payload == message.subrange(
                from,
                if from + size < message.len() {
                    from + size
                } else {
                    message.len() as int
                },
            )
        }),
    decreases message.len() - at,
{
    reveal_with_fuel(cut, 1);
    let frames = cut(message, at, code, size);
    assert(0 * size == 0) by (nonlinear_arith);
    if message.len() - at > size {
        let rest = cut(message, at + size, code, size);
        assert(frames.len() == rest.len() + 1);
        lemma_some_piece(message, at + size, code, size);
        if i > 0 {
            lemma_pieces(message, at + size, code, size, i - 1);
            assert(frames[i] == rest[i - 1]);
            assert((i - 1) * size + size == i * size) by (nonlinear_arith);
        }
    }
}

proof fn lemma_some_piece(message: Seq<u8>, at: int, code: u8, size: usize)
    requires
        0 <= at < message.len(),
        size > 0,
    ensures
        cut(message, at, code, size).len() > 0,
{
    reveal_with_fuel(cut, 1);
}

/// A message is cut into pieces of the size that the stream is set to, but for the last, which
/// takes what is left; there is no piece more. The first has the code of its kind and the others
/// none, and the last, and no other, is marked as such.
pub proof fn law_message_is_cut(message: Seq<u8>, ty: WsDataType, size: usize, i: int)
    requires
        message.len() > 0,
        size > 0,
        0 <= i < message_frames(message, sent_as(ty), size).len(),
    ensures
        ({
            let frames = message_frames(message, sent_as(ty), size);
            let from = i * size;
            &&& from < message.len()
            &&& i == frames.len() - 1 <==> from + size >= message.len()
            &&& frames[i].fin <==> i == frames.len() - 1
            &&& frames[i].code == if i > 0 {
                0u8
            } else if ty is Text {
                1u8
            } else {
                2u8
            }
            &&& frames[i].payload == message.subrange(
                from,
                if from + size < message.len() {
                    from + size
                } else {
                    message.len() as int
                },
            )
        }),
{
    lemma_pieces(message, 0, send_code(sent_as(ty)), size, i);
}

/// What a turn says is done: where an answer to a probe, or a probe, is to be written out, its
/// frames stand behind all that is to be sent; and else the stream is what the turn says.
pub proof fn law_turn_is_done<S>(before: WsView<S>, after: WsView<S>, turn: ReadTurn<S>)
    requires
        turned(before, after, turn),
    ensures
        turn.step is Send || turn.step is SendPing ==> {
            &&& before.connected is Some
            &&& before.output.is_prefix_of(after.output)
            &&& are_frames(
                turn.frames,
                before.parser().is_client,
                after.output.skip(before.output.len() as int),
            )
            &&& after == (WsView { output: after.output, buffer: after.buffer, ..turn.stream })
            &&& after.buffer.len() == turn.stream.buffer.len()
        },
        !(turn.step is Send || turn.step is SendPing) ==> after == turn.stream,
{
}

} // verus!
