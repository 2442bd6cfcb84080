//! What holds of the messages of a WebSocket that come in several reads.
use crate::buffer::concatenated;
use crate::stream::StreamRead;
use crate::ws_frame::{
    are_frames, frame_bytes, frame_len, head_bytes, head_of, head_size, is_frame,
    lemma_frame_len, lemma_frame_parts, lemma_unmask, mask_in, unmasked, Frame,
};
use crate::ws_laws::{
    in_message, is_message, lemma_cut_message, lemma_pass_frames, lemma_read_frames,
    longest_piece, payloads, ready_for, sent_as,
};
use crate::ws_parser::{
    can_read, first_part_read, lemma_head_begun, lemma_more_read, lemma_part_read, message_kind,
    next_part_read, payload_there, send_code, starts_with_part, PartialFrame, WsParserState,
};
use crate::ws_stream::{
    cut, message_frames, msg_run, ping_message, plain_turn, probe_due, read_turn, MsgEnd, MsgRun,
    MsgState, ReadTurn, WsReadEvent, WsReadStepView, WsView, LOOP_LIMIT,
};
use crate::ws_types::{WsDataType, WsErrorView};
use vstd::prelude::*;

verus! {

/// How many bytes come before the `k`th of some frames.
pub open spec fn start_of(frames: Seq<Frame>, is_client: bool, k: int) -> nat
    decreases k,
{
    if k <= 0 {
        0
    } else {
        start_of(frames, is_client, k - 1) + frame_len(frames[k - 1].payload.len(), is_client)
    }
}

/// Whether the first `at` bytes of some frames end before or within the `k`th.
pub open spec fn ends_in(frames: Seq<Frame>, is_client: bool, k: int, at: int) -> bool {
    &&& 0 <= k < frames.len()
    &&& start_of(frames, is_client, k) <= at < start_of(frames, is_client, k + 1)
}

/// How many bytes of the payload of the `k`th frame are among the first `at` bytes; negative where
/// its head is not whole.
pub open spec fn payload_at(frames: Seq<Frame>, is_client: bool, k: int, at: int) -> int {
    at - start_of(frames, is_client, k) - head_size(frames[k].payload.len(), is_client)
}

/// Whether the frames of a message may be cut behind their first `at` bytes, within the `k`th:
/// before the frame, within its head, or, if it is the last, within its payload, and there, if that
/// is under a mask, where the mask starts again.
pub open spec fn may_be_cut_in(frames: Seq<Frame>, is_client: bool, k: int, at: int) -> bool {
    let n = payload_at(frames, is_client, k, at);
    &&& ends_in(frames, is_client, k, at)
    &&& n >= 0 ==> k == frames.len() - 1 && (is_client ==> n % 4 == 0)
}

/// The mask that the `k`th frame is under.
pub open spec fn mask_of(
    frames: Seq<Frame>,
    is_client: bool,
    bytes: Seq<u8>,
    k: int,
) -> Option<Seq<u8>> {
    mask_in(
        bytes.subrange(
            start_of(frames, is_client, k) as int,
            start_of(frames, is_client, k + 1) as int,
        ),
        frames[k].payload.len(),
        is_client,
    )
}

/// Whether there is room for the heads of frames, and for as much of a payload as comes at once.
pub open spec fn has_room(s: MsgState, frames: Seq<Frame>, is_client: bool) -> bool {
    forall|i: int|
        0 <= i < frames.len() ==> {
            let count = (#[trigger] frames[i]).payload.len();
            &&& head_size(count, is_client) <= s.input.cap
            &&& count <= s.buffer.len() || i == frames.len() - 1 && s.input.cap <= s.buffer.len()
        }
}

/// What a message is read from.
pub open spec fn msg_state<S>(w: WsView<S>) -> MsgState {
    MsgState { parser: w.parser(), buffer: w.buffer, input: w.input, pieces: w.pieces }
}

/// Whether the first `at` bytes of the frames of a message, which end in the `k`th, were read, and
/// nothing of them is lost.
pub open spec fn holding(
    s: MsgState,
    frames: Seq<Frame>,
    code: u8,
    is_client: bool,
    bytes: Seq<u8>,
    k: int,
    at: int,
) -> bool {
    let n = payload_at(frames, is_client, k, at);
    &&& may_be_cut_in(frames, is_client, k, at)
    &&& has_room(s, frames, is_client)
    &&& if n < 0 {
        &&& ready_for(s.parser, code, k > 0)
        &&& s.pieces == payloads(frames.take(k))
        &&& s.input.data == bytes.subrange(start_of(frames, is_client, k) as int, at)
    } else {
        &&& can_read(s.parser)
        &&& s.parser.message == Some(code)
        &&& s.parser.part == Some(
            PartialFrame {
                code: frames[k].code,
                left: (frames[k].payload.len() - n) as nat,
                fin: true,
                mask: mask_of(frames, is_client, bytes, k),
            },
        )
        &&& concatenated(s.pieces) == concatenated(payloads(frames.take(k)))
            + frames[k].payload.take(n)
        &&& s.input.data.len() == 0
    }
}

proof fn lemma_starts_grow(frames: Seq<Frame>, is_client: bool, k: int, j: int)
    ensures
        0 <= k <= j ==> start_of(frames, is_client, k) <= start_of(frames, is_client, j),
    decreases j,
{
    if 0 <= k < j {
        lemma_starts_grow(frames, is_client, k, j - 1);
    }
}

/// What stands behind the first `k` frames.
proof fn lemma_frames_behind(frames: Seq<Frame>, is_client: bool, bytes: Seq<u8>, k: int)
    requires
        are_frames(frames, is_client, bytes),
        0 <= k <= frames.len(),
    ensures
        start_of(frames, is_client, k) <= bytes.len(),
        are_frames(
            frames.skip(k),
            is_client,
            bytes.skip(start_of(frames, is_client, k) as int),
        ),
        k == frames.len() ==> start_of(frames, is_client, k) == bytes.len(),
    decreases k,
{
    if k == 0 {
        assert(frames.skip(0) =~= frames);
        assert(bytes.skip(0) =~= bytes);
    } else {
        lemma_frames_behind(frames, is_client, bytes, k - 1);
        let at = start_of(frames, is_client, k - 1) as int;
        let n = frame_len(frames[k - 1].payload.len(), is_client) as int;
        assert(frames.skip(k - 1)[0] == frames[k - 1]);
        assert(frames.skip(k - 1).skip(1) =~= frames.skip(k));
        assert(bytes.skip(at).skip(n) =~= bytes.skip(at + n));
    }
    if k == frames.len() {
        let left = bytes.skip(start_of(frames, is_client, k) as int);
        assert(are_frames(frames.skip(k), is_client, left));
        assert(left.len() == 0);
    }
}

/// The frames from the `k`th on, up to the `j`th.
proof fn lemma_frames_between(frames: Seq<Frame>, is_client: bool, bytes: Seq<u8>, k: int, j: int)
    requires
        are_frames(frames, is_client, bytes),
        0 <= k <= j <= frames.len(),
    ensures
        start_of(frames, is_client, k) <= start_of(frames, is_client, j) <= bytes.len(),
        are_frames(
            frames.subrange(k, j),
            is_client,
            bytes.subrange(
                start_of(frames, is_client, k) as int,
                start_of(frames, is_client, j) as int,
            ),
        ),
    decreases j - k,
{
    let a = start_of(frames, is_client, k) as int;
    let b = start_of(frames, is_client, j) as int;
    lemma_frames_behind(frames, is_client, bytes, j);
    lemma_frames_behind(frames, is_client, bytes, k);
    if k == j {
        assert(frames.subrange(k, j).len() == 0);
    } else {
        let n = frame_len(frames[k].payload.len(), is_client) as int;
        lemma_frames_between(frames, is_client, bytes, k + 1, j);
        let some = frames.subrange(k, j);
        let part = bytes.subrange(a, b);
        assert(frames.skip(k)[0] == frames[k]);
        assert(part.take(n) =~= bytes.skip(a).take(n));
        assert(part.skip(n) =~= bytes.subrange(a + n, b));
        assert(some[0] == frames[k]);
        assert(some.skip(1) =~= frames.subrange(k + 1, j));
    }
}

/// The `k`th frame, and its head and its payload under its mask.
proof fn lemma_frame_at(frames: Seq<Frame>, is_client: bool, bytes: Seq<u8>, k: int)
    requires
        are_frames(frames, is_client, bytes),
        0 <= k < frames.len(),
        frames[k].code < 16,
        frames[k].payload.len() <= usize::MAX,
    ensures
        ({
            let a = start_of(frames, is_client, k) as int;
            let b = start_of(frames, is_client, k + 1) as int;
            let frame = frames[k];
            let mask = mask_of(frames, is_client, bytes, k);
            let size = head_size(frame.payload.len(), is_client) as int;
            &&& 0 <= a <= b <= bytes.len()
            &&& b == a + size + frame.payload.len()
            &&& mask is Some <==> is_client
            &&& mask matches Some(m) ==> m.len() == 4
            &&& head_bytes(head_of(frame, mask)) == bytes.subrange(a, a + size)
            &&& unmasked(frame.payload, mask) == bytes.subrange(a + size, b)
        }),
{
    let a = start_of(frames, is_client, k) as int;
    let b = start_of(frames, is_client, k + 1) as int;
    let frame = frames[k];
    let mask = mask_of(frames, is_client, bytes, k);
    let size = head_size(frame.payload.len(), is_client) as int;
    lemma_frames_behind(frames, is_client, bytes, k);
    assert(frames.skip(k)[0] == frame);
    let own = bytes.subrange(a, b);
    assert(own =~= bytes.skip(a).take(b - a));
    assert(is_frame(frame, is_client, own));
    lemma_frame_parts(frame, mask);
    lemma_frame_len(frame, mask);
    assert(own == frame_bytes(frame, mask));
    assert(head_bytes(head_of(frame, mask)) =~= own.subrange(0, size));
    assert(own.subrange(0, size) =~= bytes.subrange(a, a + size));
    assert(unmasked(frame.payload, mask) =~= own.subrange(size, b - a));
    assert(own.subrange(size, b - a) =~= bytes.subrange(a + size, b));
}

/// A part of a payload, from where the mask starts again.
proof fn lemma_part_unmasked(
    payload: Seq<u8>,
    mask: Option<Seq<u8>>,
    n: int,
    m: int,
)
    requires
        0 <= n <= m <= payload.len(),
        mask is Some ==> n % 4 == 0,
    ensures
        unmasked(unmasked(payload, mask).subrange(n, m), mask) == payload.subrange(n, m),
{
    let part = unmasked(payload, mask).subrange(n, m);
    lemma_unmask(payload.subrange(n, m), mask);
    assert(part =~= unmasked(payload.subrange(n, m), mask)) by {
        if let Some(key) = mask {
            assert forall|i: int| 0 <= i < m - n implies part[i] == unmasked(
                payload.subrange(n, m),
                mask,
            )[i] by {
                assert((n + i) % 4 == i % 4);
            }
        }
    }
}

/// What is left of a message, from the `k`th frame on, up to the `j`th.
proof fn lemma_some_of_message(
    frames: Seq<Frame>,
    code: u8,
    most: nat,
    room: nat,
    k: int,
    j: int,
)
    requires
        is_message(frames, code, false, most),
        0 <= k <= j <= frames.len(),
        forall|i: int| k <= i < j ==> (#[trigger] frames[i]).payload.len() <= room,
    ensures
        in_message(frames.subrange(k, j), code, k > 0, room),
        forall|i: int| 0 <= i < j - k ==> (#[trigger] frames.subrange(k, j)[i]).fin == (i + k
            == frames.len() - 1),
        payloads(frames.take(k)) + payloads(frames.subrange(k, j)) == payloads(frames.take(j)),
{
    let some = frames.subrange(k, j);
    assert forall|i: int| 0 <= i < some.len() implies {
        let f = #[trigger] some[i];
        &&& f.code == if k > 0 || i > 0 {
            0
        } else {
            code
        }
        &&& f.payload.len() <= room
        &&& f.payload.len() <= usize::MAX
        &&& f.fin == (i + k == frames.len() - 1)
    } by {
        assert(some[i] == frames[i + k]);
    }
    assert(payloads(frames.take(k)) + payloads(some) =~= payloads(frames.take(j)));
}

/// Within a frame of data, without a byte to read, more is needed.
proof fn lemma_nothing_there(s: MsgState, part: PartialFrame, loop_cnt: int)
    requires
        can_read(s.parser),
        s.parser.part == Some(part),
        part.left > 0,
        part.code == 1 || part.code == 2 || part.code == 0 && (s.parser.message == Some(1u8)
            || s.parser.message == Some(2u8)),
        s.input.data.len() == 0,
        s.input.cap > 0,
        0 <= loop_cnt < LOOP_LIMIT,
    ensures
        msg_run(s, loop_cnt) == (MsgRun {
            end: MsgEnd::NeedRead,
            loop_cnt: loop_cnt + 1,
            state: s,
        }),
{
    reveal_with_fuel(msg_run, 1);
    let out = next_part_read(s.parser, s.input.data, s.buffer, part);
    lemma_more_read(s.parser, s.input.data, s.buffer, part);
    assert(out.to =~= s.buffer);
    assert(out.state.part == Some(part));
}

/// Within a frame of data, what is there is kept, and more is needed.
proof fn lemma_more_there(s: MsgState, part: PartialFrame, loop_cnt: int) -> (run: MsgRun)
    requires
        can_read(s.parser),
        s.parser.part == Some(part),
        part.code == 1 || part.code == 2 || part.code == 0 && (s.parser.message == Some(1u8)
            || s.parser.message == Some(2u8)),
        s.input.data.len() < part.left,
        s.input.data.len() <= s.buffer.len(),
        s.input.data.len() <= usize::MAX,
        s.input.cap > 0,
        0 <= loop_cnt,
        loop_cnt + 1 < LOOP_LIMIT,
    ensures
        run == msg_run(s, loop_cnt),
        run.end is NeedRead,
        loop_cnt < run.loop_cnt <= loop_cnt + 2,
        run.state.parser == (WsParserState {
            part: Some(PartialFrame { left: (part.left - s.input.data.len()) as nat, ..part }),
            ..s.parser
        }),
        run.state.buffer.len() == s.buffer.len(),
        run.state.input.data.len() == 0,
        run.state.input.cap == s.input.cap,
        concatenated(run.state.pieces) == concatenated(s.pieces) + unmasked(
            s.input.data,
            part.mask,
        ),
{
    reveal_with_fuel(msg_run, 1);
    let data = s.input.data;
    let n = data.len() as int;
    let run = msg_run(s, loop_cnt);
    if n == 0 {
        lemma_nothing_there(s, part, loop_cnt);
        assert(unmasked(data, part.mask) =~= Seq::<u8>::empty());
        assert(concatenated(s.pieces) + Seq::<u8>::empty() =~= concatenated(s.pieces));
    } else {
        let out = next_part_read(s.parser, data, s.buffer, part);
        lemma_more_read(s.parser, data, s.buffer, part);
        let piece = unmasked(data, part.mask);
        assert(data.take(n) =~= data);
        assert(out.to.take(n) =~= piece);
        let rest = PartialFrame { left: (part.left - n) as nat, ..part };
        let next = MsgState {
            parser: out.state,
            buffer: out.to,
            input: s.input.consumed(n),
            pieces: s.pieces.push(piece),
        };
        assert(run == msg_run(next, loop_cnt + 1));
        lemma_nothing_there(next, rest, loop_cnt + 1);
        lemma_piece_added(s.pieces, piece);
    }
    run
}

proof fn lemma_piece_added(pieces: Seq<Seq<u8>>, piece: Seq<u8>)
    ensures
        concatenated(pieces.push(piece)) == concatenated(pieces) + piece,
{
    assert(pieces.push(piece).drop_last() =~= pieces);
}

/// A head with some of the payload of a frame of data behind it: that is kept, and more is needed.
proof fn lemma_first_there(
    s: MsgState,
    frame: Frame,
    code: u8,
    mask: Option<Seq<u8>>,
    n: int,
    loop_cnt: int,
) -> (run: MsgRun)
    requires
        ready_for(s.parser, code, frame.code == 0),
        code == 1 || code == 2,
        frame.code == 0 || frame.code == code,
        frame.fin,
        frame.payload.len() <= usize::MAX,
        mask matches Some(m) ==> m.len() == 4,
        0 <= n < frame.payload.len(),
        n <= s.buffer.len(),
        s.input.data == head_bytes(head_of(frame, mask)) + unmasked(frame.payload, mask).take(n),
        s.input.data.len() <= usize::MAX,
        s.input.cap > 0,
        0 <= loop_cnt,
        loop_cnt + 1 < LOOP_LIMIT,
    ensures
        run == msg_run(s, loop_cnt),
        run.end is NeedRead,
        run.loop_cnt == loop_cnt + 2,
        run.state.parser == (WsParserState {
            message: Some(code),
            part: Some(
                PartialFrame {
                    code: frame.code,
                    left: (frame.payload.len() - n) as nat,
                    fin: true,
                    mask,
                },
            ),
            ..s.parser
        }),
        run.state.buffer.len() == s.buffer.len(),
        run.state.input.data.len() == 0,
        run.state.input.cap == s.input.cap,
        concatenated(run.state.pieces) == concatenated(s.pieces) + frame.payload.take(n),
{
    reveal_with_fuel(msg_run, 1);
    let head = head_of(frame, mask);
    let bare = head_bytes(head);
    let at = bare.len() as int;
    let data = s.input.data;
    let run = msg_run(s, loop_cnt);
    lemma_frame_parts(frame, mask);
    assert(bare =~= data.subrange(0, at));
    assert(payload_there(head, data, s.buffer.len()) == n);
    assert(starts_with_part(s.parser, data, s.buffer.len(), head));
    lemma_part_read(s.parser, data, s.buffer, head);
    let out = first_part_read(s.parser, data, s.buffer, head);
    let piece = frame.payload.take(n);
    assert(data.subrange(at, at + n) =~= unmasked(frame.payload, mask).subrange(0, n));
    lemma_part_unmasked(frame.payload, mask, 0, n);
    assert(piece =~= frame.payload.subrange(0, n));
    assert(out.to.take(n) =~= piece);
    let next = MsgState {
        parser: out.state,
        buffer: out.to,
        input: s.input.consumed(at + n),
        pieces: s.pieces.push(piece),
    };
    assert(run == msg_run(next, loop_cnt + 1));
    lemma_nothing_there(next, out.state.part->0, loop_cnt + 1);
    lemma_piece_added(s.pieces, piece);
    run
}

/// The code of the `k`th frame of a message.
proof fn lemma_code_at(frames: Seq<Frame>, code: u8, most: nat, k: int)
    requires
        is_message(frames, code, false, most),
        0 <= k < frames.len(),
    ensures
        frames[k].code == if k > 0 {
            0
        } else {
            code
        },
        frames[k].payload.len() <= usize::MAX,
        frames[k].fin == (k == frames.len() - 1),
{
}

/// What is read from, with more bytes in the input.
spec fn with_more(s: MsgState, data: Seq<u8>) -> MsgState {
    MsgState { input: s.input.appended(data), ..s }
}

/// Whether reading more of a message, up to the first `at` bytes of its frames, keeps what there is
/// and needs more.
spec fn keeps(
    run: MsgRun,
    s: MsgState,
    frames: Seq<Frame>,
    code: u8,
    is_client: bool,
    bytes: Seq<u8>,
    j: int,
    at: int,
    most_loops: int,
) -> bool {
    &&& run.end is NeedRead
    &&& 0 < run.loop_cnt <= most_loops
    &&& holding(run.state, frames, code, is_client, bytes, j, at)
    &&& run.state.input.cap == s.input.cap
    &&& run.state.input.data.len() < s.input.cap
    &&& run.state.buffer.len() == s.buffer.len()
    &&& run.state.parser.is_client == s.parser.is_client
}

/// More of a payload is kept.
proof fn lemma_payload_kept(
    frames: Seq<Frame>,
    code: u8,
    most: nat,
    is_client: bool,
    bytes: Seq<u8>,
    s: MsgState,
    k: int,
    at: int,
    data: Seq<u8>,
    loop_cnt: int,
)
    requires
        is_message(frames, code, false, most),
        code == 1 || code == 2,
        are_frames(frames, is_client, bytes),
        holding(s, frames, code, is_client, bytes, k, at),
        payload_at(frames, is_client, k, at) >= 0,
        may_be_cut_in(frames, is_client, k, at + data.len()),
        data == bytes.subrange(at, at + data.len()),
        data.len() <= s.input.room(),
        s.input.cap <= usize::MAX,
        0 <= loop_cnt,
        loop_cnt + 1 < LOOP_LIMIT,
    ensures
        keeps(
            msg_run(with_more(s, data), loop_cnt),
            s,
            frames,
            code,
            is_client,
            bytes,
            k,
            at + data.len(),
            loop_cnt + 2,
        ),
{
    let fed = with_more(s, data);
    let n = payload_at(frames, is_client, k, at);
    let m = n + data.len();
    let a = start_of(frames, is_client, k) as int;
    let mask = mask_of(frames, is_client, bytes, k);
    let payload = frames[k].payload;
    let size = head_size(payload.len(), is_client) as int;
    lemma_code_at(frames, code, most, k);
    lemma_frame_at(frames, is_client, bytes, k);
    assert(fed.input.data =~= data);
    lemma_more_there(fed, s.parser.part->0, loop_cnt);
    assert(data =~= unmasked(payload, mask).subrange(n, m)) by {
        assert(unmasked(payload, mask) == bytes.subrange(a + size, a + size + payload.len()));
    }
    lemma_part_unmasked(payload, mask, n, m);
    assert(payload.take(n) + payload.subrange(n, m) =~= payload.take(m));
    let before = concatenated(payloads(frames.take(k)));
    assert(before + payload.take(n) + payload.subrange(n, m) =~= before + payload.take(m));
}

/// A part of a head at the front of the input is kept.
proof fn lemma_head_kept(
    frames: Seq<Frame>,
    code: u8,
    most: nat,
    is_client: bool,
    bytes: Seq<u8>,
    s: MsgState,
    j: int,
    to: int,
    loop_cnt: int,
)
    requires
        is_message(frames, code, false, most),
        code == 1 || code == 2,
        are_frames(frames, is_client, bytes),
        may_be_cut_in(frames, is_client, j, to),
        payload_at(frames, is_client, j, to) < 0,
        has_room(s, frames, is_client),
        ready_for(s.parser, code, j > 0),
        s.pieces == payloads(frames.take(j)),
        s.input.data == bytes.subrange(start_of(frames, is_client, j) as int, to),
        s.input.data.len() <= s.input.cap <= usize::MAX,
        0 <= loop_cnt,
        loop_cnt + 1 < LOOP_LIMIT,
    ensures
        keeps(
            msg_run(s, loop_cnt),
            s,
            frames,
            code,
            is_client,
            bytes,
            j,
            to,
            loop_cnt + 2,
        ),
{
    reveal_with_fuel(msg_run, 1);
    let b = start_of(frames, is_client, j) as int;
    let mask = mask_of(frames, is_client, bytes, j);
    lemma_code_at(frames, code, most, j);
    lemma_frame_at(frames, is_client, bytes, j);
    let tail = s.input.data;
    let head = head_of(frames[j], mask);
    let bare = head_bytes(head);
    assert(tail =~= bare.subrange(0, to - b));
    lemma_frame_parts(frames[j], mask);
    lemma_head_begun(s.parser, tail, s.buffer, head);
    assert(msg_run(s, loop_cnt) == (MsgRun {
        end: MsgEnd::NeedRead,
        loop_cnt: loop_cnt + 1,
        state: s,
    }));
}

/// A head with a part of the payload, at the front of the input, is kept.
#[verifier::rlimit(30)]
proof fn lemma_first_kept(
    frames: Seq<Frame>,
    code: u8,
    most: nat,
    is_client: bool,
    bytes: Seq<u8>,
    s: MsgState,
    j: int,
    to: int,
    loop_cnt: int,
)
    requires
        is_message(frames, code, false, most),
        code == 1 || code == 2,
        are_frames(frames, is_client, bytes),
        may_be_cut_in(frames, is_client, j, to),
        payload_at(frames, is_client, j, to) >= 0,
        has_room(s, frames, is_client),
        ready_for(s.parser, code, j > 0),
        s.pieces == payloads(frames.take(j)),
        s.input.data == bytes.subrange(start_of(frames, is_client, j) as int, to),
        s.input.data.len() <= s.input.cap <= usize::MAX,
        0 <= loop_cnt,
        loop_cnt + 1 < LOOP_LIMIT,
    ensures
        keeps(
            msg_run(s, loop_cnt),
            s,
            frames,
            code,
            is_client,
            bytes,
            j,
            to,
            loop_cnt + 2,
        ),
{
    let b = start_of(frames, is_client, j) as int;
    let m = payload_at(frames, is_client, j, to);
    let mask = mask_of(frames, is_client, bytes, j);
    let payload = frames[j].payload;
    let size = head_size(payload.len(), is_client) as int;
    lemma_code_at(frames, code, most, j);
    lemma_frame_at(frames, is_client, bytes, j);
    let bare = head_bytes(head_of(frames[j], mask));
    assert(s.input.data =~= bare + unmasked(payload, mask).take(m)) by {
        assert(unmasked(payload, mask) == bytes.subrange(b + size, b + size + payload.len()));
    }
    assert(m <= s.buffer.len());
    lemma_first_there(s, frames[j], code, mask, m, loop_cnt);
}

/// Whole frames are kept, and what is behind them.
#[verifier::rlimit(30)]
proof fn lemma_frames_kept(
    frames: Seq<Frame>,
    code: u8,
    most: nat,
    is_client: bool,
    bytes: Seq<u8>,
    s: MsgState,
    k: int,
    at: int,
    j: int,
    data: Seq<u8>,
    loop_cnt: int,
)
    requires
        is_message(frames, code, false, most),
        code == 1 || code == 2,
        are_frames(frames, is_client, bytes),
        holding(s, frames, code, is_client, bytes, k, at),
        payload_at(frames, is_client, k, at) < 0,
        k <= j,
        may_be_cut_in(frames, is_client, j, at + data.len()),
        data == bytes.subrange(at, at + data.len()),
        data.len() <= s.input.room(),
        s.input.cap <= usize::MAX,
        0 <= loop_cnt,
        loop_cnt + (j - k) + 1 < LOOP_LIMIT,
    ensures
        keeps(
            msg_run(with_more(s, data), loop_cnt),
            s,
            frames,
            code,
            is_client,
            bytes,
            j,
            at + data.len(),
            loop_cnt + (j - k) + 2,
        ),
{
    let fed = with_more(s, data);
    let to = at + data.len();
    let a = start_of(frames, is_client, k) as int;
    let b = start_of(frames, is_client, j) as int;
    lemma_frames_behind(frames, is_client, bytes, j + 1);
    lemma_some_of_message(frames, code, most, s.buffer.len(), k, j);
    lemma_frames_between(frames, is_client, bytes, k, j);
    let some = frames.subrange(k, j);
    let whole = bytes.subrange(a, b);
    assert(fed.input.data =~= bytes.subrange(a, to));
    assert(whole =~= fed.input.data.subrange(0, b - a));
    let next = lemma_pass_frames(some, code, k > 0, is_client, whole, fed, loop_cnt);
    assert(next.input.data =~= bytes.subrange(b, to));
    assert(next.pieces == payloads(frames.take(j)));
    let loops = loop_cnt + (j - k);
    if payload_at(frames, is_client, j, to) < 0 {
        lemma_head_kept(frames, code, most, is_client, bytes, next, j, to, loops);
    } else {
        lemma_first_kept(frames, code, most, is_client, bytes, next, j, to, loops);
    }
}

/// Whether a run gives a message of data, and leaves `rest`.
spec fn completes(
    run: MsgRun,
    frames: Seq<Frame>,
    code: u8,
    last: Seq<u8>,
    rest: Seq<u8>,
) -> bool {
    &&& run.end == MsgEnd::Message(message_kind(code)->0)
    &&& run.state.pieces.len() > 0
    &&& run.state.pieces.last() == last
    &&& concatenated(run.state.pieces) == concatenated(payloads(frames))
    &&& run.state.input.data == rest
    &&& ready_for(run.state.parser, code, false)
}

/// What is left of a payload completes the message.
#[verifier::rlimit(30)]
proof fn lemma_payload_completes(
    frames: Seq<Frame>,
    code: u8,
    most: nat,
    is_client: bool,
    bytes: Seq<u8>,
    s: MsgState,
    k: int,
    at: int,
    data: Seq<u8>,
    rest: Seq<u8>,
    loop_cnt: int,
)
    requires
        is_message(frames, code, false, most),
        code == 1 || code == 2,
        are_frames(frames, is_client, bytes),
        holding(s, frames, code, is_client, bytes, k, at),
        payload_at(frames, is_client, k, at) >= 0,
        data == bytes.skip(at) + rest,
        data.len() <= s.input.room(),
        s.input.cap <= usize::MAX,
        0 <= loop_cnt < LOOP_LIMIT,
    ensures
        completes(
            msg_run(with_more(s, data), loop_cnt),
            frames,
            code,
            last_part(frames, is_client, k, at),
            rest,
        ),
{
    reveal_with_fuel(msg_run, 1);
    let fed = with_more(s, data);
    let n = payload_at(frames, is_client, k, at);
    let a = start_of(frames, is_client, k) as int;
    let mask = mask_of(frames, is_client, bytes, k);
    let payload = frames[k].payload;
    let count = payload.len() as int;
    let size = head_size(payload.len(), is_client) as int;
    let left = count - n;
    let run = msg_run(fed, loop_cnt);
    lemma_code_at(frames, code, most, k);
    lemma_frame_at(frames, is_client, bytes, k);
    lemma_frames_behind(frames, is_client, bytes, frames.len() as int);
    assert(fed.input.data =~= data);
    assert(bytes.skip(at).len() == left);
    let out = next_part_read(s.parser, data, s.buffer, s.parser.part->0);
    lemma_more_read(s.parser, data, s.buffer, s.parser.part->0);
    assert(data.take(left) =~= unmasked(payload, mask).subrange(n, count)) by {
        assert(unmasked(payload, mask) == bytes.subrange(a + size, a + size + count));
    }
    lemma_part_unmasked(payload, mask, n, count);
    let piece = payload.subrange(n, count);
    assert(out.to.take(left) =~= piece);
    assert(run.state.pieces == s.pieces.push(piece));
    assert(run.state.input.data =~= rest);
    lemma_piece_added(s.pieces, piece);
    assert(payload.skip(n) =~= piece);
    assert(payload.take(n) + piece =~= payload);
    lemma_last_piece(frames);
    let before = concatenated(payloads(frames.take(k)));
    assert(before + payload.take(n) + piece =~= before + payload);
}

/// What is left of the frames completes the message.
proof fn lemma_frames_complete(
    frames: Seq<Frame>,
    code: u8,
    most: nat,
    is_client: bool,
    bytes: Seq<u8>,
    s: MsgState,
    k: int,
    at: int,
    data: Seq<u8>,
    rest: Seq<u8>,
    loop_cnt: int,
)
    requires
        is_message(frames, code, false, most),
        code == 1 || code == 2,
        are_frames(frames, is_client, bytes),
        holding(s, frames, code, is_client, bytes, k, at),
        payload_at(frames, is_client, k, at) < 0,
        data == bytes.skip(at) + rest,
        data.len() <= s.input.room(),
        s.input.cap <= usize::MAX,
        0 <= loop_cnt,
        loop_cnt + (frames.len() - k) <= LOOP_LIMIT,
    ensures
        completes(
            msg_run(with_more(s, data), loop_cnt),
            frames,
            code,
            last_part(frames, is_client, k, at),
            rest,
        ),
{
    let fed = with_more(s, data);
    let all = frames.len() as int;
    let a = start_of(frames, is_client, k) as int;
    let run = msg_run(fed, loop_cnt);
    lemma_frames_between(frames, is_client, bytes, k, all);
    lemma_frames_behind(frames, is_client, bytes, all);
    let some = frames.subrange(k, all);
    let whole = bytes.subrange(a, bytes.len() as int);
    assert(fed.input.data =~= whole + rest);
    assert(whole =~= fed.input.data.subrange(0, whole.len() as int));
    assert forall|i: int| k <= i < all implies (#[trigger] frames[i]).payload.len()
        <= s.buffer.len() by {
        if i == all - 1 {
            lemma_code_at(frames, code, most, i);
            lemma_frame_at(frames, is_client, bytes, i);
            lemma_starts_grow(frames, is_client, k, i);
        }
    }
    lemma_some_of_message(frames, code, most, s.buffer.len(), k, all);
    lemma_read_frames(some, code, k > 0, is_client, whole, fed, loop_cnt);
    assert(fed.input.data.skip(whole.len() as int) =~= rest);
    assert(frames.take(all) =~= frames);
    assert(run.state.pieces == payloads(frames));
    assert(run.state.pieces.last() == frames.last().payload);
}

/// The turn where more is needed.
proof fn lemma_turn_waits<S>(w: WsView<S>, data: Vec<u8>, now: u64)
    requires
        w.connected is Some,
        w.loop_cnt < LOOP_LIMIT,
        msg_run(with_more(msg_state(w), data@), w.loop_cnt as int).end is NeedRead,
    ensures
        ({
            let turn = read_turn(w, true, now, WsReadEvent::Read(StreamRead::Data(data)));
            let run = msg_run(with_more(msg_state(w), data@), w.loop_cnt as int);
            &&& turn == plain_turn(
                WsReadStepView::NeedRead(turn.stream.input.room()),
                turn.stream,
            )
            &&& turn.stream.connected is Some
            &&& msg_state(turn.stream) == run.state
            &&& turn.stream.loop_cnt == run.loop_cnt as usize
        }),
{
}

/// The turn where a message of data is there.
proof fn lemma_turn_gives<S>(w: WsView<S>, data: Vec<u8>, now: u64, ty: WsDataType)
    requires
        w.connected is Some,
        w.loop_cnt < LOOP_LIMIT,
        ({
            let run = msg_run(with_more(msg_state(w), data@), w.loop_cnt as int);
            &&& run.end == MsgEnd::Message(message_kind(send_code(sent_as(ty)))->0)
            &&& run.state.pieces.len() > 0
            &&& run.state.pieces.last() != ping_message()
        }),
    ensures
        ({
            let turn = read_turn(w, true, now, WsReadEvent::Read(StreamRead::Data(data)));
            let run = msg_run(with_more(msg_state(w), data@), w.loop_cnt as int);
            &&& turn.step == WsReadStepView::Done(ty)
            &&& turn.data == concatenated(run.state.pieces)
            &&& turn.frames.len() == 0
            &&& turn.stream.connected is Some
            &&& turn.stream.input == run.state.input
            &&& turn.stream.parser() == run.state.parser
            &&& turn.stream.pieces.len() == 0
        }),
{
}

/// The part of a message that comes last, where its frames were cut behind their first `at` bytes,
/// within the `k`th.
pub open spec fn last_part(frames: Seq<Frame>, is_client: bool, k: int, at: int) -> Seq<u8> {
    let n = payload_at(frames, is_client, k, at);
    if n >= 0 {
        frames.last().payload.skip(n)
    } else {
        frames.last().payload
    }
}

proof fn lemma_last_piece(frames: Seq<Frame>)
    requires
        frames.len() > 0,
    ensures
        concatenated(payloads(frames)) == concatenated(payloads(frames.take(frames.len() - 1)))
            + frames.last().payload,
{
    assert(payloads(frames).drop_last() =~= payloads(frames.take(frames.len() - 1)));
}

/// Whether a reader has room for the pieces of a message and for their heads, or, if it is one
/// piece, for as much of it as comes at once.
pub open spec fn takes_pieces<S>(
    w: WsView<S>,
    message: Seq<u8>,
    frame_size: usize,
    is_client: bool,
) -> bool {
    let longest = longest_piece(message.len(), frame_size);
    &&& head_size(longest, is_client) <= w.input.cap <= usize::MAX
    &&& longest <= w.buffer.len() || message.len() <= frame_size && w.input.cap <= w.buffer.len()
}

/// A message may come in several reads, cut between its frames, within their heads, and within the
/// payload of the last: what comes before its last byte is kept, and more is asked for. A payload
/// under a mask must be cut where the mask starts again.
pub proof fn law_frames_are_kept<S>(
    message: Seq<u8>,
    ty: WsDataType,
    frame_size: usize,
    is_client: bool,
    bytes: Seq<u8>,
    w: WsView<S>,
    k: int,
    at: int,
    j: int,
    data: Vec<u8>,
    now: u64,
)
    requires
        0 < message.len() <= usize::MAX,
        frame_size > 0,
        are_frames(message_frames(message, sent_as(ty), frame_size), is_client, bytes),
        w.connected is Some,
        ({
            let frames = message_frames(message, sent_as(ty), frame_size);
            let code = send_code(sent_as(ty));
            &&& holding(msg_state(w), frames, code, is_client, bytes, k, at)
            &&& may_be_cut_in(frames, is_client, j, at + data@.len())
        }),
        data@ == bytes.subrange(at, at + data@.len()),
        data@.len() <= w.input.room(),
        w.input.cap <= usize::MAX,
        w.loop_cnt + (j - k) + 1 < LOOP_LIMIT,
    ensures
        ({
            let frames = message_frames(message, sent_as(ty), frame_size);
            let code = send_code(sent_as(ty));
            let turn = read_turn(w, true, now, WsReadEvent::Read(StreamRead::Data(data)));
            let after = turn.stream;
            &&& turn == plain_turn(WsReadStepView::NeedRead(after.input.room()), after)
            &&& after.connected is Some
            &&& holding(msg_state(after), frames, code, is_client, bytes, j, at + data@.len())
            &&& after.loop_cnt <= w.loop_cnt + (j - k) + 2
            &&& after.input.cap == w.input.cap
            &&& after.input.data.len() < after.input.cap
            &&& after.buffer.len() == w.buffer.len()
        }),
{
    let frames = message_frames(message, sent_as(ty), frame_size);
    let code = send_code(sent_as(ty));
    let most = longest_piece(message.len(), frame_size);
    let s = msg_state(w);
    let loop_cnt = w.loop_cnt as int;
    lemma_cut_message(message, 0, code, frame_size);
    if j < k {
        lemma_starts_grow(frames, is_client, j + 1, k);
    }
    if payload_at(frames, is_client, k, at) >= 0 {
        lemma_payload_kept(frames, code, most, is_client, bytes, s, k, at, data@, loop_cnt);
    } else {
        lemma_frames_kept(frames, code, most, is_client, bytes, s, k, at, j, data@, loop_cnt);
    }
    lemma_turn_waits(w, data, now);
}

/// What is left of a message that comes in several reads completes it: the message reaches the
/// reader whole, and what is behind it is left, unless the part that comes last is what sides probe
/// each other with.
pub proof fn law_rest_completes_message<S>(
    message: Seq<u8>,
    ty: WsDataType,
    frame_size: usize,
    is_client: bool,
    bytes: Seq<u8>,
    w: WsView<S>,
    k: int,
    at: int,
    data: Vec<u8>,
    rest: Seq<u8>,
    now: u64,
)
    requires
        0 < message.len() <= usize::MAX,
        frame_size > 0,
        are_frames(message_frames(message, sent_as(ty), frame_size), is_client, bytes),
        w.connected is Some,
        ({
            let frames = message_frames(message, sent_as(ty), frame_size);
            &&& holding(
                msg_state(w),
                frames,
                send_code(sent_as(ty)),
                is_client,
                bytes,
                k,
                at,
            )
            &&& last_part(frames, is_client, k, at) != ping_message()
            &&& w.loop_cnt + (frames.len() - k) <= LOOP_LIMIT
        }),
        data@ == bytes.skip(at) + rest,
        data@.len() <= w.input.room(),
        w.input.cap <= usize::MAX,
    ensures
        ({
            let turn = read_turn(w, true, now, WsReadEvent::Read(StreamRead::Data(data)));
            &&& turn.step == WsReadStepView::Done(ty)
            &&& turn.data == message
            &&& turn.frames.len() == 0
            &&& turn.stream.input.data == rest
            &&& turn.stream.connected is Some
            &&& ready_for(turn.stream.parser(), send_code(sent_as(ty)), false)
            &&& turn.stream.pieces.len() == 0
        }),
{
    let frames = message_frames(message, sent_as(ty), frame_size);
    let code = send_code(sent_as(ty));
    let most = longest_piece(message.len(), frame_size);
    let s = msg_state(w);
    let loop_cnt = w.loop_cnt as int;
    lemma_cut_message(message, 0, code, frame_size);
    assert(message.skip(0) =~= message);
    if payload_at(frames, is_client, k, at) >= 0 {
        lemma_payload_completes(
            frames,
            code,
            most,
            is_client,
            bytes,
            s,
            k,
            at,
            data@,
            rest,
            loop_cnt,
        );
    } else {
        lemma_frames_complete(
            frames,
            code,
            most,
            is_client,
            bytes,
            s,
            k,
            at,
            data@,
            rest,
            loop_cnt,
        );
    }
    lemma_turn_gives(w, data, now, ty);
}

/// The bytes of reads, one behind the other.
pub open spec fn joined(reads: Seq<Vec<u8>>) -> Seq<u8>
    decreases reads.len(),
{
    if reads.len() == 0 {
        Seq::empty()
    } else {
        joined(reads.drop_last()) + reads.last()@
    }
}

/// The turn at the end of reads, one after the other.
pub open spec fn after_reads<S>(w: WsView<S>, reads: Seq<Vec<u8>>, now: u64) -> ReadTurn<S>
    decreases reads.len(),
{
    if reads.len() == 0 {
        plain_turn(WsReadStepView::NeedRead(w.input.room()), w)
    } else {
        let before = after_reads(w, reads.drop_last(), now);
        read_turn(
            before.stream,
            true,
            now,
            WsReadEvent::Read(StreamRead::Data(reads.last())),
        )
    }
}

/// Whether each read gives no more than there is room for.
pub open spec fn reads_fit<S>(w: WsView<S>, reads: Seq<Vec<u8>>, now: u64) -> bool {
    forall|i: int|
        0 <= i < reads.len() ==> (#[trigger] reads[i])@.len() <= after_reads(
            w,
            reads.take(i),
            now,
        ).stream.input.room()
}

/// Whether the frames of a message may be cut behind their first `at` bytes.
pub open spec fn may_be_cut(frames: Seq<Frame>, is_client: bool, at: int) -> bool {
    exists|k: int| may_be_cut_in(frames, is_client, k, at)
}

/// The frame within which frames are cut.
pub open spec fn cut_frame(frames: Seq<Frame>, is_client: bool, at: int) -> int {
    choose|k: int| may_be_cut_in(frames, is_client, k, at)
}

/// Whether a stream is between two messages, of which the next may have the code `code`, and holds
/// nothing that came.
pub open spec fn idle<S>(w: WsView<S>, code: u8) -> bool {
    &&& w.connected is Some
    &&& ready_for(w.parser(), code, false)
    &&& w.pieces.len() == 0
    &&& w.input.data.len() == 0
}

/// A stream that is idle has read nothing of a message.
proof fn lemma_nothing_read<S>(
    message: Seq<u8>,
    ty: WsDataType,
    frame_size: usize,
    is_client: bool,
    bytes: Seq<u8>,
    w: WsView<S>,
    k: int,
)
    requires
        0 < message.len() <= usize::MAX,
        frame_size > 0,
        idle(w, send_code(sent_as(ty))),
        takes_pieces(w, message, frame_size, is_client),
        may_be_cut_in(message_frames(message, sent_as(ty), frame_size), is_client, k, 0),
    ensures
        holding(
            msg_state(w),
            message_frames(message, sent_as(ty), frame_size),
            send_code(sent_as(ty)),
            is_client,
            bytes,
            k,
            0,
        ),
{
    let frames = message_frames(message, sent_as(ty), frame_size);
    let code = send_code(sent_as(ty));
    lemma_starts_grow(frames, is_client, 1, k);
    assert(start_of(frames, is_client, 0) == 0);
    assert(start_of(frames, is_client, 1) > 0);
    assert(k == 0);
    assert(bytes.subrange(0, 0) =~= w.input.data);
    assert(payloads(frames.take(0)) =~= w.pieces);
    lemma_pieces_fit(message, code, frame_size);
}

/// Reads that give the first part of a message.
#[verifier::rlimit(30)]
proof fn lemma_reads_kept<S>(
    message: Seq<u8>,
    ty: WsDataType,
    frame_size: usize,
    is_client: bool,
    bytes: Seq<u8>,
    w: WsView<S>,
    reads: Seq<Vec<u8>>,
    now: u64,
)
    requires
        0 < message.len() <= usize::MAX,
        frame_size > 0,
        are_frames(message_frames(message, sent_as(ty), frame_size), is_client, bytes),
        idle(w, send_code(sent_as(ty))),
        takes_pieces(w, message, frame_size, is_client),
        joined(reads).is_prefix_of(bytes),
        reads_fit(w, reads, now),
        forall|i: int|
            0 <= i <= reads.len() ==> may_be_cut(
                message_frames(message, sent_as(ty), frame_size),
                is_client,
                #[trigger] joined(reads.take(i)).len() as int,
            ),
        w.loop_cnt + message_frames(message, sent_as(ty), frame_size).len() + 2 * reads.len()
            <= LOOP_LIMIT,
    ensures
        ({
            let frames = message_frames(message, sent_as(ty), frame_size);
            let code = send_code(sent_as(ty));
            let turn = after_reads(w, reads, now);
            let after = turn.stream;
            let at = joined(reads).len() as int;
            let k = cut_frame(frames, is_client, at);
            &&& turn == plain_turn(WsReadStepView::NeedRead(after.input.room()), after)
            &&& after.connected is Some
            &&& holding(msg_state(after), frames, code, is_client, bytes, k, at)
            &&& after.loop_cnt <= w.loop_cnt + k + 2 * reads.len()
            &&& after.input.cap == w.input.cap
            &&& after.buffer.len() == w.buffer.len()
        }),
    decreases reads.len(),
{
    let frames = message_frames(message, sent_as(ty), frame_size);
    let code = send_code(sent_as(ty));
    let at = joined(reads).len() as int;
    let k = cut_frame(frames, is_client, at);
    assert(reads.take(reads.len() as int) =~= reads);
    assert(may_be_cut(frames, is_client, joined(reads.take(reads.len() as int)).len() as int));
    assert(may_be_cut_in(frames, is_client, k, at));
    if reads.len() == 0 {
        lemma_nothing_read(message, ty, frame_size, is_client, bytes, w, k);
    } else {
        let earlier = reads.drop_last();
        let data = reads.last();
        let before = after_reads(w, earlier, now).stream;
        let from = joined(earlier).len() as int;
        let j = cut_frame(frames, is_client, from);
        let got = joined(reads);
        assert(got == joined(earlier) + data@);
        assert(got == bytes.subrange(0, at));
        assert(joined(earlier) =~= bytes.subrange(0, from));
        assert(data@ =~= got.subrange(from, at));
        assert(data@ =~= bytes.subrange(from, at));
        assert(reads.take(reads.len() - 1) =~= earlier);
        assert(reads[reads.len() - 1] == data);
        assert forall|i: int| 0 <= i <= earlier.len() implies may_be_cut(
            frames,
            is_client,
            #[trigger] joined(earlier.take(i)).len() as int,
        ) by {
            assert(earlier.take(i) =~= reads.take(i));
            assert(may_be_cut(frames, is_client, joined(reads.take(i)).len() as int));
        }
        assert(reads_fit(w, earlier, now)) by {
            assert forall|i: int| 0 <= i < earlier.len() implies (#[trigger] earlier[i])@.len()
                <= after_reads(w, earlier.take(i), now).stream.input.room() by {
                assert(earlier.take(i) =~= reads.take(i));
                assert(reads[i] == earlier[i]);
            }
        }
        lemma_reads_kept(message, ty, frame_size, is_client, bytes, w, earlier, now);
        law_frames_are_kept(
            message,
            ty,
            frame_size,
            is_client,
            bytes,
            before,
            j,
            from,
            k,
            data,
            now,
        );
    }
}

/// The pieces that a message is cut into are no longer than they may be; a message that is no
/// longer than that is one piece.
proof fn lemma_pieces_fit(message: Seq<u8>, code: u8, frame_size: usize)
    requires
        0 < message.len() <= usize::MAX,
        frame_size > 0,
    ensures
        ({
            let frames = cut(message, 0, code, frame_size);
            &&& forall|i: int|
                0 <= i < frames.len() ==> (#[trigger] frames[i]).payload.len() <= longest_piece(
                    message.len(),
                    frame_size,
                )
            &&& message.len() <= frame_size ==> frames.len() == 1
        }),
{
    reveal_with_fuel(cut, 1);
    lemma_cut_message(message, 0, code, frame_size);
}

/// A message of data that is written reaches the reader of the other side whole, in however many
/// reads its frames come, and wherever these cut them: between two frames, within a head, or within
/// the payload of the last frame, which must be where the mask starts again if there is one. Until
/// the last byte is there, more is asked for. It holds for as many frames and reads as a reader
/// accepts for one message, unless the part that comes last is what sides probe each other with.
pub proof fn law_message_in_any_reads<S>(
    message: Seq<u8>,
    ty: WsDataType,
    frame_size: usize,
    is_client: bool,
    bytes: Seq<u8>,
    w: WsView<S>,
    reads: Seq<Vec<u8>>,
    now: u64,
)
    requires
        0 < message.len() <= usize::MAX,
        frame_size > 0,
        are_frames(message_frames(message, sent_as(ty), frame_size), is_client, bytes),
        idle(w, send_code(sent_as(ty))),
        takes_pieces(w, message, frame_size, is_client),
        reads.len() > 0,
        joined(reads) == bytes,
        reads_fit(w, reads, now),
        ({
            let frames = message_frames(message, sent_as(ty), frame_size);
            let last = joined(reads.drop_last()).len() as int;
            &&& forall|i: int|
                0 <= i < reads.len() ==> may_be_cut(
                    frames,
                    is_client,
                    #[trigger] joined(reads.take(i)).len() as int,
                )
            &&& last_part(frames, is_client, cut_frame(frames, is_client, last), last)
                != ping_message()
            &&& w.loop_cnt + frames.len() + 2 * (reads.len() - 1) <= LOOP_LIMIT
        }),
    ensures
        forall|i: int|
            0 <= i < reads.len() ==> {
                let turn = #[trigger] after_reads(w, reads.take(i), now);
                &&& turn == plain_turn(
                    WsReadStepView::NeedRead(turn.stream.input.room()),
                    turn.stream,
                )
                &&& turn.stream.connected is Some
            },
        ({
            let turn = after_reads(w, reads, now);
            &&& turn.step == WsReadStepView::Done(ty)
            &&& turn.data == message
            &&& turn.frames.len() == 0
            &&& idle(turn.stream, send_code(sent_as(ty)))
        }),
{
    let frames = message_frames(message, sent_as(ty), frame_size);
    assert forall|i: int| 0 <= i < reads.len() implies {
        let turn = #[trigger] after_reads(w, reads.take(i), now);
        &&& turn == plain_turn(WsReadStepView::NeedRead(turn.stream.input.room()), turn.stream)
        &&& turn.stream.connected is Some
    } by {
        lemma_first_reads(message, ty, frame_size, is_client, bytes, w, reads, now, i);
    }
    let earlier = reads.drop_last();
    let data = reads.last();
    let n = reads.len() - 1;
    let at = joined(earlier).len() as int;
    assert(reads.take(n) =~= earlier);
    assert(reads[n] == data);
    lemma_first_reads(message, ty, frame_size, is_client, bytes, w, reads, now, n);
    assert(data@ =~= bytes.skip(at) + Seq::<u8>::empty());
    law_rest_completes_message(
        message,
        ty,
        frame_size,
        is_client,
        bytes,
        after_reads(w, earlier, now).stream,
        cut_frame(frames, is_client, at),
        at,
        data,
        Seq::empty(),
        now,
    );
}

/// The first `n` of the reads that give a message.
proof fn lemma_first_reads<S>(
    message: Seq<u8>,
    ty: WsDataType,
    frame_size: usize,
    is_client: bool,
    bytes: Seq<u8>,
    w: WsView<S>,
    reads: Seq<Vec<u8>>,
    now: u64,
    n: int,
)
    requires
        0 < message.len() <= usize::MAX,
        frame_size > 0,
        are_frames(message_frames(message, sent_as(ty), frame_size), is_client, bytes),
        idle(w, send_code(sent_as(ty))),
        takes_pieces(w, message, frame_size, is_client),
        joined(reads) == bytes,
        reads_fit(w, reads, now),
        forall|i: int|
            0 <= i < reads.len() ==> may_be_cut(
                message_frames(message, sent_as(ty), frame_size),
                is_client,
                #[trigger] joined(reads.take(i)).len() as int,
            ),
        0 <= n < reads.len(),
        w.loop_cnt + message_frames(message, sent_as(ty), frame_size).len() + 2 * (reads.len() - 1)
            <= LOOP_LIMIT,
    ensures
        ({
            let frames = message_frames(message, sent_as(ty), frame_size);
            let code = send_code(sent_as(ty));
            let turn = after_reads(w, reads.take(n), now);
            let after = turn.stream;
            let at = joined(reads.take(n)).len() as int;
            let k = cut_frame(frames, is_client, at);
            &&& turn == plain_turn(WsReadStepView::NeedRead(after.input.room()), after)
            &&& after.connected is Some
            &&& holding(msg_state(after), frames, code, is_client, bytes, k, at)
            &&& after.loop_cnt <= w.loop_cnt + k + 2 * n
            &&& after.input.cap == w.input.cap
        }),
{
    let frames = message_frames(message, sent_as(ty), frame_size);
    let some = reads.take(n);
    lemma_joined_prefix(reads, n);
    assert forall|i: int| 0 <= i <= some.len() implies may_be_cut(
        frames,
        is_client,
        #[trigger] joined(some.take(i)).len() as int,
    ) by {
        assert(some.take(i) =~= reads.take(i));
        assert(may_be_cut(frames, is_client, joined(reads.take(i)).len() as int));
    }
    assert(reads_fit(w, some, now)) by {
        assert forall|i: int| 0 <= i < some.len() implies (#[trigger] some[i])@.len()
            <= after_reads(w, some.take(i), now).stream.input.room() by {
            assert(some.take(i) =~= reads.take(i));
            assert(reads[i] == some[i]);
        }
    }
    lemma_reads_kept(message, ty, frame_size, is_client, bytes, w, some, now);
}

proof fn lemma_joined_prefix(reads: Seq<Vec<u8>>, n: int)
    requires
        0 <= n <= reads.len(),
    ensures
        joined(reads.take(n)).is_prefix_of(joined(reads)),
    decreases reads.len(),
{
    let all = joined(reads);
    if n == reads.len() {
        assert(reads.take(n) =~= reads);
        assert(all =~= all.subrange(0, all.len() as int));
    } else {
        let earlier = reads.drop_last();
        lemma_joined_prefix(earlier, n);
        assert(earlier.take(n) =~= reads.take(n));
        let part = joined(reads.take(n));
        assert(part =~= joined(earlier).subrange(0, part.len() as int));
        assert(part =~= all.subrange(0, part.len() as int));
    }
}

/// A message that is read in part outlasts a pause: where nothing more has come, the reader would
/// have to wait; when it asks again, it goes on where it was. Unless a probe is due, nothing else
/// happens.
pub proof fn law_pause_loses_nothing<S>(
    message: Seq<u8>,
    ty: WsDataType,
    frame_size: usize,
    is_client: bool,
    bytes: Seq<u8>,
    w: WsView<S>,
    k: int,
    at: int,
    now: u64,
    later: u64,
)
    requires
        0 < message.len() <= usize::MAX,
        frame_size > 0,
        are_frames(message_frames(message, sent_as(ty), frame_size), is_client, bytes),
        w.connected is Some,
        holding(
            msg_state(w),
            message_frames(message, sent_as(ty), frame_size),
            send_code(sent_as(ty)),
            is_client,
            bytes,
            k,
            at,
        ),
        w.input.data.len() <= w.input.cap <= usize::MAX,
        !probe_due(w, now),
    ensures
        ({
            let paused = WsView { loop_cnt: 0, ..w };
            let turn = read_turn(paused, true, later, WsReadEvent::Start);
            let after = turn.stream;
            &&& read_turn(w, true, now, WsReadEvent::Read(StreamRead::WouldBlock)) == plain_turn(
                WsReadStepView::Flush,
                paused,
            )
            &&& read_turn(paused, true, now, WsReadEvent::Flushed(Ok(()))) == plain_turn(
                WsReadStepView::Failed(WsErrorView::WouldBlock),
                paused,
            )
            &&& turn == plain_turn(WsReadStepView::NeedRead(after.input.room()), after)
            &&& after.connected is Some
            &&& holding(
                msg_state(after),
                message_frames(message, sent_as(ty), frame_size),
                send_code(sent_as(ty)),
                is_client,
                bytes,
                k,
                at,
            )
        }),
{
    let frames = message_frames(message, sent_as(ty), frame_size);
    let code = send_code(sent_as(ty));
    let most = longest_piece(message.len(), frame_size);
    let s = msg_state(w);
    let none = Seq::<u8>::empty();
    lemma_cut_message(message, 0, code, frame_size);
    lemma_frames_behind(frames, is_client, bytes, k + 1);
    assert(bytes.subrange(at, at) =~= none);
    assert(s.input.data + none =~= s.input.data);
    assert(with_more(s, none) == s);
    if payload_at(frames, is_client, k, at) >= 0 {
        lemma_payload_kept(frames, code, most, is_client, bytes, s, k, at, none, 0);
    } else {
        lemma_frames_kept(frames, code, most, is_client, bytes, s, k, at, k, none, 0);
    }
}

} // verus!
