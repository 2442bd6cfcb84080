//! The reader and writer of frames: `embedded_websocket`'s.
use crate::ws_frame::{
    announced_size, frame_bytes, frame_len, frame_ok, head_bytes, head_of, head_ok,
    lemma_frame_len, lemma_frame_parts, lemma_frame_unique, lemma_head_told, lemma_head_unique,
    mask_in, mask_ok, unmasked, Frame, FrameHead,
};
use crate::ws_handshake::{accept_string, base64_text};
use crate::ws_types::{WsReceiveType, WsSendType};
use embedded_websocket as ws;
use embedded_websocket::{WebSocketReceiveMessageType as Kind, WebSocketSendMessageType as SendKind};
use rand::rngs::StdRng;
use vstd::prelude::*;
use vstd::utf8::encode_utf8;

verus! {

/// A parser of `embedded_websocket`, of a client or of a server. The bounds of the crate's type are
/// traits of other crates, which Verus cannot state, so the parser is held out of sight; the name
/// [`ws_parser_state`] stands for what it keeps.
#[verifier::external_body]
pub struct WsParser {
    side: Result<ws::WebSocketClient<StdRng>, ws::WebSocketServer>,
}

/// How far a parser is with opening and closing.
#[derive(Debug, Clone, Copy, PartialEq, Eq, Structural)]
pub enum WsPhase {
    New,
    Connecting,
    Open,
    CloseSent,
    CloseReceived,
    Closed,
    Aborted,
}

/// A frame of which a part was read.
pub struct PartialFrame {
    pub code: u8,
    /// How many bytes of the payload are still to come.
    pub left: nat,
    pub fin: bool,
    pub mask: Option<Seq<u8>>,
}

/// What a parser keeps.
pub struct WsParserState {
    pub is_client: bool,
    pub phase: WsPhase,
    /// The last frame that was written was not the last of its message.
    pub continuing: bool,
    /// The code of the message of which frames were read, but not the last.
    pub message: Option<u8>,
    /// The frame of which a part was read.
    pub part: Option<PartialFrame>,
}

/// The state that a parser is in.
pub uninterp spec fn ws_parser_state(parser: WsParser) -> WsParserState;

/// What the random numbers of the parser of a client are drawn from: to begin with, the seed that
/// it was made with.
pub uninterp spec fn ws_parser_random(parser: WsParser) -> Seq<u8>;

/// The key that `embedded_websocket::WebSocketClient::client_connect` draws.
pub uninterp spec fn client_key(random: Seq<u8>) -> Seq<char>;

/// What reading a frame, or a part of one, gave.
pub struct WsReadResult {
    /// How many bytes were read.
    pub len_from: usize,
    /// How many bytes of payload were put out.
    pub len_to: usize,
    /// The message is complete.
    pub end_of_message: bool,
    /// The frame closes the connection, and says why.
    pub closing: bool,
    pub message_type: WsReceiveType,
}

/// Why no frame was read.
#[derive(Debug, Clone, Copy, PartialEq, Eq, Structural)]
pub enum WsReadError {
    /// There are not enough bytes.
    FrameIncomplete,
    /// Something else is wrong.
    Other,
}

/// Why no frame was written.
#[derive(Debug, Clone, Copy, PartialEq, Eq, Structural)]
pub enum WsWriteError {
    /// There is not enough room.
    BufferTooSmall,
    /// The connection is not open.
    NotOpen,
}

/// What one call for a frame comes to: what it gives, what the output then holds, and the state
/// that the parser is in.
pub struct WsReadOut {
    pub result: Result<WsReadResult, WsReadError>,
    pub to: Seq<u8>,
    pub state: WsParserState,
}

/// What `embedded_websocket::WebSocket::read` comes to.
pub uninterp spec fn ws_read(state: WsParserState, from: Seq<u8>, to: Seq<u8>) -> WsReadOut;

/// The kind of message that a code stands for, if it is one that carries data or a heartbeat.
pub open spec fn message_kind(code: u8) -> Option<WsReceiveType> {
    if code == 1 {
        Some(WsReceiveType::Text)
    } else if code == 2 {
        Some(WsReceiveType::Binary)
    } else if code == 9 {
        Some(WsReceiveType::Ping)
    } else if code == 10 {
        Some(WsReceiveType::Pong)
    } else {
        None
    }
}

/// The code of a message, given that of a frame: the one of the frame that the message began with.
pub open spec fn message_code(state: WsParserState, code: u8) -> u8 {
    match state.message {
        Some(first) => first,
        None => code,
    }
}

/// Whether `from` starts with a whole frame of data or of a heartbeat, with room for its payload.
pub open spec fn starts_with_frame(
    state: WsParserState,
    from: Seq<u8>,
    room: nat,
    frame: Frame,
    mask: Option<Seq<u8>>,
) -> bool {
    &&& frame_ok(frame)
    &&& mask_ok(mask)
    &&& frame_bytes(frame, mask).is_prefix_of(from)
    &&& frame.payload.len() <= room
    &&& frame.code == 0 || message_kind(frame.code) is Some
    &&& message_kind(message_code(state, frame.code)) is Some
}

/// What reading a whole frame comes to.
pub open spec fn frame_read(
    state: WsParserState,
    to: Seq<u8>,
    frame: Frame,
    mask: Option<Seq<u8>>,
) -> WsReadOut {
    let code = message_code(state, frame.code);
    let count = frame.payload.len();
    WsReadOut {
        result: Ok(
            WsReadResult {
                len_from: frame_len(count, mask is Some) as usize,
                len_to: count as usize,
                end_of_message: frame.fin,
                closing: false,
                message_type: message_kind(code)->0,
            },
        ),
        to: frame.payload + to.skip(count as int),
        state: WsParserState {
            message: if frame.fin {
                None
            } else {
                Some(code)
            },
            ..state
        },
    }
}

/// A code that stands for something.
pub open spec fn known_code(code: u8) -> bool {
    code <= 2 || 8 <= code <= 10
}

/// The least of three numbers.
pub open spec fn least(a: nat, b: nat, c: nat) -> nat {
    if a <= b && a <= c {
        a
    } else if b <= c {
        b
    } else {
        c
    }
}

/// How many bytes of the payload can be read where `from` starts with a head.
pub open spec fn payload_there(head: FrameHead, from: Seq<u8>, room: nat) -> nat {
    least(head.count, (from.len() - head_bytes(head).len()) as nat, room)
}

/// Whether `from` starts with the head of a frame of data or of a heartbeat, and not all of its
/// payload is there or fits.
pub open spec fn starts_with_part(
    state: WsParserState,
    from: Seq<u8>,
    room: nat,
    head: FrameHead,
) -> bool {
    &&& head_ok(head)
    &&& head_bytes(head).is_prefix_of(from)
    &&& payload_there(head, from, room) < head.count
    &&& head.code == 0 || message_kind(head.code) is Some
    &&& message_kind(message_code(state, head.code)) is Some
}

/// What reading the first part of a frame comes to.
pub open spec fn first_part_read(
    state: WsParserState,
    from: Seq<u8>,
    to: Seq<u8>,
    head: FrameHead,
) -> WsReadOut {
    let code = message_code(state, head.code);
    let at = head_bytes(head).len() as int;
    let n = payload_there(head, from, to.len()) as int;
    WsReadOut {
        result: Ok(
            WsReadResult {
                len_from: (at + n) as usize,
                len_to: n as usize,
                end_of_message: false,
                closing: false,
                message_type: message_kind(code)->0,
            },
        ),
        to: unmasked(from.subrange(at, at + n), head.mask) + to.skip(n),
        state: WsParserState {
            message: Some(code),
            part: Some(
                PartialFrame {
                    code: head.code,
                    left: (head.count - n) as nat,
                    fin: head.fin,
                    mask: head.mask,
                },
            ),
            ..state
        },
    }
}

/// Whether `from` starts with the head of a frame that closes the connection. Within a message of
/// data or of a heartbeat, such a frame passes for one of that message.
pub open spec fn starts_with_close(state: WsParserState, from: Seq<u8>, head: FrameHead) -> bool {
    &&& head_ok(head)
    &&& head_bytes(head).is_prefix_of(from)
    &&& head.code == 8
    &&& state.message matches Some(code) ==> message_kind(code) is Some
}

/// What reading a frame that closes the connection comes to, as far as its payload is there and
/// fits. One that is too short to say why does not give what it holds.
pub open spec fn close_read(
    state: WsParserState,
    from: Seq<u8>,
    to: Seq<u8>,
    head: FrameHead,
) -> WsReadOut {
    let at = head_bytes(head).len() as int;
    let n = payload_there(head, from, to.len()) as int;
    let replies = state.phase is CloseSent;
    WsReadOut {
        result: Ok(
            WsReadResult {
                len_from: (at + n) as usize,
                len_to: if n >= 2 {
                    n as usize
                } else {
                    0
                },
                end_of_message: true,
                closing: true,
                message_type: match state.message {
                    Some(code) => message_kind(code)->0,
                    None => if replies {
                        WsReceiveType::CloseCompleted
                    } else {
                        WsReceiveType::CloseMustReply
                    },
                },
            },
        ),
        to: unmasked(from.subrange(at, at + n), head.mask) + to.skip(n),
        state: WsParserState {
            phase: if state.message is Some {
                state.phase
            } else if replies {
                WsPhase::Closed
            } else {
                WsPhase::CloseReceived
            },
            message: None,
            part: if n < head.count {
                Some(
                    PartialFrame {
                        code: head.code,
                        left: (head.count - n) as nat,
                        fin: head.fin,
                        mask: head.mask,
                    },
                )
            } else {
                None
            },
            ..state
        },
    }
}

/// The kind of message that the rest of a frame belongs to, if it is one of data or of a heartbeat.
/// The rest of a continuation goes by the code of the message, which is one of data.
pub open spec fn part_kind(state: WsParserState, part: PartialFrame) -> Option<WsReceiveType> {
    if part.code != 0 {
        message_kind(part.code)
    } else if state.message == Some(1u8) || state.message == Some(2u8) {
        message_kind(state.message->0)
    } else {
        None
    }
}

/// What reading more of a frame comes to. The mask starts with its first byte again. A frame that
/// is not the last of its message is not left when all of it was read.
pub open spec fn next_part_read(
    state: WsParserState,
    from: Seq<u8>,
    to: Seq<u8>,
    part: PartialFrame,
) -> WsReadOut {
    let n = least(part.left, from.len(), to.len());
    let end = n == part.left && part.fin;
    WsReadOut {
        result: Ok(
            WsReadResult {
                len_from: n as usize,
                len_to: n as usize,
                end_of_message: end,
                closing: false,
                message_type: part_kind(state, part)->0,
            },
        ),
        to: unmasked(from.take(n as int), part.mask) + to.skip(n as int),
        state: WsParserState {
            part: if end {
                None
            } else {
                Some(PartialFrame { left: (part.left - n) as nat, ..part })
            },
            ..state
        },
    }
}

/// Whether a parser can read.
pub open spec fn can_read(state: WsParserState) -> bool {
    state.phase is Open || state.phase is CloseSent
}

/// Whether a parser can write.
pub open spec fn can_write(state: WsParserState) -> bool {
    state.phase is Open || state.phase is CloseReceived
}

/// What one call for a frame comes to. A parser that is not open gives an error. Within a frame of
/// data or of a heartbeat, more of it is read. Else, fewer bytes than the head of a frame has are
/// too few; a code that stands for nothing is an error; and a whole frame of data, of a heartbeat
/// or to close the connection, or the first part of one, is taken apart. All else comes to
/// `otherwise`.
pub open spec fn read_or(
    state: WsParserState,
    from: Seq<u8>,
    to: Seq<u8>,
    otherwise: WsReadOut,
) -> WsReadOut {
    if !can_read(state) {
        WsReadOut { result: Err(WsReadError::Other), to, state }
    } else if let Some(part) = state.part {
        if part_kind(state, part) is Some && (part.left > 0 || !part.fin) {
            next_part_read(state, from, to, part)
        } else {
            otherwise
        }
    } else if from.len() < 2 {
        WsReadOut { result: Err(WsReadError::FrameIncomplete), to, state }
    } else if !known_code(from[0] % 16) {
        WsReadOut { result: Err(WsReadError::Other), to, state }
    } else if from.len() < announced_size(from[1]) {
        WsReadOut { result: Err(WsReadError::FrameIncomplete), to, state }
    } else if exists|frame: Frame, mask: Option<Seq<u8>>|
        starts_with_frame(state, from, to.len(), frame, mask) {
        let (frame, mask) = choose|frame: Frame, mask: Option<Seq<u8>>|
            starts_with_frame(state, from, to.len(), frame, mask);
        frame_read(state, to, frame, mask)
    } else if exists|head: FrameHead| starts_with_part(state, from, to.len(), head) {
        let head = choose|head: FrameHead| starts_with_part(state, from, to.len(), head);
        first_part_read(state, from, to, head)
    } else if exists|head: FrameHead| starts_with_close(state, from, head) {
        let head = choose|head: FrameHead| starts_with_close(state, from, head);
        close_read(state, from, to, head)
    } else {
        otherwise
    }
}

/// What one call for a frame comes to.
pub open spec fn read_out(state: WsParserState, from: Seq<u8>, to: Seq<u8>) -> WsReadOut {
    read_or(state, from, to, ws_read(state, from, to))
}

/// The code of a message that is sent.
pub open spec fn send_code(ty: WsSendType) -> u8 {
    match ty {
        WsSendType::Text => 1,
        WsSendType::Binary => 2,
        WsSendType::Ping => 9,
        WsSendType::Pong => 10,
        WsSendType::CloseReply => 8,
    }
}

/// The state of a parser after it was asked to write a frame while it could.
pub open spec fn wrote(state: WsParserState, ty: WsSendType, end_of_message: bool) -> WsParserState {
    WsParserState {
        phase: if ty is CloseReply {
            WsPhase::Closed
        } else {
            state.phase
        },
        continuing: !end_of_message,
        ..state
    }
}

/// The frame that a parser writes.
pub open spec fn written_frame(
    state: WsParserState,
    ty: WsSendType,
    end_of_message: bool,
    payload: Seq<u8>,
) -> Frame {
    Frame {
        fin: end_of_message,
        code: if state.continuing && !(ty is CloseReply) {
            0
        } else {
            send_code(ty)
        },
        payload,
    }
}

/// Whether asking a parser in `state` to write a frame to `to`, behind its first `at` bytes, comes
/// to `result`, with `after` in the output and the parser in the state `then`.
pub open spec fn writes(
    state: WsParserState,
    ty: WsSendType,
    end_of_message: bool,
    from: Seq<u8>,
    to: Seq<u8>,
    at: int,
    result: Result<usize, WsWriteError>,
    after: Seq<u8>,
    then: WsParserState,
) -> bool {
    let size = frame_len(from.len(), state.is_client);
    if !can_write(state) {
        result == Err::<usize, WsWriteError>(WsWriteError::NotOpen) && after == to && then == state
    } else if at + size > to.len() {
        &&& result == Err::<usize, WsWriteError>(WsWriteError::BufferTooSmall)
        &&& after == to
        &&& then == wrote(state, ty, end_of_message)
    } else {
        let frame = written_frame(state, ty, end_of_message, from);
        let bytes = after.subrange(at, at + size);
        &&& result == Ok::<usize, WsWriteError>(size as usize)
        &&& after.len() == to.len()
        &&& after.take(at) == to.take(at)
        &&& bytes == frame_bytes(frame, mask_in(bytes, from.len(), state.is_client))
        &&& after.skip(at + size) == to.skip(at + size)
        &&& then == wrote(state, ty, end_of_message)
    }
}

/// `embedded_websocket::WebSocket::read`: what it comes to is stated by [`read_or`] for a parser
/// that is not open, for bytes that end within a head, for a code that stands for nothing, for
/// frames of data and of heartbeats, whole or in parts, and for frames that close the connection,
/// all with heads as the crate writes them; it is named [`ws_read`] for the rest. It never reads or
/// puts out more than there is, does not complete a message without reading anything unless it
/// closes the connection, and leaves alone what the parser keeps for writing.
#[verifier::external_body]
pub(crate) fn parser_read(parser: &mut WsParser, from: &[u8], to: &mut Vec<u8>) -> (r: Result<
    WsReadResult,
    WsReadError,
>)
    ensures
        ({
            let state = ws_parser_state(*old(parser));
            let out = read_or(state, from@, old(to)@, ws_read(state, from@, old(to)@));
            &&& r == out.result
            &&& final(to)@ == out.to
            &&& ws_parser_state(*final(parser)) == out.state
        }),
        r matches Ok(result) ==> result.len_from <= from@.len() && result.len_to <= old(to)@.len(),
        r matches Ok(result) ==> (result.end_of_message && !result.closing ==> result.len_from > 0),
        final(to)@.len() == old(to)@.len(),
        ws_parser_state(*final(parser)).is_client == ws_parser_state(*old(parser)).is_client,
        ws_parser_state(*final(parser)).continuing == ws_parser_state(*old(parser)).continuing,
{
    let result = match &mut parser.side { Ok(c) => c.read(from, to), Err(s) => s.read(from, to) };
    match result {
        Ok(r) => Ok(WsReadResult {
            len_from: r.len_from, len_to: r.len_to, end_of_message: r.end_of_message,
            closing: r.close_status.is_some(),
            message_type: match r.message_type {
                Kind::Text => WsReceiveType::Text, Kind::Binary => WsReceiveType::Binary,
                Kind::Ping => WsReceiveType::Ping, Kind::Pong => WsReceiveType::Pong,
                Kind::CloseCompleted => WsReceiveType::CloseCompleted,
                Kind::CloseMustReply => WsReceiveType::CloseMustReply,
            },
        }),
        Err(ws::Error::ReadFrameIncomplete) => Err(WsReadError::FrameIncomplete),
        Err(_) => Err(WsReadError::Other),
    }
}

/// `embedded_websocket::WebSocket::write`: puts a frame into `to`, behind its first `at` bytes.
/// The frame has the code of the message, or that of a continuation where the frame before was
/// not the last of its message; what a client writes is under a mask of its choice. The parser
/// takes note of the frame even where there is no room for it.
#[verifier::external_body]
pub(crate) fn parser_write(
    parser: &mut WsParser,
    ty: WsSendType,
    end_of_message: bool,
    from: &[u8],
    to: &mut Vec<u8>,
    at: usize,
) -> (r: Result<usize, WsWriteError>)
    requires
        at <= old(to)@.len(),
    ensures
        writes(
            ws_parser_state(*old(parser)),
            ty,
            end_of_message,
            from@,
            old(to)@,
            at as int,
            r,
            final(to)@,
            ws_parser_state(*final(parser)),
        ),
{
    let kind = match ty {
        WsSendType::Text => SendKind::Text, WsSendType::Binary => SendKind::Binary,
        WsSendType::Ping => SendKind::Ping, WsSendType::Pong => SendKind::Pong,
        WsSendType::CloseReply => SendKind::CloseReply,
    };
    let result = match &mut parser.side {
        Ok(client) => client.write(kind, end_of_message, from, &mut to[at..]),
        Err(server) => server.write(kind, end_of_message, from, &mut to[at..]),
    };
    result.map_err(|err| match err {
        ws::Error::WriteToBufferTooSmall => WsWriteError::BufferTooSmall,
        _ => WsWriteError::NotOpen,
    })
}

/// A parser that was just made.
pub open spec fn new_parser(is_client: bool) -> WsParserState {
    WsParserState {
        is_client,
        phase: WsPhase::New,
        continuing: false,
        message: None,
        part: None,
    }
}

/// `embedded_websocket::WebSocketClient::new_client`, with random numbers that start from `seed`.
#[verifier::external_body]
pub(crate) fn parser_new_client(seed: [u8; 32]) -> (r: WsParser)
    ensures
        ws_parser_state(r) == new_parser(true),
        ws_parser_random(r) == seed@,
{
    let rng: StdRng = rand::SeedableRng::from_seed(seed);
    WsParser { side: Ok(ws::WebSocketClient::new_client(rng)) }
}

/// `embedded_websocket::WebSocketServer::new_server`.
#[verifier::external_body]
pub(crate) fn parser_new_server() -> (r: WsParser)
    ensures
        ws_parser_state(r) == new_parser(false),
{
    WsParser { side: Err(ws::WebSocketServer::new_server()) }
}

/// The request that a client opens a WebSocket with.
pub open spec fn connect_text(
    path: Seq<char>,
    host: Seq<char>,
    origin: Seq<char>,
    key: Seq<char>,
) -> Seq<char> {
    "GET "@ + path + " HTTP/1.1\r\nHost: "@ + host
        + "\r\nUpgrade: websocket\r\nConnection: Upgrade\r\nSec-WebSocket-Key: "@ + key
        + "\r\nOrigin: "@ + origin
        + "\r\nSec-WebSocket-Protocol: \r\nSec-WebSocket-Version: 13\r\n\r\n"@
}

/// The most bytes that the words of a handshake may have.
pub const HANDSHAKE_LIMIT: usize = 1024;

/// Whether the request that a client opens a WebSocket with is short enough. The key has 24 bytes.
pub open spec fn connect_fits(path: Seq<char>, host: Seq<char>, origin: Seq<char>) -> bool {
    encode_utf8(connect_text(path, host, origin, Seq::empty())).len() + 24 <= HANDSHAKE_LIMIT
}

/// Whether a text is a key as clients make it: 16 bytes in Base64.
pub open spec fn is_key(key: Seq<char>) -> bool {
    exists|raw: Seq<u8>| raw.len() == 16 && key == #[trigger] base64_text(raw)
}

/// Whether `request`, with `key` in it, is the request that a client opens a WebSocket with.
pub open spec fn is_connect_request(
    path: Seq<char>,
    host: Seq<char>,
    origin: Seq<char>,
    key: Seq<char>,
    request: Seq<u8>,
) -> bool {
    &&& is_key(key)
    &&& key.len() == 24
    &&& encode_utf8(key).len() == 24
    &&& request == encode_utf8(connect_text(path, host, origin, key))
}

/// `embedded_websocket::WebSocketClient::client_connect`: puts the request that a client opens a
/// WebSocket with into `to`, with a key at random, and tells how long the request is and what the
/// key is. The key goes by the name [`client_key`] of what the random numbers are drawn from. It
/// fails where the request would be too long.
#[verifier::external_body]
pub(crate) fn parser_connect(
    parser: &mut WsParser,
    path: &str,
    host: &str,
    origin: &str,
    to: &mut Vec<u8>,
) -> (r: Option<(usize, String)>)
    requires
        ws_parser_state(*old(parser)) == new_parser(true),
        old(to)@.len() >= HANDSHAKE_LIMIT,
    ensures
        r is Some <==> connect_fits(path@, host@, origin@),
        final(to)@.len() == old(to)@.len(),
        r matches Some((n, key)) ==> {
            &&& n <= final(to)@.len()
            &&& key@ == client_key(ws_parser_random(*old(parser)))
            &&& is_connect_request(path@, host@, origin@, key@, final(to)@.take(n as int))
            &&& ws_parser_state(*final(parser)) == (WsParserState {
                phase: WsPhase::Connecting,
                ..new_parser(true)
            })
        },
{
    let options =
        ws::WebSocketOptions { path, host, origin, sub_protocols: None, additional_headers: None };
    match &mut parser.side {
        Ok(client) => match client.client_connect(&options, to) {
            Ok((n, key)) => Some((n, key.as_str().to_owned())),
            Err(_) => None,
        },
        Err(_) => None,
    }
}

/// Sets the public field `embedded_websocket::WebSocket::state` to `WebSocketState::Open`.
#[verifier::external_body]
pub(crate) fn parser_set_open(parser: &mut WsParser)
    ensures
        ws_parser_state(*final(parser)) == (WsParserState {
            phase: WsPhase::Open,
            ..ws_parser_state(*old(parser))
        }),
{
    match &mut parser.side {
        Ok(client) => client.state = ws::WebSocketState::Open,
        Err(server) => server.state = ws::WebSocketState::Open,
    }
}

/// The response that a server opens a WebSocket with, given its answer to the key.
pub open spec fn accept_text(answer: Seq<char>) -> Seq<char> {
    "HTTP/1.1 101 Switching Protocols\r\nConnection: Upgrade\r\nUpgrade: websocket\r\n"@
        + "Sec-WebSocket-Accept: "@ + answer + "\r\n\r\n"@
}

/// `embedded_websocket::WebSocketServer::server_accept`, without a protocol: puts the response that
/// a server opens a WebSocket with into `to`, and tells how long it is. It fails for no key of at
/// most 24 bytes; the answer to a key is the one that [`accept_string`] states.
#[verifier::external_body]
pub(crate) fn parser_accept(parser: &mut WsParser, key: &str, to: &mut Vec<u8>) -> (r: usize)
    requires
        ws_parser_state(*old(parser)) == new_parser(false),
        encode_utf8(key@).len() <= 24,
        old(to)@.len() >= HANDSHAKE_LIMIT,
    ensures
        r <= final(to)@.len(),
        final(to)@.take(r as int) == encode_utf8(accept_text(accept_string(key@))),
        ws_parser_state(*final(parser)) == (WsParserState {
            phase: WsPhase::Open,
            ..new_parser(false)
        }),
{
    match &mut parser.side {
        Ok(_) => 0,
        Err(server) => server.server_accept(&ws::WebSocketKey::from(key), None, to).unwrap(),
    }
}

/// A whole frame at the front is what is read.
pub proof fn lemma_frame_read(
    state: WsParserState,
    from: Seq<u8>,
    to: Seq<u8>,
    frame: Frame,
    mask: Option<Seq<u8>>,
)
    requires
        can_read(state),
        state.part is None,
        starts_with_frame(state, from, to.len(), frame, mask),
    ensures
        read_out(state, from, to) == frame_read(state, to, frame, mask),
{
    lemma_frame_len(frame, mask);
    lemma_frame_parts(frame, mask);
    let head = head_of(frame, mask);
    lemma_head_told(head);
    assert(frame_bytes(frame, mask)[0] == from[0]);
    assert(frame_bytes(frame, mask)[1] == from[1]);
    let (f, m) = choose|f: Frame, m: Option<Seq<u8>>|
        starts_with_frame(state, from, to.len(), f, m);
    assert(starts_with_frame(state, from, to.len(), f, m));
    lemma_frame_unique(from, frame, mask, f, m);
}

/// A part of a head at the front is too little.
pub proof fn lemma_head_begun(
    state: WsParserState,
    from: Seq<u8>,
    to: Seq<u8>,
    head: FrameHead,
)
    requires
        can_read(state),
        state.part is None,
        head_ok(head),
        known_code(head.code),
        from.len() < head_bytes(head).len(),
        from.is_prefix_of(head_bytes(head)),
    ensures
        read_out(state, from, to) == (WsReadOut {
            result: Err(WsReadError::FrameIncomplete),
            to,
            state,
        }),
{
    lemma_head_told(head);
    if from.len() >= 2 {
        assert(from[0] == head_bytes(head)[0]);
        assert(from[1] == head_bytes(head)[1]);
    }
}

/// A head at the front, with a part of the payload, is what is read.
pub proof fn lemma_part_read(
    state: WsParserState,
    from: Seq<u8>,
    to: Seq<u8>,
    head: FrameHead,
)
    requires
        can_read(state),
        state.part is None,
        starts_with_part(state, from, to.len(), head),
    ensures
        read_out(state, from, to) == first_part_read(state, from, to, head),
{
    lemma_head_told(head);
    assert(from[0] == head_bytes(head)[0]);
    assert(from[1] == head_bytes(head)[1]);
    if exists|f: Frame, m: Option<Seq<u8>>| starts_with_frame(state, from, to.len(), f, m) {
        let (f, m) = choose|f: Frame, m: Option<Seq<u8>>|
            starts_with_frame(state, from, to.len(), f, m);
        lemma_frame_parts(f, m);
        lemma_frame_len(f, m);
        let other = head_of(f, m);
        let h = head_bytes(other);
        assert(h =~= frame_bytes(f, m).subrange(0, h.len() as int));
        assert(h =~= from.subrange(0, h.len() as int));
        lemma_head_unique(from, head, other);
    }
    let other = choose|other: FrameHead| starts_with_part(state, from, to.len(), other);
    assert(starts_with_part(state, from, to.len(), other));
    lemma_head_unique(from, head, other);
}

/// Within a frame, more of it is what is read.
pub proof fn lemma_more_read(
    state: WsParserState,
    from: Seq<u8>,
    to: Seq<u8>,
    part: PartialFrame,
)
    requires
        can_read(state),
        state.part == Some(part),
        part_kind(state, part) is Some,
        part.left > 0,
    ensures
        read_out(state, from, to) == next_part_read(state, from, to, part),
{
}

/// A head at the front that closes the connection is what is read.
pub proof fn lemma_close_read(state: WsParserState, from: Seq<u8>, to: Seq<u8>, head: FrameHead)
    requires
        can_read(state),
        state.part is None,
        starts_with_close(state, from, head),
    ensures
        read_out(state, from, to) == close_read(state, from, to, head),
{
    lemma_head_told(head);
    assert(from[0] == head_bytes(head)[0]);
    assert(from[1] == head_bytes(head)[1]);
    if exists|f: Frame, m: Option<Seq<u8>>| starts_with_frame(state, from, to.len(), f, m) {
        let (f, m) = choose|f: Frame, m: Option<Seq<u8>>|
            starts_with_frame(state, from, to.len(), f, m);
        lemma_frame_parts(f, m);
        lemma_frame_len(f, m);
        let other = head_of(f, m);
        let h = head_bytes(other);
        assert(h =~= frame_bytes(f, m).subrange(0, h.len() as int));
        assert(h =~= from.subrange(0, h.len() as int));
        lemma_head_unique(from, head, other);
    }
    if exists|other: FrameHead| starts_with_part(state, from, to.len(), other) {
        let other = choose|other: FrameHead| starts_with_part(state, from, to.len(), other);
        lemma_head_unique(from, head, other);
    }
    let other = choose|other: FrameHead| starts_with_close(state, from, other);
    assert(starts_with_close(state, from, other));
    lemma_head_unique(from, head, other);
}

} // verus!
