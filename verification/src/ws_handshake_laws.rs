//! What holds of the words that a WebSocket is opened with, between a client and a server.
use crate::buffer::BufferView;
use crate::encoding::lemma_encode_concat;
use crate::headers::{header_length, lists, lower, HeaderEntry, HeaderMap};
use crate::lines::{all_telling, lemma_head_ends, lemma_line_end, lemma_lines_are_full};
use crate::request::{declared_length, is_content_length, HeaderView};
use crate::request_build::{request_line, request_text};
use crate::request_laws::{law_sent_head_is_settled, lemma_no_length};
use crate::request_read::{request_turn, size_limit, RequestStepView};
use crate::response::{header_line, header_lines, status_line};
use crate::response_head::{
    head_text, is_head_with, lemma_head_read, lemma_status_is_line, plain_header, ResponseHeadView,
};
use crate::response_read::{response_head, response_turn, ResponseStateView, ResponseStepView};
use crate::sent_request::{
    is_field, is_sendable, is_target, is_token, received, starts_with_head,
};
use crate::stream::ReadView;
use crate::text::{decimal, digit_char};
use crate::uri::white_space;
use crate::ws_handshake::{
    accept_string, base64_text, ctx_end, ctx_scan, first_separator, handshake_outcome,
    kept_protocols, list_items, nothing_found, offered, separator_at, sha1_of, CtxEnd, CtxScan,
    WsContextView, WsHandshakeError, KEY_LIMIT,
};
use crate::ws_parser::{accept_text, connect_text, is_connect_request};
use vstd::prelude::*;
use vstd::utf8::{encode_utf8, encode_utf8_decode_utf8, encode_utf8_valid_utf8};

verus! {

/// A letter, a digit, or one of the marks that Base64 uses.
spec fn base64_mark(c: char) -> bool {
    ||| 'A' <= c <= 'Z'
    ||| 'a' <= c <= 'z'
    ||| '0' <= c <= '9'
    ||| c == '+'
    ||| c == '/'
    ||| c == '='
}

/// Base64 is made of letters, digits and a few marks.
proof fn lemma_base64_marks(bytes: Seq<u8>, i: int)
    requires
        0 <= i < base64_text(bytes).len(),
    ensures
        base64_mark(base64_text(bytes)[i]),
    decreases bytes.len(),
{
    if bytes.len() > 0 && i >= 4 {
        lemma_base64_marks(bytes.skip(3), i - 4);
    }
}

/// One header more is one line more.
proof fn lemma_one_more(list: Seq<HeaderEntry>, header: HeaderEntry)
    ensures
        header_lines(list.push(header)) == header_lines(list) + header_line(header),
{
    assert(list.push(header).drop_last() =~= list);
}

/// The headers that a server opens a WebSocket with.
pub open spec fn accept_headers(answer: Seq<char>) -> Seq<HeaderEntry> {
    seq![
        HeaderEntry { name: "Connection"@, value: "Upgrade"@ },
        HeaderEntry { name: "Upgrade"@, value: "websocket"@ },
        HeaderEntry { name: "Sec-WebSocket-Accept"@, value: answer },
    ]
}

/// The response that a server opens a WebSocket with is a head.
proof fn lemma_accept_text(answer: Seq<char>)
    ensures
        accept_text(answer) == head_text(101, "Switching Protocols"@, accept_headers(answer)),
{
    let none = Seq::<HeaderEntry>::empty();
    let all = accept_headers(answer);
    let one = none.push(all[0]);
    let two = one.push(all[1]);
    lemma_one_more(none, all[0]);
    lemma_one_more(one, all[1]);
    lemma_one_more(two, all[2]);
    assert(two.push(all[2]) =~= all);
    assert(header_lines(none) =~= Seq::empty());
    assert(decimal(101) =~= seq!['1', '0', '1']) by {
        reveal_with_fuel(decimal, 3);
        assert(digit_char(1) == '1');
        assert(digit_char(0) == '0');
    }
    let front = "HTTP/1.1 101 Switching Protocols\r\nConnection: Upgrade\r\nUpgrade: websocket\r\n"@;
    assert(front =~= status_line(101, "Switching Protocols"@) + header_line(all[0]) + header_line(
        all[1],
    )) by {
        reveal_strlit(
            "HTTP/1.1 101 Switching Protocols\r\nConnection: Upgrade\r\nUpgrade: websocket\r\n",
        );
        reveal_strlit("HTTP/1.1 ");
        reveal_strlit(" ");
        reveal_strlit("Switching Protocols");
        reveal_strlit("\r\n");
        reveal_strlit(": ");
        reveal_strlit("Connection");
        reveal_strlit("Upgrade");
        reveal_strlit("websocket");
    }
    assert("Sec-WebSocket-Accept: "@ =~= "Sec-WebSocket-Accept"@ + ": "@) by {
        reveal_strlit("Sec-WebSocket-Accept: ");
        reveal_strlit("Sec-WebSocket-Accept");
        reveal_strlit(": ");
    }
    assert("\r\n\r\n"@ =~= "\r\n"@ + "\r\n"@) by {
        reveal_strlit("\r\n\r\n");
        reveal_strlit("\r\n");
    }
    assert(accept_text(answer) =~= head_text(101, "Switching Protocols"@, all));
}

/// The headers that a client opens a WebSocket with.
pub open spec fn connect_headers(
    host: Seq<char>,
    origin: Seq<char>,
    key: Seq<char>,
) -> Seq<HeaderEntry> {
    seq![
        HeaderEntry { name: "Host"@, value: host },
        HeaderEntry { name: "Upgrade"@, value: "websocket"@ },
        HeaderEntry { name: "Connection"@, value: "Upgrade"@ },
        HeaderEntry { name: "Sec-WebSocket-Key"@, value: key },
        HeaderEntry { name: "Origin"@, value: origin },
        HeaderEntry { name: "Sec-WebSocket-Protocol"@, value: Seq::empty() },
        HeaderEntry { name: "Sec-WebSocket-Version"@, value: "13"@ },
    ]
}

/// Text in parts may be put together in any order.
proof fn lemma_regroup(
    m: Seq<char>,
    h: Seq<char>,
    mid: Seq<char>,
    k: Seq<char>,
    o: Seq<char>,
    last: Seq<char>,
    end: Seq<char>,
)
    ensures
        m + (h + (end + mid)) + (k + (end + o)) + (end + last) == m + ((h + end) + mid + (k + end)
            + (o + end)) + last,
{
    assert(m + (h + (end + mid)) + (k + (end + o)) + (end + last) =~= m + ((h + end) + mid + (k
        + end) + (o + end)) + last);
}

/// The fixed parts of the request that a client opens a WebSocket with.
proof fn lemma_connect_parts()
    ensures
        "GET "@ == "GET"@ + " "@,
        " HTTP/1.1\r\nHost: "@ == " HTTP/1.1\r\n"@ + "Host"@ + ": "@,
        "\r\nOrigin: "@ == "\r\n"@ + "Origin"@ + ": "@,
{
    reveal_strlit("GET ");
    reveal_strlit("GET");
    reveal_strlit(" ");
    reveal_strlit(" HTTP/1.1\r\nHost: ");
    reveal_strlit(" HTTP/1.1\r\n");
    reveal_strlit("Host");
    reveal_strlit(": ");
    reveal_strlit("\r\nOrigin: ");
    reveal_strlit("\r\n");
    reveal_strlit("Origin");
    assert("GET "@ =~= "GET"@ + " "@);
    assert(" HTTP/1.1\r\nHost: "@ =~= " HTTP/1.1\r\n"@ + "Host"@ + ": "@);
    assert("\r\nOrigin: "@ =~= "\r\n"@ + "Origin"@ + ": "@);
}

proof fn lemma_upgrade_lines()
    ensures
        "\r\nUpgrade: websocket\r\nConnection: Upgrade\r\nSec-WebSocket-Key: "@ == "\r\n"@ + (
        header_line(HeaderEntry { name: "Upgrade"@, value: "websocket"@ }) + header_line(
            HeaderEntry { name: "Connection"@, value: "Upgrade"@ },
        )) + "Sec-WebSocket-Key"@ + ": "@,
{
    reveal_strlit("\r\nUpgrade: websocket\r\nConnection: Upgrade\r\nSec-WebSocket-Key: ");
    reveal_strlit("\r\n");
    reveal_strlit("Upgrade");
    reveal_strlit("websocket");
    reveal_strlit("Connection");
    reveal_strlit("Sec-WebSocket-Key");
    reveal_strlit(": ");
    assert("\r\nUpgrade: websocket\r\nConnection: Upgrade\r\nSec-WebSocket-Key: "@ =~= "\r\n"@ + (
    header_line(HeaderEntry { name: "Upgrade"@, value: "websocket"@ }) + header_line(
        HeaderEntry { name: "Connection"@, value: "Upgrade"@ },
    )) + "Sec-WebSocket-Key"@ + ": "@);
}

proof fn lemma_last_lines()
    ensures
        "\r\nSec-WebSocket-Protocol: \r\nSec-WebSocket-Version: 13\r\n\r\n"@ == "\r\n"@ + (
        header_line(
            HeaderEntry { name: "Sec-WebSocket-Protocol"@, value: Seq::empty() },
        ) + header_line(HeaderEntry { name: "Sec-WebSocket-Version"@, value: "13"@ }) + "\r\n"@),
{
    reveal_strlit("\r\nSec-WebSocket-Protocol: \r\nSec-WebSocket-Version: 13\r\n\r\n");
    reveal_strlit("\r\n");
    reveal_strlit("Sec-WebSocket-Protocol");
    reveal_strlit("Sec-WebSocket-Version");
    reveal_strlit("13");
    reveal_strlit(": ");
    assert("\r\nSec-WebSocket-Protocol: \r\nSec-WebSocket-Version: 13\r\n\r\n"@ =~= "\r\n"@ + (
    header_line(HeaderEntry { name: "Sec-WebSocket-Protocol"@, value: Seq::empty() })
        + header_line(HeaderEntry { name: "Sec-WebSocket-Version"@, value: "13"@ }) + "\r\n"@));
}

/// The lines of the headers that a client opens a WebSocket with.
proof fn lemma_connect_lines(host: Seq<char>, origin: Seq<char>, key: Seq<char>)
    ensures
        ({
            let all = connect_headers(host, origin, key);
            header_lines(all) == header_line(all[0]) + header_line(all[1]) + header_line(all[2])
                + header_line(all[3]) + header_line(all[4]) + header_line(all[5]) + header_line(
                all[6],
            )
        }),
{
    let all = connect_headers(host, origin, key);
    let l0 = Seq::<HeaderEntry>::empty();
    let l1 = l0.push(all[0]);
    let l2 = l1.push(all[1]);
    let l3 = l2.push(all[2]);
    let l4 = l3.push(all[3]);
    let l5 = l4.push(all[4]);
    let l6 = l5.push(all[5]);
    lemma_one_more(l0, all[0]);
    lemma_one_more(l1, all[1]);
    lemma_one_more(l2, all[2]);
    lemma_one_more(l3, all[3]);
    lemma_one_more(l4, all[4]);
    lemma_one_more(l5, all[5]);
    lemma_one_more(l6, all[6]);
    assert(l6.push(all[6]) =~= all);
    assert(header_lines(l0) + header_line(all[0]) =~= header_line(all[0]));
}

/// The request that a client opens a WebSocket with is the head of a request.
proof fn lemma_connect_text(path: Seq<char>, host: Seq<char>, origin: Seq<char>, key: Seq<char>)
    ensures
        connect_text(path, host, origin, key) == request_text(
            "GET"@,
            path,
            connect_headers(host, origin, key),
        ),
{
    let all = connect_headers(host, origin, key);
    lemma_connect_lines(host, origin, key);
    lemma_connect_parts();
    lemma_upgrade_lines();
    lemma_last_lines();
    let m = request_line("GET"@, path);
    let end = "\r\n"@;
    let h = "Host"@ + ": "@ + host;
    let mid = header_line(all[1]) + header_line(all[2]);
    let k = "Sec-WebSocket-Key"@ + ": "@ + key;
    let o = "Origin"@ + ": "@ + origin;
    let last = header_line(all[5]) + header_line(all[6]) + end;
    lemma_regroup(m, h, mid, k, o, last, end);
    assert(request_text("GET"@, path, all) =~= m + ((h + end) + mid + (k + end) + (o + end)) + last)
        by {
        lemma_right(m, header_line(all[0]), header_line(all[1]), header_line(all[2]), header_line(
            all[3],
        ), header_line(all[4]), header_line(all[5]), header_line(all[6]), end);
    }
    assert(connect_text(path, host, origin, key) =~= m + (h + (end + mid)) + (k + (end + o)) + (end
        + last)) by {
        lemma_left("GET"@ + " "@ + path, " HTTP/1.1\r\n"@, "Host"@ + ": "@, host, end + mid,
            "Sec-WebSocket-Key"@ + ": "@, key, end, "Origin"@ + ": "@, origin, end + last);
    }
}

proof fn lemma_right(
    m: Seq<char>,
    a: Seq<char>,
    b: Seq<char>,
    c: Seq<char>,
    d: Seq<char>,
    e: Seq<char>,
    f: Seq<char>,
    g: Seq<char>,
    end: Seq<char>,
)
    ensures
        m + (a + b + c + d + e + f + g) + end == m + (a + (b + c) + d + e) + (f + g + end),
{
    assert(m + (a + b + c + d + e + f + g) + end =~= m + (a + (b + c) + d + e) + (f + g + end));
}

proof fn lemma_left(
    g: Seq<char>,
    v: Seq<char>,
    hn: Seq<char>,
    host: Seq<char>,
    mid: Seq<char>,
    kn: Seq<char>,
    key: Seq<char>,
    end: Seq<char>,
    on: Seq<char>,
    origin: Seq<char>,
    last: Seq<char>,
)
    ensures
        g + (v + hn) + host + (mid + kn) + key + (end + on) + origin + last == (g + v) + ((hn
            + host) + mid) + ((kn + key) + (end + (on + origin))) + last,
{
    assert(g + (v + hn) + host + (mid + kn) + key + (end + on) + origin + last =~= (g + v) + ((hn
        + host) + mid) + ((kn + key) + (end + (on + origin))) + last);
}

/// The table of the headers that a server opens a WebSocket with.
spec fn accept_table(answer: Seq<char>) -> HeaderMap {
    let list = accept_headers(answer);
    Map::empty().insert(lower(list[0].name), list[0]).insert(lower(list[1].name), list[1]).insert(
        lower(list[2].name),
        list[2],
    )
}

proof fn lemma_accept_table(answer: Seq<char>)
    ensures
        lists(accept_table(answer), accept_headers(answer)),
        header_length(accept_table(answer)) is None,
{
    reveal_strlit("Connection");
    reveal_strlit("Upgrade");
    reveal_strlit("Sec-WebSocket-Accept");
    reveal_strlit("Content-Length");
    let list = accept_headers(answer);
    let map = accept_table(answer);
    assert(lower(list[0].name).len() == 10);
    assert(lower(list[1].name).len() == 7);
    assert(lower(list[2].name).len() == 20);
    assert(lower("Content-Length"@).len() == 14);
    assert(list.len() == 3);
    assert forall|i: int| 0 <= i < list.len() implies map.contains_pair(
        lower((#[trigger] list[i]).name),
        list[i],
    ) by {
        assert(i == 0 || i == 1 || i == 2);
    }
    assert forall|key: Seq<char>| map.contains_key(key) implies exists|i: int|
        0 <= i < list.len() && lower((#[trigger] list[i]).name) == key by {
        if key == lower(list[0].name) {
            assert(lower(list[0].name) == key);
        } else if key == lower(list[1].name) {
            assert(lower(list[1].name) == key);
        } else {
            assert(lower(list[2].name) == key);
        }
    }
}

/// A name of a header or a value that is written with letters, digits and dashes.
proof fn lemma_accept_plain(answer: Seq<char>)
    requires
        forall|i: int| 0 <= i < answer.len() ==> base64_mark(#[trigger] answer[i]),
    ensures
        forall|i: int| 0 <= i < 3 ==> plain_header(#[trigger] accept_headers(answer)[i]),
        !"Switching Protocols"@.contains('\n'),
{
    reveal_strlit("Connection");
    reveal_strlit("Upgrade");
    reveal_strlit("websocket");
    reveal_strlit("Sec-WebSocket-Accept");
    reveal_strlit("Switching Protocols");
    let list = accept_headers(answer);
    assert forall|i: int| 0 <= i < answer.len() implies answer[i] != '\n' && !white_space(
        #[trigger] answer[i],
    ) by {
        assert(base64_mark(answer[i]));
    }
    assert(plain_header(list[0]));
    assert(plain_header(list[1]));
    assert(plain_header(list[2]));
    assert forall|i: int| 0 <= i < 3 implies plain_header(#[trigger] list[i]) by {
        assert(i == 0 || i == 1 || i == 2);
    }
}

/// The response that a server opens a WebSocket with is understood by the client, and accepted: it
/// is read as a response that the client with that key takes for the right one. Nothing comes
/// behind it yet.
pub proof fn law_answer_is_accepted(key: Seq<char>, cap: nat)
    ensures
        ({
            let bytes = encode_utf8(accept_text(accept_string(key)));
            let turn = response_turn(
                Some(ReadView::Data(bytes)),
                BufferView { data: Seq::empty(), cap },
                ResponseStateView::Empty,
            );
            &&& turn.step matches ResponseStepView::Done(response)
            &&& handshake_outcome(response, key) is None
            &&& turn.header == (BufferView { data: Seq::<u8>::empty(), cap })
            &&& turn.state is Empty
        }),
{
    let answer = accept_string(key);
    let list = accept_headers(answer);
    let phrase = "Switching Protocols"@;
    let bytes = encode_utf8(accept_text(answer));
    let view = ResponseHeadView { status: 101, headers: accept_table(answer) };
    assert forall|i: int| 0 <= i < answer.len() implies base64_mark(#[trigger] answer[i]) by {
        lemma_base64_marks(
            sha1_of(
                encode_utf8(key + "258EAFA5-E914-47DA-95CA-C5AB0DC85B11"@),
            ),
            i,
        );
    }
    lemma_accept_text(answer);
    lemma_accept_table(answer);
    lemma_accept_plain(answer);
    assert(is_head_with(bytes, view, phrase, list));
    lemma_head_read(bytes, view, response_head(bytes));
    let first = status_line(101, phrase);
    lemma_status_is_line(101, phrase);
    assert(all_telling(list));
    lemma_lines_are_full(first, list);
    let lines = encode_utf8(first + header_lines(list));
    lemma_encode_concat(first + header_lines(list), "\r\n"@);
    lemma_line_end();
    let none = Seq::<u8>::empty();
    let header = BufferView { data: none, cap }.appended(bytes);
    assert(header.data =~= bytes);
    assert(header.data =~= lines + seq![13u8, 10u8] + none);
    lemma_head_ends(lines, none);
    let end = bytes.len() as int;
    assert(header.data.take(end) =~= bytes);
    assert(header.data.skip(end) =~= none);
    reveal_strlit("Sec-WebSocket-Accept");
    let name = lower("Sec-WebSocket-Accept"@);
    assert(name.len() == 20);
    assert(view.headers[name].value == answer);
}

/// Headers that say nothing of a WebSocket are passed over.
proof fn lemma_ctx_rest(headers: Seq<HeaderView>, found: CtxScan)
    requires
        forall|i: int| 0 <= i < headers.len() ==> (#[trigger] headers[i]).name.len() == 0,
    ensures
        ctx_scan(headers, found) == CtxEnd::Done(found),
    decreases headers.len(),
{
    if headers.len() > 0 {
        reveal_strlit("Upgrade");
        reveal_strlit("Sec-WebSocket-Protocol");
        reveal_strlit("Sec-WebSocket-Key");
        assert(headers[0].name.len() == 0);
        assert("Upgrade"@.len() == 7);
        let rest = headers.skip(1);
        assert forall|i: int| 0 <= i < rest.len() implies (#[trigger] rest[i]).name.len() == 0 by {
            assert(rest[i] == headers[i + 1]);
        }
        lemma_ctx_rest(rest, found);
    }
}

/// Looking at one header more.
proof fn lemma_ctx_step(headers: Seq<HeaderView>, i: int, found: CtxScan)
    requires
        0 <= i < headers.len(),
    ensures
        headers.skip(i)[0] == headers[i],
        headers.skip(i).skip(1) == headers.skip(i + 1),
        headers.skip(i).len() > 0,
{
    assert(headers.skip(i).skip(1) =~= headers.skip(i + 1));
}

/// A list without items has one, which is empty.
proof fn lemma_empty_list()
    ensures
        list_items(Seq::empty()) == seq![Seq::<char>::empty()],
{
    let text = Seq::<char>::empty();
    assert(!exists|i: int| first_separator(text, i)) by {
        if exists|i: int| first_separator(text, i) {
            let i = choose|i: int| first_separator(text, i);
            assert(separator_at(text, i));
        }
    }
}

/// The headers that a client opens a WebSocket with say that it wants one, and give its key.
proof fn lemma_connect_ctx(host: Seq<char>, origin: Seq<char>, key: Seq<char>)
    requires
        encode_utf8(key).len() <= KEY_LIMIT,
    ensures
        offered(ctx_end(received(connect_headers(host, origin, key)))) == Ok::<
            Option<WsContextView>,
            WsHandshakeError,
        >(Some(WsContextView { protocols: seq![Seq::empty()], key })),
{
    let list = connect_headers(host, origin, key);
    let all = received(list);
    let f0 = nothing_found();
    let f1 = CtxScan { is_websocket: true, ..f0 };
    let f2 = CtxScan { key, ..f1 };
    let f3 = CtxScan { protocols: seq![Seq::empty()], ..f2 };
    encode_utf8_valid_utf8("websocket"@);
    encode_utf8_decode_utf8("websocket"@);
    encode_utf8_valid_utf8(key);
    encode_utf8_decode_utf8(key);
    encode_utf8_valid_utf8(Seq::empty());
    encode_utf8_decode_utf8(Seq::empty());
    lemma_ctx_step(all, 0, f0);
    lemma_ctx_step(all, 1, f0);
    lemma_ctx_step(all, 2, f1);
    lemma_ctx_step(all, 3, f1);
    lemma_ctx_step(all, 4, f2);
    lemma_ctx_step(all, 5, f2);
    lemma_ctx_step(all, 6, f3);
    lemma_names_differ();
    assert(all.skip(0) =~= all);
    let rest = all.skip(7);
    assert forall|i: int| 0 <= i < rest.len() implies (#[trigger] rest[i]).name.len() == 0 by {
        assert(rest[i] == all[i + 7]);
    }
    lemma_ctx_rest(rest, f3);
    assert(ctx_scan(all.skip(6), f3) == CtxEnd::Done(f3));
    lemma_empty_list();
    let none = Seq::<Seq<char>>::empty();
    let item = seq![Seq::<char>::empty()];
    assert(item.skip(1) =~= none);
    assert(none.push(Seq::empty()) =~= item);
    assert(kept_protocols(none, item) == Some(item)) by {
        reveal_with_fuel(kept_protocols, 2);
    }
    assert(ctx_scan(all.skip(5), f2) == CtxEnd::Done(f3));
    assert(ctx_scan(all.skip(4), f2) == CtxEnd::Done(f3));
    assert(ctx_scan(all.skip(3), f1) == CtxEnd::Done(f3));
    assert(ctx_scan(all.skip(2), f1) == CtxEnd::Done(f3));
    assert(ctx_scan(all.skip(1), f0) == CtxEnd::Done(f3));
    assert(ctx_scan(all.skip(0), f0) == CtxEnd::Done(f3));
}

/// Names that are not the same.
proof fn lemma_names_differ()
    ensures
        "Host"@ != "Upgrade"@,
        "Host"@ != "Sec-WebSocket-Protocol"@,
        "Host"@ != "Sec-WebSocket-Key"@,
        "Connection"@ != "Upgrade"@,
        "Connection"@ != "Sec-WebSocket-Protocol"@,
        "Connection"@ != "Sec-WebSocket-Key"@,
        "Origin"@ != "Upgrade"@,
        "Origin"@ != "Sec-WebSocket-Protocol"@,
        "Origin"@ != "Sec-WebSocket-Key"@,
        "Sec-WebSocket-Key"@ != "Upgrade"@,
        "Sec-WebSocket-Key"@ != "Sec-WebSocket-Protocol"@,
        "Sec-WebSocket-Protocol"@ != "Upgrade"@,
        "Sec-WebSocket-Version"@ != "Upgrade"@,
        "Sec-WebSocket-Version"@ != "Sec-WebSocket-Protocol"@,
        "Sec-WebSocket-Version"@ != "Sec-WebSocket-Key"@,
{
    reveal_strlit("Host");
    reveal_strlit("Upgrade");
    reveal_strlit("Connection");
    reveal_strlit("Origin");
    reveal_strlit("Sec-WebSocket-Key");
    reveal_strlit("Sec-WebSocket-Protocol");
    reveal_strlit("Sec-WebSocket-Version");
    assert("Host"@.len() == 4);
    assert("Upgrade"@.len() == 7);
    assert("Connection"@.len() == 10);
    assert("Origin"@.len() == 6);
    assert("Sec-WebSocket-Key"@.len() == 17);
    assert("Sec-WebSocket-Protocol"@.len() == 22);
    assert("Sec-WebSocket-Version"@.len() == 21);
}

/// The headers that a client opens a WebSocket with can be sent.
proof fn lemma_connect_sendable(host: Seq<char>, origin: Seq<char>, key: Seq<char>)
    requires
        is_field(host),
        is_field(origin),
        is_field(key),
    ensures
        forall|i: int| 0 <= i < 7 ==> is_sendable(#[trigger] connect_headers(host, origin, key)[i]),
{
    reveal_strlit("Host");
    reveal_strlit("Upgrade");
    reveal_strlit("websocket");
    reveal_strlit("Connection");
    reveal_strlit("Origin");
    reveal_strlit("Sec-WebSocket-Key");
    reveal_strlit("Sec-WebSocket-Protocol");
    reveal_strlit("Sec-WebSocket-Version");
    reveal_strlit("13");
    let list = connect_headers(host, origin, key);
    assert(is_token(list[0].name));
    assert(is_sendable(list[1]));
    assert(is_sendable(list[2]));
    assert(is_token(list[3].name));
    assert(is_token(list[4].name));
    assert(is_sendable(list[5]));
    assert(is_sendable(list[6]));
    assert forall|i: int| 0 <= i < 7 implies is_sendable(#[trigger] list[i]) by {
        assert(i == 0 || i == 1 || i == 2 || i == 3 || i == 4 || i == 5 || i == 6);
    }
}

/// The request that a client opens a WebSocket with is understood by the server: it is read as a
/// request for that path which asks for a WebSocket with that key. The path, the host and the
/// origin must be such that they can be sent.
pub proof fn law_handshake_is_understood(
    path: Seq<char>,
    host: Seq<char>,
    origin: Seq<char>,
    key: Seq<char>,
    request: Seq<u8>,
    cap: nat,
    max_body: Option<usize>,
    peer_ip: Option<Seq<char>>,
)
    requires
        is_connect_request(path, host, origin, key, request),
        is_target(path),
        is_field(host),
        is_field(origin),
        request.len() <= usize::MAX,
        request.len() <= size_limit(max_body),
    ensures
        ({
            let turn = request_turn(
                Some(ReadView::Data(request)),
                BufferView { data: Seq::empty(), cap },
                None,
                max_body,
                peer_ip,
            );
            &&& turn.step matches RequestStepView::Done(read)
            &&& read.path == Some(path)
            &&& offered(ctx_end(read.headers)) matches Ok(Some(ctx))
            &&& ctx.key == key
            &&& turn.header == (BufferView { data: Seq::<u8>::empty(), cap })
            &&& turn.pending is None
        }),
{
    let list = connect_headers(host, origin, key);
    let raw = choose|raw: Seq<u8>| raw.len() == 16 && key == #[trigger] base64_text(raw);
    assert forall|i: int| 0 <= i < key.len() implies base64_mark(#[trigger] key[i]) by {
        lemma_base64_marks(raw, i);
    }
    assert(is_field(key)) by {
        assert(base64_mark(key[0]));
        assert(base64_mark(key.last()));
    }
    lemma_connect_text(path, host, origin, key);
    lemma_connect_sendable(host, origin, key);
    reveal_strlit("GET");
    assert(is_token("GET"@));
    let none = Seq::<u8>::empty();
    let header = BufferView { data: none, cap }.appended(request);
    assert(header.data =~= request);
    assert(list.len() == 7);
    assert(starts_with_head(request, "GET"@, path, list)) by {
        assert forall|i: int| 0 <= i < list.len() implies is_sendable(#[trigger] list[i]) by {}
        assert(request =~= request.take(request.len() as int));
    }
    law_sent_head_is_settled(request, "GET"@, path, list);
    lemma_no_content_length(host, origin, key);
    lemma_connect_ctx(host, origin, key);
    assert(request.take(request.len() as int) =~= request);
    assert(header.consumed(request.len() as int).data =~= none);
}

/// The request that a client opens a WebSocket with has no body.
proof fn lemma_no_content_length(host: Seq<char>, origin: Seq<char>, key: Seq<char>)
    ensures
        declared_length(received(connect_headers(host, origin, key))) == Some(0nat),
{
    reveal_strlit("Host");
    reveal_strlit("Upgrade");
    reveal_strlit("Connection");
    reveal_strlit("Origin");
    reveal_strlit("Sec-WebSocket-Key");
    reveal_strlit("Sec-WebSocket-Protocol");
    reveal_strlit("Sec-WebSocket-Version");
    reveal_strlit("content-length");
    let list = connect_headers(host, origin, key);
    let all = received(list);
    assert(lower("content-length"@).len() == 14);
    assert forall|i: int| 0 <= i < all.len() implies !is_content_length(#[trigger] all[i]) by {
        assert(lower(all[i].name).len() == all[i].name.len());
        assert(i < 7 ==> all[i].name == list[i].name);
        assert(i == 0 || i == 1 || i == 2 || i == 3 || i == 4 || i == 5 || i == 6 || i >= 7);
        assert(all[i].name.len() != 14);
    }
    lemma_no_length(all);
}

} // verus!
