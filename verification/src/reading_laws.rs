//! What is read of numbers, lengths and lists, and what is refused.
use crate::buffer::{joined, BufferView};
use crate::chunked::{
    chunks_run, crlf_at, first_crlf, hex_digit, hex_uint, hex_value, lemma_find_crlf, ChunksEnd,
};
use crate::chunked_laws::{chunk_line, chunk_ok, SentChunk};
use crate::error::{error_text, HttpErrorView, HttpParseError};
use crate::headers::{header_length, lower, HeaderEntry};
use crate::method::method_named;
use crate::request::{
    declared_length, measured, origin_of, parsed_request, request_head, request_size, HeaderView,
    RequestHeadView,
};
use crate::request_build::request_text;
use crate::request_read::{request_turn, RequestFault, RequestStepView};
use crate::response_head::ResponseHeadView;
use crate::response_read::{
    head_end, parsed_head, response_turn, ResponseStateView, ResponseStepView,
};
use crate::sent_request::{can_be_sent, lemma_sent_read, received, starts_with_head};
use crate::stream::ReadView;
use crate::text::{
    all_digits, digits_value, is_digit, lossy_text, number_in, quoted, unsigned_part,
};
use crate::ws_handshake::{first_separator, kept_protocols, list_items, separator_at};
use vstd::arithmetic::div_mod::{lemma_add_mod_noop, lemma_mul_mod_noop_left, lemma_small_mod};
use vstd::prelude::*;
use vstd::utf8::encode_utf8;

verus! {

/// Numbers are read digit by digit: a digit behind a number gives ten times the number and the
/// digit, as long as a machine word holds it. No text is no number, and nothing but digits may
/// stand in one, behind a plus sign that may come first.
pub proof fn law_numbers_are_read(text: Seq<u8>, c: u8)
    ensures
        number_in(Seq::empty()) is None,
        48 <= c <= 57 ==> number_in(seq![c]) == Some((c - 48) as nat),
        !(48 <= c <= 57) ==> number_in(text.push(c)) is None,
        48 <= c <= 57 ==> (number_in(text) matches Some(n) ==> number_in(text.push(c)) == if n * 10
            + (c - 48) <= usize::MAX {
            Some((n * 10 + (c - 48)) as nat)
        } else {
            None
        }),
        number_in(text) matches Some(n) ==> n <= usize::MAX,
{
    let more = text.push(c);
    let one = seq![c];
    assert(unsigned_part(Seq::<u8>::empty()).len() == 0);
    if 48 <= c <= 57 {
        assert(unsigned_part(one) =~= one);
        assert(one.drop_last() =~= Seq::<u8>::empty());
        assert(digits_value(one.drop_last()) == 0);
        assert(digits_value(one) == (c - 48) as nat);
        assert forall|i: int| 0 <= i < one.len() implies is_digit(#[trigger] one[i]) by {}
        assert(all_digits(one));
    }
    let digits = unsigned_part(more);
    if text.len() == 0 {
        assert(more =~= one);
        if c == 43 {
            assert(digits.len() == 0);
        } else if !(48 <= c <= 57) {
            assert(!is_digit(digits[0]));
        }
    } else {
        assert(more[0] == text[0]);
        let before = unsigned_part(text);
        assert(digits =~= before.push(c));
        assert(digits[digits.len() - 1] == c);
        assert(digits.drop_last() =~= before);
        if !(48 <= c <= 57) {
            assert(!is_digit(digits[digits.len() - 1]));
        } else if number_in(text) is Some {
            assert forall|i: int| 0 <= i < digits.len() implies is_digit(#[trigger] digits[i]) by {
                if i < before.len() {
                    assert(digits[i] == before[i]);
                }
            }
        }
    }
}

/// The value of a hexadecimal digit, in capitals or not; nothing else is one.
pub proof fn law_hex_digits(n: nat, b: u8)
    requires
        n < 16,
    ensures
        n < 10 ==> hex_digit((48 + n) as u8) == Some(n),
        n >= 10 ==> hex_digit((97 + n - 10) as u8) == Some(n) && hex_digit((65 + n - 10) as u8)
            == Some(n),
        hex_digit(b) is Some <==> 48 <= b <= 57 || 97 <= b <= 102 || 65 <= b <= 70,
{
}

/// The length of a chunk is read digit by digit: a digit behind a number gives sixteen times the
/// number and the digit. Only hexadecimal digits may stand in it, and no more than sixteen.
pub proof fn law_hex_numbers_are_read(text: Seq<u8>, c: u8)
    ensures
        hex_uint(Seq::empty()) == Ok::<nat, Seq<char>>(0),
        hex_uint(text) is Ok && text.len() < 16 ==> match hex_digit(c) {
            Some(v) => {
                let n = (hex_uint(text)->Ok_0 * 16 + v) as nat;
                n <= usize::MAX ==> hex_uint(text.push(c)) == Ok::<nat, Seq<char>>(n)
            },
            None => hex_uint(text.push(c)) is Err,
        },
        text.len() > 16 ==> hex_uint(text) is Err,
{
    let more = text.push(c);
    lemma_small_mod(0, (usize::MAX + 1) as nat);
    if hex_uint(text) is Ok && text.len() < 16 {
        assert(more.drop_last() =~= text);
        assert(more[text.len() as int] == c);
        if let Some(v) = hex_digit(c) {
            assert forall|i: int| 0 <= i < 16 && i < more.len() implies hex_digit(
                #[trigger] more[i],
            ) is Some by {
                if i < text.len() {
                    assert(more[i] == text[i]);
                }
            }
            let m = usize::MAX + 1;
            let a = hex_value(text) as int;
            let n = hex_uint(text)->Ok_0 as int;
            assert(hex_value(more) == a * 16 + v);
            lemma_mul_mod_noop_left(a, 16, m);
            lemma_add_mod_noop(a * 16, v as int, m);
            lemma_add_mod_noop(n * 16, v as int, m);
            if n * 16 + v <= usize::MAX {
                lemma_small_mod((n * 16 + v) as nat, m as nat);
            }
        }
    }
}

/// A chunk must be followed by a line end, and its length must be a number: what is sent otherwise
/// is no body in chunks.
pub proof fn law_bad_chunks_are_refused(
    chunk: SentChunk,
    a: u8,
    b: u8,
    tail: Seq<u8>,
    line: Seq<u8>,
    at: int,
    bad: int,
)
    requires
        chunk_ok(chunk),
        !(a == 13 && b == 10),
        first_crlf(line, at),
        0 <= bad < at,
        bad < 16,
        hex_digit(line[bad]) is None,
    ensures
        chunks_run(chunk_line(chunk) + chunk.piece + seq![a, b] + tail, Seq::empty()).end
            is IllegalBody,
        chunks_run(line, Seq::empty()).end is IllegalBody,
{
    lemma_find_crlf(line, at);
    assert(line.take(at)[bad] == line[bad]);
    assert(hex_uint(line.take(at)) is Err);
    let digits = chunk.digits;
    let i = digits.len() as int;
    let n = chunk.piece.len();
    let buf = chunk_line(chunk) + chunk.piece + seq![a, b] + tail;
    let rest = chunk.piece + seq![a, b] + tail;
    assert(crlf_at(buf, i));
    assert forall|j: int| 0 <= j < i implies !crlf_at(buf, j) by {
        assert(buf[j] == digits[j]);
        assert(hex_digit(digits[j]) is Some);
    }
    lemma_find_crlf(buf, i);
    assert(buf.take(i) =~= digits);
    lemma_small_mod(n, (usize::MAX + 1) as nat);
    assert(buf.skip(i + 2) =~= rest);
    let none = Seq::<BufferView>::empty();
    let opened = none.push(BufferView { data: Seq::empty(), cap: n + 2 });
    assert(chunks_run(buf, none) == chunks_run(rest, opened));
    assert(rest.take(n as int + 2) =~= chunk.piece + seq![a, b]);
    let full = BufferView { data: chunk.piece + seq![a, b], cap: n + 2 };
    assert(opened.last().appended(rest.take(n as int + 2)).data =~= full.data);
    let end = full.data.subrange(n as int, n as int + 2);
    assert(end[0] == a && end[1] == b);
    assert(!seq![13u8, 10u8].is_suffix_of(full.data)) by {
        if seq![13u8, 10u8].is_suffix_of(full.data) {
            assert(seq![13u8, 10u8] =~= end);
            assert(end[0] == 13 && end[1] == 10);
        }
    }
}

/// The length of a body is the number in the first header that gives a length, whatever the case of
/// its name; where none does, there is no body; and where that is no number, the head is bad.
pub proof fn law_first_length_counts(headers: Seq<HeaderView>, len: nat)
    ensures
        headers.len() == 0 ==> declared_length(headers) == Some(0nat),
        headers.len() > 0 ==> declared_length(headers) == if lower(headers[0].name) == lower(
            "content-length"@,
        ) {
            number_in(encode_utf8(lossy_text(headers[0].value)))
        } else {
            declared_length(headers.drop_first())
        },
        forall|head: RequestHeadView|
            head.headers == headers ==> match declared_length(headers) {
                Some(n) => #[trigger] measured(
                    Ok::<Option<RequestHeadView>, HttpParseError>(Some(head)),
                ) == Ok::<Option<(nat, nat)>, HttpParseError>(Some((head.len, n))),
                None => measured(Ok::<Option<RequestHeadView>, HttpParseError>(Some(head)))
                    == Err::<Option<(nat, nat)>, HttpParseError>(HttpParseError::HeaderValue),
            },
{
}

/// Where a client comes from is what the first header named `Origin` says, if there is one.
pub proof fn law_first_origin_counts(headers: Seq<HeaderView>)
    ensures
        headers.len() == 0 ==> origin_of(headers) is None,
        headers.len() > 0 ==> origin_of(headers) == if headers[0].name == "Origin"@ {
            Some(headers[0].value)
        } else {
            origin_of(headers.drop_first())
        },
{
}

/// A request is refused, as soon as its head is there, exactly where it is larger than the server
/// takes; where nothing else is said, that is 100 MiB.
pub proof fn law_large_request_is_refused(
    method: Seq<char>,
    resource: Seq<char>,
    list: Seq<HeaderEntry>,
    part: Seq<u8>,
    len: nat,
    cap: nat,
    max_body: Option<usize>,
    peer_ip: Option<Seq<char>>,
)
    requires
        can_be_sent(method, resource, list),
        declared_length(received(list)) == Some(len),
        encode_utf8(request_text(method, resource, list)).len() + len <= usize::MAX,
    ensures
        ({
            let head = encode_utf8(request_text(method, resource, list));
            let limit = match max_body {
                Some(n) => n as int,
                None => 104857600,
            };
            let turn = request_turn(
                Some(ReadView::Data(head + part)),
                BufferView { data: Seq::empty(), cap },
                None,
                max_body,
                peer_ip,
            );
            &&& head.len() + len > limit ==> turn.step == RequestStepView::Failed(
                HttpErrorView::BodyTooLarge,
            )
            &&& head.len() + len <= limit && part.len() >= len ==> turn.step is Done
            &&& head.len() + len <= limit && part.len() < len ==> turn.step
                == RequestStepView::NeedRead(len - part.len())
        }),
{
    let head = encode_utf8(request_text(method, resource, list));
    let header = BufferView { data: Seq::<u8>::empty(), cap }.appended(head + part);
    assert(header.data =~= head + part);
    assert(head =~= header.data.subrange(0, head.len() as int));
    assert(starts_with_head(header.data, method, resource, list));
    lemma_sent_read(header.data, method, resource, list, request_head(header.data));
    assert(request_size(header.data) == Ok::<Option<nat>, HttpParseError>(
        Some(head.len() + len),
    ));
}

/// What is read of a request that came as a whole is what its head says, and what follows the head
/// is its body; what is behind it is left.
pub proof fn law_request_is_what_its_head_says(
    data: Seq<u8>,
    head: RequestHeadView,
    len: nat,
    cap: nat,
    max_body: Option<usize>,
    peer_ip: Option<Seq<char>>,
)
    requires
        parsed_request(data) == Ok::<Option<RequestHeadView>, HttpParseError>(Some(head)),
        declared_length(head.headers) == Some(len),
        head.len + len <= data.len(),
        data.len() <= usize::MAX,
        head.len + len <= match max_body {
            Some(n) => n as int,
            None => 104857600,
        },
    ensures
        ({
            let turn = request_turn(
                Some(ReadView::Data(data)),
                BufferView { data: Seq::empty(), cap },
                None,
                max_body,
                peer_ip,
            );
            &&& turn.step matches RequestStepView::Done(req)
            &&& req.method == method_named(
                match head.method {
                    Some(name) => name,
                    None => ""@,
                },
            )
            &&& req.path == head.path
            &&& req.headers == head.headers
            &&& req.body == data.subrange(head.len as int, (head.len + len) as int)
            &&& req.size == head.len + len
            &&& req.peer_ip == peer_ip
            &&& turn.header.data == data.skip((head.len + len) as int)
            &&& turn.pending is None
        }),
{
    let header = BufferView { data: Seq::<u8>::empty(), cap }.appended(data);
    assert(header.data =~= data);
    let size = (head.len + len) as int;
    assert(data.take(size).skip(head.len as int) =~= data.subrange(head.len as int, size));
    assert(header.consumed(size).data =~= data.skip(size));
}

/// A head that cannot be read is refused; one that has not come as a whole is waited for.
pub proof fn law_bad_heads_are_refused(
    data: Seq<u8>,
    cap: nat,
    max_body: Option<usize>,
    peer_ip: Option<Seq<char>>,
)
    ensures
        ({
            let turn = request_turn(
                Some(ReadView::Data(data)),
                BufferView { data: Seq::empty(), cap },
                None,
                max_body,
                peer_ip,
            );
            match parsed_request(data) {
                Ok(None) => turn.step == RequestStepView::NeedRead(cap - data.len()),
                Err(e) => if e is Token {
                    turn.step == RequestStepView::NeedRead(cap - data.len())
                } else {
                    turn.step == RequestStepView::Failed(HttpErrorView::ParseError(e))
                },
                Ok(Some(head)) => match declared_length(head.headers) {
                    None => turn.step == RequestStepView::Failed(
                        HttpErrorView::ParseError(HttpParseError::HeaderValue),
                    ),
                    Some(len) => head.len + len > usize::MAX ==> turn.step
                        == RequestStepView::Fault(RequestFault::SizeOverflow),
                },
            }
        }),
{
    let header = BufferView { data: Seq::<u8>::empty(), cap }.appended(data);
    assert(header.data =~= data);
}

/// What is read of a response that came as a whole is what its head says, and as many bytes behind
/// the head as its headers say are its body; what is behind them is left. A head that cannot be
/// read is an error.
pub proof fn law_response_is_what_its_head_says(data: Seq<u8>, end: int, cap: nat)
    requires
        head_end(data) == Some(end),
        0 <= end <= data.len(),
    ensures
        ({
            let turn = response_turn(
                Some(ReadView::Data(data)),
                BufferView { data: Seq::empty(), cap },
                ResponseStateView::Empty,
            );
            match parsed_head(data.take(end)) {
                Err(text) => turn.step == ResponseStepView::Failed(
                    HttpErrorView::ParseResponseError(text),
                ),
                Ok(head) => header_length(head.headers) matches Some(len) ==> {
                    &&& end + len <= data.len() ==> (turn.step matches ResponseStepView::Done(read)
                        && {
                        &&& read.status == head.status
                        &&& read.headers == head.headers
                        &&& read.body == data.subrange(end, end + len)
                        &&& turn.header.data == data.skip(end + len)
                        &&& turn.state is Empty
                    })
                    &&& end + len > data.len() ==> turn.step == ResponseStepView::NeedRead(
                        end + len - data.len(),
                    )
                },
            }
        }),
{
    let header = BufferView { data: Seq::<u8>::empty(), cap }.appended(data);
    assert(header.data =~= data);
    if let Ok(head) = parsed_head(data.take(end)) {
        if let Some(len) = header_length(head.headers) {
            if end + len <= data.len() {
                assert(data.skip(end).take(len as int) =~= data.subrange(end, end + len));
                assert(header.consumed(end + len).data =~= data.skip(end + len));
                if end + len == data.len() {
                    assert(data.skip(end) =~= data.subrange(end, end + len));
                    assert(data.skip(end + len) =~= Seq::<u8>::empty());
                }
            }
        }
    }
}

/// A response whose headers give no length has the body that comes in chunks behind its head, if
/// one does: the chunks put together, once the last has come, with what is behind them left. What
/// breaks the format is told. What does not look like chunks is left, and the body is empty.
pub proof fn law_body_comes_in_chunks(
    data: Seq<u8>,
    end: int,
    head: ResponseHeadView,
    more: Seq<u8>,
    chunks: Seq<BufferView>,
    cap: nat,
)
    requires
        head_end(data) == Some(end),
        0 <= end <= data.len(),
        parsed_head(data.take(end)) == Ok::<ResponseHeadView, Seq<char>>(head),
        header_length(head.headers) is None,
    ensures
        ({
            let turn = response_turn(
                Some(ReadView::Data(data)),
                BufferView { data: Seq::empty(), cap },
                ResponseStateView::Empty,
            );
            let run = chunks_run(data.skip(end), Seq::empty());
            match run.end {
                ChunksEnd::Finished => {
                    &&& turn.step matches ResponseStepView::Done(read)
                    &&& read.status == head.status
                    &&& read.headers == head.headers
                    &&& read.body == joined(run.chunks)
                    &&& turn.header.data == run.rest
                    &&& turn.state is Empty
                },
                ChunksEnd::NotChunked => {
                    &&& turn.step matches ResponseStepView::Done(read)
                    &&& read.status == head.status
                    &&& read.headers == head.headers
                    &&& read.body.len() == 0
                    &&& turn.header.data == data.skip(end)
                    &&& turn.state is Empty
                },
                ChunksEnd::IllegalBody(text) => turn.step == ResponseStepView::IllegalBody(text),
                ChunksEnd::Overflow => turn.step is ChunkOverflow,
                ChunksEnd::BufferNotEnough => run.rest.len() < data.len() - end ==> turn.state
                    == ResponseStateView::ReadChunkedBody(head, run.chunks) && turn.header.data
                    == run.rest && turn.step == ResponseStepView::NeedRead(cap - run.rest.len()),
            }
        }),
        ({
            let turn = response_turn(
                Some(ReadView::Data(more)),
                BufferView { data, cap },
                ResponseStateView::ReadChunkedBody(head, chunks),
            );
            let run = chunks_run(data + more, chunks);
            match run.end {
                ChunksEnd::Finished => {
                    &&& turn.step matches ResponseStepView::Done(read)
                    &&& read.status == head.status
                    &&& read.headers == head.headers
                    &&& read.body == joined(run.chunks)
                    &&& turn.header.data == run.rest
                    &&& turn.state is Empty
                },
                ChunksEnd::IllegalBody(text) => turn.step == ResponseStepView::IllegalBody(text),
                ChunksEnd::Overflow => turn.step is ChunkOverflow,
                _ => {
                    &&& turn.step is NotReady
                    &&& turn.state == ResponseStateView::ReadChunkedBody(head, run.chunks)
                    &&& turn.header.data == run.rest
                },
            }
        }),
{
    let header = BufferView { data: Seq::<u8>::empty(), cap }.appended(data);
    assert(header.data =~= data);
    let remaining = data.skip(end);
    assert(remaining.take(0) =~= Seq::<u8>::empty());
    assert(header.consumed(end).data =~= remaining);
    let run = chunks_run(remaining, Seq::empty());
    if run.end is NotChunked {
        lemma_not_chunked(remaining, Seq::empty());
    }
}

/// What does not come in chunks is not empty.
proof fn lemma_not_chunked(buf: Seq<u8>, chunks: Seq<BufferView>)
    ensures
        chunks_run(buf, chunks).end is NotChunked ==> buf.len() > 0,
{
}

/// A client gives a response up whose head does not fit into its buffer, and one that ends too
/// soon.
pub proof fn law_endless_head_is_given_up(
    data: Seq<u8>,
    header: BufferView,
    state: ResponseStateView,
)
    requires
        head_end(header.data + data) is None,
        header.data.len() + data.len() == header.cap,
    ensures
        response_turn(Some(ReadView::Data(data)), header, ResponseStateView::Empty).step
            == ResponseStepView::Failed(HttpErrorView::ReadEOF),
        response_turn(Some(ReadView::Eof), header, state).step == ResponseStepView::Failed(
            HttpErrorView::ReadEOF,
        ),
        response_turn(Some(ReadView::Failed), header, state).step == ResponseStepView::Failed(
            HttpErrorView::ReadEOF,
        ),
{
    assert(header.appended(data).data =~= header.data + data);
}

/// The items of a list are what stands between commas with a space behind them.
pub proof fn law_list_is_taken_apart(item: Seq<char>, rest: Seq<char>)
    requires
        forall|i: int| !separator_at(item, i),
    ensures
        list_items(item) == seq![item],
        list_items(item + ", "@ + rest) == seq![item] + list_items(rest),
{
    reveal_strlit(", ");
    let text = item + ", "@ + rest;
    let n = item.len() as int;
    assert(separator_at(text, n));
    assert forall|j: int| 0 <= j < n implies !separator_at(text, j) by {
        assert(!separator_at(item, j));
        assert(text[j] == item[j]);
        if j + 1 < n {
            assert(text[j + 1] == item[j + 1]);
        }
    }
    assert(first_separator(text, n));
    let i = choose|i: int| first_separator(text, i);
    assert(first_separator(text, i));
    if i < n {
        assert(!separator_at(text, i));
    }
    if n < i {
        assert(!separator_at(text, n));
    }
    assert(text.take(n) =~= item);
    assert(text.skip(n + 2) =~= rest);
    if exists|i: int| first_separator(item, i) {
        let i = choose|i: int| first_separator(item, i);
        assert(separator_at(item, i));
    }
}

/// Of the protocols that a client offers the first three are kept, in order; one of these must not
/// have more than 24 bytes.
pub proof fn law_three_protocols_are_kept(items: Seq<Seq<char>>)
    ensures
        ({
            let n: int = if items.len() < 3 {
                items.len() as int
            } else {
                3
            };
            kept_protocols(Seq::empty(), items) == if forall|i: int|
                0 <= i < n ==> encode_utf8(#[trigger] items[i]).len() <= 24 {
                Some(items.take(n))
            } else {
                None
            }
        }),
{
    reveal_with_fuel(kept_protocols, 5);
    let none = Seq::<Seq<char>>::empty();
    if items.len() == 0 {
        assert(items.take(0) =~= none);
    } else {
        let rest = items.skip(1);
        let one = none.push(items[0]);
        if items.len() == 1 {
            assert(rest.len() == 0);
            assert(items.take(1) =~= one);
        } else {
            assert(rest[0] == items[1]);
            let last = rest.skip(1);
            let two = one.push(items[1]);
            if items.len() == 2 {
                assert(last.len() == 0);
                assert(items.take(2) =~= two);
            } else {
                assert(last[0] == items[2]);
                assert(items.take(3) =~= two.push(items[2]));
            }
        }
    }
}

/// The text of an error is its name, with what it tells in brackets.
pub proof fn law_errors_are_named(e: HttpErrorView)
    ensures
        error_text(e) == match e {
            HttpErrorView::ReadEOF => "ReadEOF"@,
            HttpErrorView::InvalidURI(text) => "InvalidURI"@ + "("@ + quoted(text) + ")"@,
            HttpErrorView::ParseError(e) => "ParseError"@ + "("@ + match e {
                HttpParseError::HeaderName => "HeaderName"@,
                HttpParseError::HeaderValue => "HeaderValue"@,
                HttpParseError::NewLine => "NewLine"@,
                HttpParseError::Status => "Status"@,
                HttpParseError::Token => "Token"@,
                HttpParseError::TooManyHeaders => "TooManyHeaders"@,
                HttpParseError::Version => "Version"@,
            } + ")"@,
            HttpErrorView::ParseResponseError(text) => "ParseResponseError"@ + "("@ + quoted(text)
                + ")"@,
            HttpErrorView::InvalidResponse => "InvalidResponse"@,
            HttpErrorView::BodyTooLarge => "BodyTooLarge"@,
        },
{
}

} // verus!
