//! What holds of reading responses, however they arrive.
use crate::buffer::BufferView;
use crate::chunked::chunks_run;
use crate::chunked_laws::law_chunks_resume;
use crate::headers::{header_length, lists, lower, with_header, HeaderEntry, HeaderMap};
use crate::lines::{all_telling, lemma_head_ends, lemma_line_end, lemma_lines_are_full};
use crate::response::{
    header_lines, is_written, response_bytes, response_with_body, response_with_header,
    status_line, ResponseView,
};
use crate::response_head::{
    head_text, is_head_with, lemma_head_read, lemma_status_is_line, plain_header, ResponseHeadView,
};
use crate::response_read::{
    empty_line, first_match, head_end, lemma_chunks_grow, lemma_head_end, match_at, parsed_head,
    response_room, response_turn, ResponseStateView, ResponseStepView, ResponseTurn,
};
use crate::encoding::{lemma_decimal_digits, lemma_encode_concat, lemma_number_of_decimal};
use crate::stream::ReadView;
use crate::text::decimal;
use vstd::prelude::*;
use vstd::utf8::encode_utf8;

verus! {

/// A head that is there stays where it is when more comes behind it.
pub proof fn law_head_end_stays(a: Seq<u8>, b: Seq<u8>)
    requires
        head_end(a) is Some,
    ensures
        head_end(a + b) == head_end(a),
        4 <= head_end(a)->0 <= a.len(),
{
    let i = choose|i: int| first_match(a, empty_line(), i);
    assert(first_match(a, empty_line(), i));
    let both = a + b;
    assert(both.subrange(i, i + 4) =~= a.subrange(i, i + 4));
    assert(match_at(both, empty_line(), i));
    assert forall|j: int| 0 <= j < i implies !match_at(both, empty_line(), j) by {
        assert(both.subrange(j, j + 4) =~= a.subrange(j, j + 4));
        assert(!match_at(a, empty_line(), j));
    }
    lemma_head_end(both, i);
}

/// Where the first part of what came holds no whole head, reading it and then the rest gives what
/// reading both at once gives.
pub proof fn law_response_head_in_parts(a: Seq<u8>, b: Seq<u8>, header: BufferView)
    ensures
        ({
            let first = response_turn(Some(ReadView::Data(a)), header, ResponseStateView::Empty);
            first.step is NotReady ==> response_turn(
                Some(ReadView::Data(b)),
                first.header,
                first.state,
            ) == response_turn(Some(ReadView::Data(a + b)), header, ResponseStateView::Empty)
        }),
{
    assert(header.appended(a).appended(b).data =~= header.appended(a + b).data);
}

/// Where the first part of what came holds a head with a length, and the second is no more than
/// the rest of the body, reading the first and then the second gives what reading both at once
/// gives.
pub proof fn law_response_sized_in_parts(a: Seq<u8>, b: Seq<u8>, header: BufferView)
    ensures
        ({
            let first = response_turn(Some(ReadView::Data(a)), header, ResponseStateView::Empty);
            first.state is ReadBody && b.len() <= response_room(first.header, first.state)
                ==> response_turn(Some(ReadView::Data(b)), first.header, first.state)
                == response_turn(Some(ReadView::Data(a + b)), header, ResponseStateView::Empty)
        }),
{
    let first = response_turn(Some(ReadView::Data(a)), header, ResponseStateView::Empty);
    let part = header.appended(a);
    let whole = header.appended(a + b);
    if first.state is ReadBody && b.len() <= response_room(first.header, first.state) {
        lemma_whole_head(a, b, header);
        let end = head_end(part.data)->0;
        let head = parsed_head(part.data.take(end))->Ok_0;
        if header_length(head.headers) is Some {
            let len = header_length(head.headers)->0;
            let remaining = part.data.skip(end);
            assert(first.state == ResponseStateView::ReadBody(
                head,
                BufferView { data: remaining, cap: len },
            ));
            assert(whole.data.skip(end).len() <= len);
        }
    }
}

/// Where the first part of what came holds a head and the begin of a body in chunks, and the
/// second the rest, reading the first and then the second gives what reading both at once gives.
pub proof fn law_response_chunked_in_parts(a: Seq<u8>, b: Seq<u8>, header: BufferView)
    ensures
        ({
            let first = response_turn(Some(ReadView::Data(a)), header, ResponseStateView::Empty);
            let second = response_turn(Some(ReadView::Data(b)), first.header, first.state);
            first.state is ReadChunkedBody && second.step is Done ==> second == response_turn(
                Some(ReadView::Data(a + b)),
                header,
                ResponseStateView::Empty,
            )
        }),
{
    let first = response_turn(Some(ReadView::Data(a)), header, ResponseStateView::Empty);
    let part = header.appended(a);
    if first.state is ReadChunkedBody {
        lemma_whole_head(a, b, header);
        let end = head_end(part.data)->0;
        let head = parsed_head(part.data.take(end))->Ok_0;
        let remaining = part.data.skip(end);
        assert(header_length(head.headers) is None);
        lemma_chunks_grow(remaining, Seq::empty());
        law_chunks_resume(remaining, b, Seq::empty());
        lemma_chunks_grow(remaining + b, Seq::empty());
        let second = response_turn(Some(ReadView::Data(b)), first.header, first.state);
        let run = chunks_run(remaining, Seq::empty());
        let all = chunks_run(remaining + b, Seq::empty());
        assert(all == chunks_run(run.rest + b, run.chunks));
        if second.step is Done {
            assert(all.end is Finished);
        }
    }
}

/// What holds of two parts where the first holds a whole head.
proof fn lemma_whole_head(a: Seq<u8>, b: Seq<u8>, header: BufferView)
    requires
        head_end(header.appended(a).data) is Some,
    ensures
        ({
            let part = header.appended(a);
            let whole = header.appended(a + b);
            let end = head_end(part.data)->0;
            &&& head_end(whole.data) == Some(end)
            &&& 4 <= end <= part.data.len()
            &&& whole.data.take(end) == part.data.take(end)
            &&& whole.data.skip(end) == part.data.skip(end) + b
            &&& whole.data == part.data + b
        }),
{
    let part = header.appended(a);
    let whole = header.appended(a + b);
    let end = head_end(part.data)->0;
    assert(whole.data =~= part.data + b);
    law_head_end_stays(part.data, b);
    assert(whole.data.take(end) =~= part.data.take(end));
    assert(whole.data.skip(end) =~= part.data.skip(end) + b);
}

/// However what is left of a body is cut in two, it is read in two parts as it is at once.
pub proof fn law_response_body_in_parts(
    a: Seq<u8>,
    b: Seq<u8>,
    header: BufferView,
    head: ResponseHeadView,
    buf: BufferView,
)
    requires
        a.len() < buf.room(),
        a.len() + b.len() <= buf.room(),
    ensures
        ({
            let state = ResponseStateView::ReadBody(head, buf);
            let first = response_turn(Some(ReadView::Data(a)), header, state);
            &&& first.step == ResponseStepView::NeedRead(buf.room() - a.len())
            &&& response_turn(Some(ReadView::Data(b)), first.header, first.state) == response_turn(
                Some(ReadView::Data(a + b)),
                header,
                state,
            )
        }),
{
    assert(buf.appended(a).appended(b).data =~= buf.appended(a + b).data);
}

/// Whether all headers of a table can be told from the lines that they are written in.
pub open spec fn plain_table(headers: HeaderMap) -> bool {
    forall|key: Seq<char>| #[trigger] headers.contains_key(key) ==> plain_header(headers[key])
}

/// What a response is written as is read back as that response, whatever comes behind it. The
/// length that its headers give must be that of its body, and its headers must be such that they
/// can be told from the lines that they are written in.
pub proof fn law_response_read_back(
    response: ResponseView,
    phrase: Seq<char>,
    bytes: Seq<u8>,
    rest: Seq<u8>,
    cap: nat,
)
    requires
        is_written(response, phrase, bytes),
        !phrase.contains('\n'),
        plain_table(response.headers),
        header_length(response.headers) == Some(response.body.len()),
    ensures
        response_turn(
            Some(ReadView::Data(bytes + rest)),
            BufferView { data: Seq::empty(), cap },
            ResponseStateView::Empty,
        ) == (ResponseTurn {
            step: ResponseStepView::Done(response),
            header: BufferView { data: rest, cap },
            state: ResponseStateView::Empty,
        }),
{
    let list = choose|list: Seq<HeaderEntry>|
        #[trigger] lists(response.headers, list) && bytes == response_bytes(
            response.status,
            phrase,
            list,
            response.body,
        );
    assert forall|i: int| 0 <= i < list.len() implies plain_header(#[trigger] list[i]) by {
        assert(response.headers.contains_pair(lower(list[i].name), list[i]));
    }
    let first = status_line(response.status, phrase);
    let text = head_text(response.status, phrase, list);
    let head = encode_utf8(text);
    let view = ResponseHeadView { status: response.status, headers: response.headers };
    assert(is_head_with(head, view, phrase, list));
    lemma_head_read(head, view, crate::response_read::response_head(head));
    lemma_status_is_line(response.status, phrase);
    assert(all_telling(list));
    lemma_lines_are_full(first, list);
    let lines = encode_utf8(first + header_lines(list));
    lemma_encode_concat(first + header_lines(list), "\r\n"@);
    lemma_line_end();
    let header = BufferView { data: Seq::<u8>::empty(), cap }.appended(bytes + rest);
    assert(header.data =~= lines + seq![13u8, 10u8] + (response.body + rest));
    lemma_head_ends(lines, response.body + rest);
    let end = head.len() as int;
    assert(header.data.take(end) =~= head);
    assert(header.data.skip(end) =~= response.body + rest);
    assert((response.body + rest).take(response.body.len() as int) =~= response.body);
    assert(header.data.skip(end + response.body.len()) =~= rest);
    if rest.len() == 0 {
        assert(response.body + rest =~= response.body);
        assert(rest =~= Seq::empty());
    }
}

/// A response whose body was set announces the length of that body.
pub proof fn law_body_length_announced(response: ResponseView, body: Seq<u8>)
    requires
        body.len() <= usize::MAX,
    ensures
        header_length(response_with_body(response, body).headers) == Some(body.len()),
{
    lemma_number_of_decimal(body.len());
}

/// Headers that can be told from the lines that they are written in make a response of which that
/// holds, and so does setting its body.
pub proof fn law_built_response_is_plain(
    response: ResponseView,
    header: HeaderEntry,
    body: Seq<u8>,
)
    requires
        plain_table(response.headers),
        plain_header(header),
    ensures
        plain_table(response_with_header(response, header.name, header.value).headers),
        plain_table(response_with_body(response, body).headers),
{
    let digits = decimal(body.len());
    lemma_decimal_digits(body.len());
    let name = "Content-Length"@;
    reveal_strlit("Content-Length");
    assert(name.len() == 14);
    assert forall|i: int| 0 <= i < name.len() implies name[i] != '\n' && name[i] != ':' by {}
    assert(plain_header(HeaderEntry { name, value: digits }));
    lemma_plain_with(response.headers, header);
    lemma_plain_with(response.headers, HeaderEntry { name, value: digits });
}

proof fn lemma_plain_with(headers: HeaderMap, header: HeaderEntry)
    requires
        plain_table(headers),
        plain_header(header),
    ensures
        plain_table(with_header(headers, header.name, header.value)),
{
    let with = with_header(headers, header.name, header.value);
    assert forall|key: Seq<char>| #[trigger] with.contains_key(key) implies plain_header(
        with[key],
    ) by {
        if headers.contains_key(lower(header.name)) {
            assert(plain_header(headers[lower(header.name)]));
        }
        if key != lower(header.name) {
            assert(headers.contains_key(key));
        }
    }
}

/// A response whose headers give no length, and behind whose head nothing comes, has no body.
pub proof fn law_response_without_length(
    response: ResponseView,
    phrase: Seq<char>,
    bytes: Seq<u8>,
    cap: nat,
)
    requires
        is_written(response, phrase, bytes),
        response.body.len() == 0,
        !phrase.contains('\n'),
        plain_table(response.headers),
        header_length(response.headers) is None,
    ensures
        ({
            let turn = response_turn(
                Some(ReadView::Data(bytes)),
                BufferView { data: Seq::empty(), cap },
                ResponseStateView::Empty,
            );
            &&& turn.step matches ResponseStepView::Done(read)
            &&& read.status == response.status
            &&& read.headers == response.headers
            &&& read.body.len() == 0
            &&& turn.header.data.len() == 0
            &&& turn.state is Empty
        }),
{
    let list = choose|list: Seq<HeaderEntry>|
        #[trigger] lists(response.headers, list) && bytes == response_bytes(
            response.status,
            phrase,
            list,
            response.body,
        );
    assert forall|i: int| 0 <= i < list.len() implies plain_header(#[trigger] list[i]) by {
        assert(response.headers.contains_pair(lower(list[i].name), list[i]));
    }
    let first = status_line(response.status, phrase);
    let text = head_text(response.status, phrase, list);
    let head = encode_utf8(text);
    let view = ResponseHeadView { status: response.status, headers: response.headers };
    assert(is_head_with(head, view, phrase, list));
    lemma_head_read(head, view, crate::response_read::response_head(head));
    lemma_status_is_line(response.status, phrase);
    assert(all_telling(list));
    lemma_lines_are_full(first, list);
    let lines = encode_utf8(first + header_lines(list));
    lemma_encode_concat(first + header_lines(list), "\r\n"@);
    lemma_line_end();
    let header = BufferView { data: Seq::<u8>::empty(), cap }.appended(bytes);
    let none = Seq::<u8>::empty();
    assert(header.data =~= lines + seq![13u8, 10u8] + none);
    lemma_head_ends(lines, none);
    let end = head.len() as int;
    assert(header.data.take(end) =~= head);
    assert(header.data.skip(end) =~= none);
}

} // verus!
