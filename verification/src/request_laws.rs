//! What holds of requests that a client writes and a server reads.
use crate::buffer::BufferView;
use crate::encoding::lemma_number_of_decimal;
use crate::error::HttpParseError;
use crate::headers::{header_value, lists, lower, HeaderEntry, HeaderMap};
use crate::method::method_named;
use crate::request::{
    declared_length, head_settled, is_content_length, parsed_request, request_head, request_in,
    HeaderView, RequestHeadView, RequestView,
};
use crate::request_build::{
    askable, base_request, body_bytes, is_message_of, method_text, request_text, RequestBuildView,
    RequestMethod,
};
use crate::request_read::{request_turn, size_limit, RequestStepView};
use crate::request_stream_laws::SentRequest;
use crate::sent_request::{
    is_sendable, is_target, is_token, lemma_sent_read, received, sent_head, starts_with_head,
    token_char,
};
use crate::stream::ReadView;
use crate::text::{lossy_text, number_in};
use crate::uri::UriView;
use vstd::prelude::*;
use vstd::utf8::{encode_utf8, encode_utf8_decode_utf8, encode_utf8_valid_utf8};

verus! {

/// Whether all headers of a table can be sent with a request.
pub open spec fn sendable_table(headers: HeaderMap) -> bool {
    &&& headers.dom().finite()
    &&& headers.len() <= 64
    &&& forall|key: Seq<char>| #[trigger] headers.contains_key(key) ==> is_sendable(headers[key])
}

/// Whether headers give a length for a body of `len` bytes. An empty body needs none.
pub open spec fn length_given(headers: HeaderMap, len: nat) -> bool {
    match header_value(headers, "Content-Length"@) {
        Some(value) => number_in(encode_utf8(value)) == Some(len),
        None => len == 0,
    }
}

/// Whether a request that was read is the one that was written, with the headers in the order of
/// `list`.
pub open spec fn is_received(
    read: RequestView,
    request: RequestBuildView,
    list: Seq<HeaderEntry>,
) -> bool {
    &&& lists(request.headers, list)
    &&& askable(read.method) == Some(request.method)
    &&& read.path == Some(request.uri.resource)
    &&& read.headers == received(list)
    &&& read.body == body_bytes(request.body)
}

/// A list has as many headers as its table.
proof fn lemma_list_len(headers: HeaderMap, list: Seq<HeaderEntry>)
    requires
        lists(headers, list),
        headers.dom().finite(),
    ensures
        list.len() == headers.len(),
{
    let keys = list.map_values(|h: HeaderEntry| lower(h.name));
    assert(keys.no_duplicates());
    keys.unique_seq_to_set();
    assert forall|key: Seq<char>| keys.to_set().contains(key) <==> headers.contains_key(key) by {
        if keys.contains(key) {
            let i = choose|i: int| 0 <= i < keys.len() && keys[i] == key;
            assert(headers.contains_pair(lower(list[i].name), list[i]));
        }
        if headers.contains_key(key) {
            let i = choose|i: int|
                0 <= i < list.len() && lower((#[trigger] list[i]).name) == key;
            assert(keys[i] == key);
        }
    }
    assert(keys.to_set() =~= headers.dom());
}

/// A method that a client asks with is understood.
proof fn lemma_method(method: RequestMethod)
    ensures
        is_token(method_text(method)),
        askable(method_named(method_text(method))) == Some(method),
{
    reveal_strlit("GET");
    reveal_strlit("POST");
    reveal_strlit("PUT");
    reveal_strlit("OPTIONS");
    reveal_strlit("DELETE");
    reveal_strlit("HEAD");
    reveal_strlit("get");
    reveal_strlit("post");
    reveal_strlit("put");
    reveal_strlit("options");
    reveal_strlit("delete");
    reveal_strlit("head");
    reveal_strlit("connect");
    let low = lower(method_text(method));
    assert(lower("get"@).len() == 3 && lower("get"@)[0] == 'g');
    assert(lower("post"@).len() == 4 && lower("post"@)[0] == 'p');
    assert(lower("put"@).len() == 3 && lower("put"@)[0] == 'p');
    assert(lower("options"@).len() == 7 && lower("options"@)[0] == 'o');
    assert(lower("delete"@).len() == 6 && lower("delete"@)[0] == 'd');
    assert(lower("head"@).len() == 4 && lower("head"@)[0] == 'h');
    assert(lower("connect"@).len() == 7 && lower("connect"@)[0] == 'c');
    match method {
        RequestMethod::Get => assert(low =~= lower("get"@)),
        RequestMethod::Post => assert(low =~= lower("post"@)),
        RequestMethod::Put => assert(low =~= lower("put"@)),
        RequestMethod::Options => assert(low =~= lower("options"@)),
        RequestMethod::Delete => assert(low =~= lower("delete"@)),
        RequestMethod::Head => assert(low =~= lower("head"@)),
    }
    let text = method_text(method);
    assert forall|i: int| 0 <= i < text.len() implies token_char(#[trigger] text[i]) by {}
}

/// The first length that is given counts.
proof fn lemma_length_found(headers: Seq<HeaderView>, i: int)
    requires
        0 <= i < headers.len(),
        is_content_length(headers[i]),
        forall|j: int| 0 <= j < i ==> !is_content_length(#[trigger] headers[j]),
    ensures
        declared_length(headers) == number_in(
            encode_utf8(lossy_text(headers[i].value)),
        ),
    decreases i,
{
    if i > 0 {
        assert(!is_content_length(headers[0]));
        let rest = headers.drop_first();
        assert forall|j: int| 0 <= j < i - 1 implies !is_content_length(#[trigger] rest[j]) by {
            assert(rest[j] == headers[j + 1]);
        }
        lemma_length_found(rest, i - 1);
    }
}

/// Where no length is given, it is nought.
pub proof fn lemma_no_length(headers: Seq<HeaderView>)
    requires
        forall|j: int| 0 <= j < headers.len() ==> !is_content_length(#[trigger] headers[j]),
    ensures
        declared_length(headers) == Some(0nat),
    decreases headers.len(),
{
    if headers.len() > 0 {
        assert(!is_content_length(headers[0]));
        let rest = headers.drop_first();
        assert forall|j: int| 0 <= j < rest.len() implies !is_content_length(#[trigger] rest[j]) by {
            assert(rest[j] == headers[j + 1]);
        }
        lemma_no_length(rest);
    }
}

/// The length that is given for the body is found in what was received.
proof fn lemma_length_received(headers: HeaderMap, list: Seq<HeaderEntry>, len: nat)
    requires
        lists(headers, list),
        list.len() <= 64,
        length_given(headers, len),
    ensures
        declared_length(received(list)) == Some(len),
{
    reveal_strlit("Content-Length");
    reveal_strlit("content-length");
    let key = lower("Content-Length"@);
    assert(key =~= lower("content-length"@));
    let got = received(list);
    assert forall|j: int| 0 <= j < 64 implies is_content_length(#[trigger] got[j]) == (j
        < list.len() && lower(list[j].name) == key) by {
        if j >= list.len() {
            assert(lower(got[j].name).len() == 0);
            assert(key.len() == 14);
        }
    }
    if headers.contains_key(key) {
        let i = choose|i: int| 0 <= i < list.len() && lower((#[trigger] list[i]).name) == key;
        assert(headers.contains_pair(lower(list[i].name), list[i]));
        assert forall|j: int| 0 <= j < i implies !is_content_length(#[trigger] got[j]) by {
            assert(lower(list[j].name) != lower(list[i].name));
        }
        assert(is_content_length(got[i]));
        lemma_length_found(got, i);
        encode_utf8_valid_utf8(list[i].value);
        encode_utf8_decode_utf8(list[i].value);
    } else {
        assert forall|j: int| 0 <= j < got.len() implies !is_content_length(#[trigger] got[j]) by {
            if j < list.len() {
                assert(headers.contains_pair(lower(list[j].name), list[j]));
            }
        }
        lemma_no_length(got);
    }
}

/// What a client writes for a request is read back by a server as that request, whatever comes
/// behind it. What is asked for and the headers must be such that they can be sent, the headers
/// must give the length of the body, and the request must not be larger than the server takes.
pub proof fn law_request_read_back(
    request: RequestBuildView,
    bytes: Seq<u8>,
    rest: Seq<u8>,
    cap: nat,
    max_body: Option<usize>,
    peer_ip: Option<Seq<char>>,
)
    requires
        is_message_of(request, bytes),
        is_target(request.uri.resource),
        sendable_table(request.headers),
        length_given(request.headers, body_bytes(request.body).len()),
        bytes.len() <= usize::MAX,
        bytes.len() <= size_limit(max_body),
    ensures
        ({
            let turn = request_turn(
                Some(ReadView::Data(bytes + rest)),
                BufferView { data: Seq::empty(), cap },
                None,
                max_body,
                peer_ip,
            );
            &&& turn.step matches RequestStepView::Done(read)
            &&& exists|list: Seq<HeaderEntry>| is_received(read, request, list)
            &&& read.size == bytes.len()
            &&& read.peer_ip == peer_ip
            &&& turn.header == (BufferView { data: rest, cap })
            &&& turn.pending is None
        }),
{
    let method = method_text(request.method);
    let resource = request.uri.resource;
    let body = body_bytes(request.body);
    let list = choose|list: Seq<HeaderEntry>|
        #[trigger] lists(request.headers, list) && bytes == encode_utf8(
            request_text(method, resource, list),
        ) + body;
    let head = encode_utf8(request_text(method, resource, list));
    lemma_list_len(request.headers, list);
    lemma_method(request.method);
    assert forall|i: int| 0 <= i < list.len() implies is_sendable(#[trigger] list[i]) by {
        assert(request.headers.contains_pair(lower(list[i].name), list[i]));
    }
    let header = BufferView { data: Seq::<u8>::empty(), cap }.appended(bytes + rest);
    assert(header.data =~= head + body + rest);
    assert(head =~= header.data.take(head.len() as int));
    assert(starts_with_head(header.data, method, resource, list));
    lemma_sent_read(header.data, method, resource, list, request_head(header.data));
    lemma_length_received(request.headers, list, body.len());
    let size = bytes.len() as int;
    assert(header.data.take(size) =~= bytes);
    assert(bytes.skip(head.len() as int) =~= body);
    assert(header.consumed(size).data =~= rest);
    let read = request_in(bytes, sent_head(method, resource, list), peer_ip);
    assert(is_received(read, request, list));
}

/// What a client writes for a request is a request that can be sent, and that is read as the one
/// that was written, provided that its head fits into the buffer of the reader.
pub proof fn law_written_request_fits(
    request: RequestBuildView,
    bytes: Seq<u8>,
    cap: nat,
    max_body: Option<usize>,
    peer_ip: Option<Seq<char>>,
) -> (sent: SentRequest)
    requires
        is_message_of(request, bytes),
        is_target(request.uri.resource),
        sendable_table(request.headers),
        length_given(request.headers, body_bytes(request.body).len()),
        bytes.len() <= usize::MAX,
        bytes.len() <= size_limit(max_body),
        bytes.len() - body_bytes(request.body).len() <= cap,
    ensures
        sent.bytes() == bytes,
        sent.fits(cap, max_body),
        exists|list: Seq<HeaderEntry>| is_received(sent.as_read(peer_ip), request, list),
{
    let method = method_text(request.method);
    let resource = request.uri.resource;
    let body = body_bytes(request.body);
    let list = choose|list: Seq<HeaderEntry>|
        #[trigger] lists(request.headers, list) && bytes == encode_utf8(
            request_text(method, resource, list),
        ) + body;
    let sent = SentRequest { method, resource, list, body };
    lemma_list_len(request.headers, list);
    lemma_method(request.method);
    assert forall|i: int| 0 <= i < list.len() implies is_sendable(#[trigger] list[i]) by {
        assert(request.headers.contains_pair(lower(list[i].name), list[i]));
    }
    lemma_length_received(request.headers, list, body.len());
    assert(bytes.skip(sent.head().len() as int) =~= body);
    assert(is_received(sent.as_read(peer_ip), request, list));
    sent
}

/// The headers of a new request give the length of its body.
pub proof fn law_body_length_given(uri: UriView, body: Option<Seq<u8>>)
    requires
        body_bytes(body).len() <= usize::MAX,
    ensures
        length_given(base_request(uri, body).headers, body_bytes(body).len()),
{
    reveal_strlit("Content-Length");
    reveal_strlit("Host");
    reveal_strlit("Referer");
    assert(lower("Content-Length"@).len() == 14);
    assert(lower("Host"@).len() == 4);
    assert(lower("Referer"@).len() == 7);
    if let Some(bytes) = body {
        lemma_number_of_decimal(bytes.len());
    }
}

/// Bytes that start with the head of a request as clients send it are read alike, whatever comes
/// behind the head.
pub proof fn law_sent_head_is_settled(
    buf: Seq<u8>,
    method: Seq<char>,
    resource: Seq<char>,
    list: Seq<HeaderEntry>,
)
    requires
        starts_with_head(buf, method, resource, list),
    ensures
        head_settled(buf),
        parsed_request(buf) == Ok::<Option<RequestHeadView>, HttpParseError>(
            Some(sent_head(method, resource, list)),
        ),
{
    lemma_sent_read(buf, method, resource, list, request_head(buf));
    let head = encode_utf8(request_text(method, resource, list));
    let len = head.len() as int;
    assert forall|other: Seq<u8>| len <= other.len() && other.take(len) == buf.take(
        len,
    ) implies #[trigger] parsed_request(other) == parsed_request(buf) by {
        assert(head =~= other.take(len));
        assert(starts_with_head(other, method, resource, list));
        lemma_sent_read(other, method, resource, list, request_head(other));
    }
}

} // verus!
