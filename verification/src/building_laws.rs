//! What requests and responses hold that are put together, and what they are written as.
use crate::encoding::lemma_number_of_decimal;
use crate::headers::{header_value, lists, lower, with_header, HeaderEntry, HeaderMap};
use crate::method::{method_named, MethodView};
use crate::request_build::{
    askable, base_request, is_message_of, RequestBuildView, RequestMethod,
};
use crate::response::{
    empty_response, header_lines, is_written, response_with_body, response_with_header,
    ResponseView,
};
use crate::text::{decimal, number_in};
use crate::uri::UriView;
use vstd::prelude::*;
use vstd::utf8::encode_utf8;

verus! {

/// The word for a method.
pub open spec fn word_for(method: MethodView) -> Seq<char> {
    match method {
        MethodView::Get => "GET"@,
        MethodView::Post => "POST"@,
        MethodView::Put => "PUT"@,
        MethodView::Options => "OPTIONS"@,
        MethodView::Delete => "DELETE"@,
        MethodView::Head => "HEAD"@,
        MethodView::Connect => "CONNECT"@,
        MethodView::Unknown(name) => name,
    }
}

/// The bytes of a body that may be there.
pub open spec fn given_body(body: Option<Seq<u8>>) -> Seq<u8> {
    match body {
        Some(bytes) => bytes,
        None => Seq::empty(),
    }
}

/// A name in lower case, and how long it is.
proof fn lemma_names()
    ensures
        lower("Content-Length"@).len() == 14,
        lower("Host"@).len() == 4,
        lower("Referer"@).len() == 7,
        lower("Location"@).len() == 8,
{
    reveal_strlit("Content-Length");
    reveal_strlit("Host");
    reveal_strlit("Referer");
    reveal_strlit("Location");
}

/// A new request is for the address and carries the body that it was made with, to the last byte;
/// its headers are the host and the address, and, where there is a body, its length.
pub proof fn law_new_request_is_as_made(uri: UriView, body: Option<Seq<u8>>)
    requires
        given_body(body).len() <= usize::MAX,
    ensures
        ({
            let request = base_request(uri, body);
            &&& request.uri == uri
            &&& request.body == body
            &&& header_value(request.headers, "Host"@) == Some(
                match uri.host_header {
                    Some(host) => host,
                    None => ""@,
                },
            )
            &&& header_value(request.headers, "Referer"@) == Some(uri.shown)
            &&& match body {
                Some(bytes) => {
                    &&& header_value(request.headers, "Content-Length"@) == Some(
                        decimal(bytes.len()),
                    )
                    &&& number_in(
                        encode_utf8(header_value(request.headers, "Content-Length"@)->0),
                    ) == Some(bytes.len())
                },
                None => header_value(request.headers, "Content-Length"@) is None,
            }
            &&& forall|key: Seq<char>| #[trigger]
                request.headers.contains_key(key) ==> key == lower("Host"@) || key == lower(
                    "Referer"@,
                ) || key == lower("Content-Length"@)
        }),
{
    lemma_names();
    if let Some(bytes) = body {
        lemma_number_of_decimal(bytes.len());
    }
}

/// What a new request is written as: the word for its method and what is asked for, its headers,
/// an empty line, and then exactly the bytes of the body that it was made with, as many as the
/// headers say.
pub proof fn law_new_request_ends_with_its_body(
    method: MethodView,
    uri: UriView,
    body: Option<Seq<u8>>,
    bytes: Seq<u8>,
)
    requires
        askable(method) is Some,
        given_body(body).len() <= usize::MAX,
        is_message_of(
            RequestBuildView { method: askable(method)->0, ..base_request(uri, body) },
            bytes,
        ),
    ensures
        exists|list: Seq<HeaderEntry>|
            {
                &&& bytes == encode_utf8(
                    word_for(method) + " "@ + uri.resource + " HTTP/1.1\r\n"@
                        + #[trigger] header_lines(list) + "\r\n"@,
                ) + given_body(body)
                &&& body matches Some(sent) ==> exists|i: int|
                    0 <= i < list.len() && (#[trigger] list[i]).value == decimal(sent.len())
                        && lower(list[i].name) == lower("Content-Length"@)
            },
        bytes.len() >= given_body(body).len(),
        bytes.skip(bytes.len() - given_body(body).len()) == given_body(body),
{
    law_new_request_is_as_made(uri, body);
    let request = RequestBuildView { method: askable(method)->0, ..base_request(uri, body) };
    law_message_ends_with_body(request, bytes);
    let list = choose|list: Seq<HeaderEntry>|
        {
            &&& #[trigger] lists(request.headers, list)
            &&& bytes == encode_utf8(
                word_asked(request.method) + " "@ + request.uri.resource + " HTTP/1.1\r\n"@
                    + header_lines(list) + "\r\n"@,
            ) + given_body(request.body)
        };
    assert(word_asked(request.method) == word_for(method));
    if let Some(sent) = body {
        let key = lower("Content-Length"@);
        assert(request.headers.contains_key(key));
        let i = choose|i: int| 0 <= i < list.len() && lower((#[trigger] list[i]).name) == key;
        assert(request.headers.contains_pair(lower(list[i].name), list[i]));
    }
    assert(bytes == encode_utf8(
        word_for(method) + " "@ + uri.resource + " HTTP/1.1\r\n"@ + header_lines(list) + "\r\n"@,
    ) + given_body(body));
}

/// The word for a method that a client can ask with.
pub open spec fn word_asked(method: RequestMethod) -> Seq<char> {
    match method {
        RequestMethod::Get => "GET"@,
        RequestMethod::Post => "POST"@,
        RequestMethod::Put => "PUT"@,
        RequestMethod::Options => "OPTIONS"@,
        RequestMethod::Delete => "DELETE"@,
        RequestMethod::Head => "HEAD"@,
    }
}

/// What any request is written as: the word for its method and what is asked for, each of its
/// headers once, an empty line, and then exactly the bytes of its body.
pub proof fn law_message_ends_with_body(request: RequestBuildView, bytes: Seq<u8>)
    requires
        is_message_of(request, bytes),
    ensures
        exists|list: Seq<HeaderEntry>|
            {
                &&& #[trigger] lists(request.headers, list)
                &&& bytes == encode_utf8(
                    word_asked(request.method) + " "@ + request.uri.resource + " HTTP/1.1\r\n"@
                        + header_lines(list) + "\r\n"@,
                ) + given_body(request.body)
            },
        bytes.len() >= given_body(request.body).len(),
        bytes.skip(bytes.len() - given_body(request.body).len()) == given_body(request.body),
{
    let body = given_body(request.body);
    assert(bytes.skip(bytes.len() - body.len()) =~= body);
}

/// A client can ask with every method that has a name of its own but that which opens a tunnel,
/// and asks with the method that it was given.
pub proof fn law_methods_that_can_be_asked(method: MethodView)
    ensures
        askable(method) is None <==> method is Connect || method is Unknown,
        askable(method) matches Some(asked) ==> word_asked(asked) == word_for(method),
{
}

/// Setting a header changes the value under its name, in whatever case it is written, and nothing
/// else.
pub proof fn law_header_is_set(
    headers: HeaderMap,
    name: Seq<char>,
    value: Seq<char>,
    other: Seq<char>,
)
    ensures
        header_value(with_header(headers, name, value), other) == if lower(other) == lower(name) {
            Some(value)
        } else {
            header_value(headers, other)
        },
{
}

/// A response has the body that was set last, to the last byte, with its length in the headers; its
/// status and its other headers are left as they were.
pub proof fn law_body_is_set(response: ResponseView, body: Seq<u8>, other: Seq<char>)
    requires
        body.len() <= usize::MAX,
    ensures
        response_with_body(response, body).body == body,
        response_with_body(response, body).status == response.status,
        header_value(response_with_body(response, body).headers, other) == if lower(other) == lower(
            "Content-Length"@,
        ) {
            Some(decimal(body.len()))
        } else {
            header_value(response.headers, other)
        },
        number_in(encode_utf8(decimal(body.len()))) == Some(body.len()),
{
    lemma_number_of_decimal(body.len());
}

/// A response has the header that was set last under a name, and is else left as it was.
pub proof fn law_response_header_is_set(
    response: ResponseView,
    name: Seq<char>,
    value: Seq<char>,
    other: Seq<char>,
)
    ensures
        response_with_header(response, name, value).body == response.body,
        response_with_header(response, name, value).status == response.status,
        header_value(response_with_header(response, name, value).headers, other) == if lower(other)
            == lower(name) {
            Some(value)
        } else {
            header_value(response.headers, other)
        },
{
}

/// A new response has the status that it was made with and no body, and says so.
pub proof fn law_new_response_is_empty(status: u16)
    ensures
        empty_response(status).status == status,
        empty_response(status).body.len() == 0,
        header_value(empty_response(status).headers, "Content-Length"@) == Some(decimal(0)),
        forall|key: Seq<char>| #[trigger]
            empty_response(status).headers.contains_key(key) ==> key == lower("Content-Length"@),
{
}

/// What a response is written as: its status with the phrase for it, each of its headers once, an
/// empty line, and then exactly the bytes of its body.
pub proof fn law_written_response_ends_with_body(
    response: ResponseView,
    phrase: Seq<char>,
    bytes: Seq<u8>,
)
    requires
        is_written(response, phrase, bytes),
    ensures
        exists|list: Seq<HeaderEntry>|
            {
                &&& #[trigger] lists(response.headers, list)
                &&& bytes == encode_utf8(
                    "HTTP/1.1 "@ + decimal(response.status as nat) + " "@ + phrase + "\r\n"@
                        + header_lines(list) + "\r\n"@,
                ) + response.body
            },
        bytes.len() >= response.body.len(),
        bytes.skip(bytes.len() - response.body.len()) == response.body,
{
    assert(bytes.skip(bytes.len() - response.body.len()) =~= response.body);
}

/// The lines of headers are one line for each, in order, with its name and its value.
pub proof fn law_header_lines(list: Seq<HeaderEntry>, header: HeaderEntry)
    ensures
        header_lines(Seq::empty()) == Seq::<char>::empty(),
        header_lines(list.push(header)) == header_lines(list) + header.name + ": "@ + header.value
            + "\r\n"@,
{
    assert(list.push(header).drop_last() =~= list);
    assert(header_lines(list.push(header)) =~= header_lines(list) + header.name + ": "@
        + header.value + "\r\n"@);
}

/// A method goes by its word in any case, and any other word is kept as it is.
pub proof fn law_methods_go_by_their_words(name: Seq<char>)
    ensures
        match method_named(name) {
            MethodView::Unknown(word) => {
                &&& word == name
                &&& lower(name) != lower("GET"@)
                &&& lower(name) != lower("POST"@)
                &&& lower(name) != lower("PUT"@)
                &&& lower(name) != lower("OPTIONS"@)
                &&& lower(name) != lower("DELETE"@)
                &&& lower(name) != lower("HEAD"@)
                &&& lower(name) != lower("CONNECT"@)
            },
            method => lower(name) == lower(word_for(method)),
        },
{
    reveal_strlit("GET");
    reveal_strlit("POST");
    reveal_strlit("PUT");
    reveal_strlit("OPTIONS");
    reveal_strlit("DELETE");
    reveal_strlit("HEAD");
    reveal_strlit("CONNECT");
    reveal_strlit("get");
    reveal_strlit("post");
    reveal_strlit("put");
    reveal_strlit("options");
    reveal_strlit("delete");
    reveal_strlit("head");
    reveal_strlit("connect");
    assert(lower("GET"@) =~= lower("get"@));
    assert(lower("POST"@) =~= lower("post"@));
    assert(lower("PUT"@) =~= lower("put"@));
    assert(lower("OPTIONS"@) =~= lower("options"@));
    assert(lower("DELETE"@) =~= lower("delete"@));
    assert(lower("HEAD"@) =~= lower("head"@));
    assert(lower("CONNECT"@) =~= lower("connect"@));
}

} // verus!
