//! Responses: building them, and writing them out.
use crate::headers::{
    entries, entry, headers_insert, headers_list, headers_map, headers_new, lists, with_header,
    HeaderEntry, HeaderMap,
};
use crate::text::{decimal, usize_to_string};
use http_req::response::{Headers, StatusCode};
use vstd::prelude::*;
use vstd::string::StringExecFns;
use vstd::utf8::encode_utf8;

verus! {

/// A response.
pub struct HttpResponse {
    /// The status code.
    pub status: u16,
    pub headers: Headers,
    pub body: Vec<u8>,
}

/// What an [`HttpResponse`] holds.
pub struct ResponseView {
    pub status: u16,
    pub headers: HeaderMap,
    pub body: Seq<u8>,
}

impl View for HttpResponse {
    type V = ResponseView;

    open spec fn view(&self) -> ResponseView {
        ResponseView { status: self.status, headers: headers_map(self.headers), body: self.body@ }
    }
}

/// The phrase that `http_req::response::StatusCode::reason` has for a status code.
pub uninterp spec fn reason_phrase(status: u16) -> Option<Seq<char>>;

/// The length of the longest phrase.
pub const PHRASE_LIMIT: usize = 31;

/// Whether a phrase is short, and has no line end in it.
pub open spec fn is_phrase(phrase: Seq<char>) -> bool {
    phrase.len() <= PHRASE_LIMIT && !phrase.contains('\n')
}

/// `StatusCode::reason`: the phrase for a status code, if there is one. The phrases go by the
/// name [`reason_phrase`]; none has more than 31 characters, or a line end in it.
#[verifier::external_body]
pub(crate) fn status_reason(status: u16) -> (r: Option<&'static str>)
    ensures
        reason_phrase(status) == (match r {
            Some(phrase) => Some(phrase@),
            None => None,
        }),
        r matches Some(phrase) ==> is_phrase(phrase@),
{
    StatusCode::new(status).reason()
}

/// The first line of a response.
pub open spec fn status_line(status: u16, phrase: Seq<char>) -> Seq<char> {
    "HTTP/1.1 "@ + decimal(status as nat) + " "@ + phrase + "\r\n"@
}

/// The line of a header.
pub open spec fn header_line(header: HeaderEntry) -> Seq<char> {
    header.name + ": "@ + header.value + "\r\n"@
}

/// The lines of headers, in order.
pub open spec fn header_lines(list: Seq<HeaderEntry>) -> Seq<char>
    decreases list.len(),
{
    if list.len() == 0 {
        Seq::empty()
    } else {
        header_lines(list.drop_last()) + header_line(list.last())
    }
}

/// A response as it is sent, with its headers in the order of `list`.
pub open spec fn response_bytes(
    status: u16,
    phrase: Seq<char>,
    list: Seq<HeaderEntry>,
    body: Seq<u8>,
) -> Seq<u8> {
    encode_utf8(status_line(status, phrase) + header_lines(list) + "\r\n"@) + body
}

/// Whether `bytes` are the response as it is sent, with the headers in some order.
pub open spec fn is_written(response: ResponseView, phrase: Seq<char>, bytes: Seq<u8>) -> bool {
    exists|list: Seq<HeaderEntry>|
        #[trigger] lists(response.headers, list) && bytes == response_bytes(
            response.status,
            phrase,
            list,
            response.body,
        )
}

impl HttpResponse {
    /// The response as it is sent, with the phrase of its status given.
    pub fn to_vec_with(&self, phrase: &str) -> (r: Vec<u8>)
        ensures
            is_written(self@, phrase@, r@),
    {
        let list = headers_list(&self.headers);
        let ghost all = entries(list@);
        let mut text = "HTTP/1.1 ".to_owned();
        text.append(usize_to_string(self.status as usize).as_str());
        text.append(" ");
        text.append(phrase);
        text.append("\r\n");
        let ghost first = text@;
        assert(first =~= status_line(self.status, phrase@));
        let mut i: usize = 0;
        assert(all.take(0) =~= Seq::<HeaderEntry>::empty());
        assert(first + header_lines(all.take(0)) =~= first);
        while i < list.len()
            invariant
                i <= list@.len(),
                all == entries(list@),
                text@ == first + header_lines(all.take(i as int)),
            decreases list@.len() - i,
        {
            let ghost before = text@;
            text.append(list[i].0.as_str());
            text.append(": ");
            text.append(list[i].1.as_str());
            text.append("\r\n");
            proof {
                assert(all[i as int] == entry(list@[i as int]));
                assert(all.take(i as int + 1).drop_last() =~= all.take(i as int));
                assert(text@ =~= before + header_line(all[i as int]));
                assert(text@ =~= first + header_lines(all.take(i as int + 1)));
            }
            i += 1;
        }
        assert(all.take(i as int) =~= all);
        text.append("\r\n");
        let mut out: Vec<u8> = vstd::slice::slice_to_vec(text.as_str().as_bytes());
        let ghost head = out@;
        out.extend_from_slice(self.body.as_slice());
        proof {
            assert(out@ =~= head + self.body@);
            assert(lists(self@.headers, all));
            assert(out@ == response_bytes(self.status, phrase@, all, self.body@));
        }
        out
    }

    /// The response as it is sent. There must be a phrase for its status; [`Self::try_to_vec`]
    /// finds out.
    pub fn to_vec(&self) -> (r: Vec<u8>)
        requires
            reason_phrase(self.status) is Some,
        ensures
            is_written(self@, reason_phrase(self.status)->0, r@),
            is_phrase(reason_phrase(self.status)->0),
    {
        match status_reason(self.status) {
            Some(phrase) => self.to_vec_with(phrase),
            None => Vec::new(),
        }
    }

    /// The response as it is sent, as [`Self::to_vec`] gives it; nothing where there is no phrase
    /// for its status.
    pub fn try_to_vec(&self) -> (r: Option<Vec<u8>>)
        ensures
            r is Some <==> reason_phrase(self.status) is Some,
            r matches Some(bytes) ==> is_written(self@, reason_phrase(self.status)->0, bytes@)
                && is_phrase(reason_phrase(self.status)->0),
    {
        match status_reason(self.status) {
            Some(_) => Some(self.to_vec()),
            None => None,
        }
    }
}

/// Puts a response together.
#[must_use]
pub struct HttpResponseBuilder {
    response: HttpResponse,
}

impl View for HttpResponseBuilder {
    type V = ResponseView;

    closed spec fn view(&self) -> ResponseView {
        self.response@
    }
}

/// A response with a header set.
pub open spec fn response_with_header(
    response: ResponseView,
    name: Seq<char>,
    value: Seq<char>,
) -> ResponseView {
    ResponseView { headers: with_header(response.headers, name, value), ..response }
}

/// A response with a body, and with the header that gives its length.
pub open spec fn response_with_body(response: ResponseView, body: Seq<u8>) -> ResponseView {
    ResponseView {
        body,
        ..response_with_header(response, "Content-Length"@, decimal(body.len()))
    }
}

/// A response with a status, an empty body, and the header that says so.
pub open spec fn empty_response(status: u16) -> ResponseView {
    response_with_body(
        ResponseView { status, headers: Map::empty(), body: Seq::empty() },
        Seq::empty(),
    )
}

impl vstd::std_specs::convert::FromSpecImpl<HttpResponseBuilder> for HttpResponse {
    open spec fn obeys_from_spec() -> bool {
        true
    }

    closed spec fn from_spec(b: HttpResponseBuilder) -> HttpResponse {
        b.response
    }
}

impl From<HttpResponseBuilder> for HttpResponse {
    fn from(b: HttpResponseBuilder) -> (r: HttpResponse)
        ensures
            r@ == b@,
    {
        b.response
    }
}

impl HttpResponseBuilder {
    pub fn new(code: u16) -> (r: Self)
        ensures
            r@ == empty_response(code),
    {
        let builder = HttpResponseBuilder {
            response: HttpResponse { status: code, headers: headers_new(), body: Vec::new() },
        };
        builder.body(Vec::new())
    }

    /// The response as it is sent. There must be a phrase for its status;
    /// [`Self::try_to_vec`] finds out.
    pub fn to_vec(&self) -> (r: Vec<u8>)
        requires
            reason_phrase(self@.status) is Some,
        ensures
            is_written(self@, reason_phrase(self@.status)->0, r@),
            is_phrase(reason_phrase(self@.status)->0),
    {
        self.response.to_vec()
    }

    /// The response as it is sent; nothing where there is no phrase for its status.
    pub fn try_to_vec(&self) -> (r: Option<Vec<u8>>)
        ensures
            r is Some <==> reason_phrase(self@.status) is Some,
            r matches Some(bytes) ==> is_written(self@, reason_phrase(self@.status)->0, bytes@)
                && is_phrase(reason_phrase(self@.status)->0),
    {
        match status_reason(self.response.status) {
            Some(_) => Some(self.to_vec()),
            None => None,
        }
    }

    /// The answer that there is nothing under an address.
    pub fn not_found() -> (r: Self)
        ensures
            r@ == empty_response(404),
    {
        Self::new(404)
    }

    /// The answer that sends the client to another address.
    pub fn redirect(url: &str) -> (r: Self)
        ensures
            r@ == response_with_header(empty_response(302), "Location"@, url@),
    {
        Self::new(302).header("Location", url)
    }

    pub fn header(self, key: &str, val: &str) -> (r: Self)
        ensures
            r@ == response_with_header(self@, key@, val@),
    {
        let mut response = self.response;
        headers_insert(&mut response.headers, key, val);
        HttpResponseBuilder { response }
    }

    /// Sets the body, and the header that gives its length.
    pub fn body(self, body: Vec<u8>) -> (r: Self)
        ensures
            r@ == response_with_body(self@, body@),
    {
        let builder = self.header("Content-Length", usize_to_string(body.len()).as_str());
        let mut response = builder.response;
        response.body = body;
        HttpResponseBuilder { response }
    }

    pub fn content_type(self, ty: &str) -> (r: Self)
        ensures
            r@ == response_with_header(self@, "Content-Type"@, ty@),
    {
        self.header("Content-Type", ty)
    }

    /// Sets a body that is JSON.
    pub fn json(self, body: Vec<u8>) -> (r: Self)
        ensures
            r@ == response_with_body(
                response_with_header(self@, "Content-Type"@, "application/json"@),
                body@,
            ),
    {
        self.content_type("application/json").body(body)
    }

    pub fn keep_alive(self) -> (r: Self)
        ensures
            r@ == response_with_header(self@, "Connection"@, "Keep-Alive"@),
    {
        self.header("Connection", "Keep-Alive")
    }

    pub fn close(self) -> (r: Self)
        ensures
            r@ == response_with_header(self@, "Connection"@, "Close"@),
    {
        self.header("Connection", "Close")
    }

    pub fn build(self) -> (r: HttpResponse)
        ensures
            r@ == self@,
    {
        self.response
    }
}

} // verus!
