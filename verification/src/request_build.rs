//! Requests as a client writes them.
use crate::headers::{headers_insert, headers_map, lists, with_header, HeaderEntry, HeaderMap};
use crate::method::{HttpMethod, MethodView};
use crate::response::header_lines;
use crate::text::{decimal, usize_to_string};
use crate::uri::{divisible, uri_parts, Uri, UriView};
use http_req::request::{Method, RequestBuilder};
use http_req::response::Headers;
use vstd::prelude::*;
use vstd::utf8::encode_utf8;

verus! {

/// A method that a client can ask with.
#[derive(Debug, Clone, Copy, PartialEq, Eq, Structural)]
pub enum RequestMethod {
    Get,
    Post,
    Put,
    Options,
    Delete,
    Head,
}

/// The method that a client can ask with, if there is one.
pub open spec fn askable(method: MethodView) -> Option<RequestMethod> {
    match method {
        MethodView::Get => Some(RequestMethod::Get),
        MethodView::Post => Some(RequestMethod::Post),
        MethodView::Put => Some(RequestMethod::Put),
        MethodView::Options => Some(RequestMethod::Options),
        MethodView::Delete => Some(RequestMethod::Delete),
        MethodView::Head => Some(RequestMethod::Head),
        MethodView::Connect => None,
        MethodView::Unknown(_) => None,
    }
}

impl RequestMethod {
    /// The method that a client can ask with, if there is one.
    pub fn from_method(method: &HttpMethod) -> (r: Option<RequestMethod>)
        ensures
            r == askable(method@),
    {
        match method {
            HttpMethod::Get => Some(RequestMethod::Get),
            HttpMethod::Post => Some(RequestMethod::Post),
            HttpMethod::Put => Some(RequestMethod::Put),
            HttpMethod::Options => Some(RequestMethod::Options),
            HttpMethod::Delete => Some(RequestMethod::Delete),
            HttpMethod::Head => Some(RequestMethod::Head),
            HttpMethod::Connect => None,
            HttpMethod::Unknown(_) => None,
        }
    }
}

/// A method as it stands in a request.
pub open spec fn method_text(method: RequestMethod) -> Seq<char> {
    match method {
        RequestMethod::Get => "GET"@,
        RequestMethod::Post => "POST"@,
        RequestMethod::Put => "PUT"@,
        RequestMethod::Options => "OPTIONS"@,
        RequestMethod::Delete => "DELETE"@,
        RequestMethod::Head => "HEAD"@,
    }
}

/// The headers that any request to an address has: the host and the address itself.
pub open spec fn default_headers(uri: UriView) -> HeaderMap {
    let host = match uri.host_header {
        Some(host) => host,
        None => ""@,
    };
    with_header(with_header(Map::empty(), "Host"@, host), "Referer"@, uri.shown)
}

/// The first line of a request.
pub open spec fn request_line(method: Seq<char>, resource: Seq<char>) -> Seq<char> {
    method + " "@ + resource + " HTTP/1.1\r\n"@
}

/// The head of a request, with its headers in the order of `list`.
pub open spec fn request_text(
    method: Seq<char>,
    resource: Seq<char>,
    list: Seq<HeaderEntry>,
) -> Seq<char> {
    request_line(method, resource) + header_lines(list) + "\r\n"@
}

/// What follows the head of a request.
pub open spec fn body_bytes(body: Option<Seq<u8>>) -> Seq<u8> {
    match body {
        Some(bytes) => bytes,
        None => Seq::empty(),
    }
}

/// Whether `bytes` are a request, with the headers in some order.
pub open spec fn is_request(
    method: RequestMethod,
    resource: Seq<char>,
    headers: HeaderMap,
    body: Option<Seq<u8>>,
    bytes: Seq<u8>,
) -> bool {
    exists|list: Seq<HeaderEntry>|
        #[trigger] lists(headers, list) && bytes == encode_utf8(
            request_text(method_text(method), resource, list),
        ) + body_bytes(body)
}

/// The view of an optional body.
pub open spec fn body_view(body: Option<Vec<u8>>) -> Option<Seq<u8>> {
    match body {
        Some(bytes) => Some(bytes@),
        None => None,
    }
}

/// `http_req::response::Headers::default_http`: the headers that any request to an address has.
#[verifier::external_body]
pub(crate) fn default_http_headers(text: &str) -> (r: Headers)
    requires
        divisible(text@),
        uri_parts(text@) is Some,
    ensures
        headers_map(r) == default_headers(uri_parts(text@)->0),
{
    let uri: http_req::uri::Uri = text.parse().unwrap();
    Headers::default_http(&uri)
}

/// `http_req::request::RequestBuilder::parse_msg`: a request as it is sent, with its headers in an
/// order that is not told.
#[verifier::external_body]
pub(crate) fn request_message(
    text: &str,
    method: RequestMethod,
    headers: &Headers,
    body: &Option<Vec<u8>>,
) -> (r: Vec<u8>)
    requires
        divisible(text@),
        uri_parts(text@) is Some,
    ensures
        is_request(
            method,
            uri_parts(text@)->0.resource,
            headers_map(*headers),
            body_view(*body),
            r@,
        ),
{
    let uri: http_req::uri::Uri = text.parse().unwrap();
    let method = match method {
        RequestMethod::Get => Method::GET, RequestMethod::Post => Method::POST,
        RequestMethod::Put => Method::PUT, RequestMethod::Options => Method::OPTIONS,
        RequestMethod::Delete => Method::DELETE, RequestMethod::Head => Method::HEAD,
    };
    let mut request = RequestBuilder::new(&uri);
    request.method(method).headers(headers.clone());
    if let Some(body) = body {
        request.body(body);
    }
    request.parse_msg()
}

/// Puts a request together.
pub struct HttpRequestBuilder {
    uri: Uri,
    method: RequestMethod,
    headers: Headers,
    body: Option<Vec<u8>>,
}

/// What an [`HttpRequestBuilder`] holds.
pub struct RequestBuildView {
    pub uri: UriView,
    pub method: RequestMethod,
    pub headers: HeaderMap,
    pub body: Option<Seq<u8>>,
}

impl View for HttpRequestBuilder {
    type V = RequestBuildView;

    closed spec fn view(&self) -> RequestBuildView {
        RequestBuildView {
            uri: self.uri@,
            method: self.method,
            headers: headers_map(self.headers),
            body: body_view(self.body),
        }
    }
}

/// A request that asks for what is under an address, or sends a body there.
pub open spec fn base_request(uri: UriView, body: Option<Seq<u8>>) -> RequestBuildView {
    RequestBuildView {
        uri,
        method: RequestMethod::Get,
        headers: match body {
            Some(bytes) => with_header(
                default_headers(uri),
                "Content-Length"@,
                decimal(bytes.len()),
            ),
            None => default_headers(uri),
        },
        body,
    }
}

/// Whether `bytes` are the request that is put together.
pub open spec fn is_message_of(request: RequestBuildView, bytes: Seq<u8>) -> bool {
    is_request(request.method, request.uri.resource, request.headers, request.body, bytes)
}

impl HttpRequestBuilder {
    /// A request with a method that a client can ask with.
    pub fn new(method: HttpMethod, uri: Uri, body: Option<Vec<u8>>) -> (r: Self)
        requires
            askable(method@) is Some,
        ensures
            r@ == (RequestBuildView {
                method: askable(method@)->0,
                ..base_request(uri@, body_view(body))
            }),
    {
        let method = match RequestMethod::from_method(&method) {
            Some(method) => method,
            None => RequestMethod::Get,
        };
        Self::base(uri, body).method(method)
    }

    /// A request that `f` gives the last touch.
    pub fn new_ex<F: FnOnce(HttpRequestBuilder) -> HttpRequestBuilder>(
        uri: Uri,
        body: Option<Vec<u8>>,
        f: F,
    ) -> (r: Self)
        requires
            forall|base: HttpRequestBuilder|
                base@ == base_request(uri@, body_view(body)) ==> #[trigger] f.requires((base,)),
        ensures
            exists|base: HttpRequestBuilder|
                base@ == base_request(uri@, body_view(body)) && #[trigger] f.ensures((base,), r),
    {
        f(Self::base(uri, body))
    }

    fn base(uri: Uri, body: Option<Vec<u8>>) -> (r: Self)
        ensures
            r@ == base_request(uri@, body_view(body)),
    {
        let mut headers = default_http_headers(uri.source());
        if let Some(bytes) = &body {
            headers_insert(
                &mut headers,
                "Content-Length",
                usize_to_string(bytes.len()).as_str(),
            );
        }
        HttpRequestBuilder { uri, method: RequestMethod::Get, headers, body }
    }

    /// The request with another method.
    pub fn method(self, method: RequestMethod) -> (r: Self)
        ensures
            r@ == (RequestBuildView { method, ..self@ }),
    {
        HttpRequestBuilder { uri: self.uri, method, headers: self.headers, body: self.body }
    }

    /// The request with a header set.
    pub fn header(self, key: &str, val: &str) -> (r: Self)
        ensures
            r@ == (RequestBuildView { headers: with_header(self@.headers, key@, val@), ..self@ }),
    {
        let mut headers = self.headers;
        headers_insert(&mut headers, key, val);
        HttpRequestBuilder { uri: self.uri, method: self.method, headers, body: self.body }
    }

    pub fn uri(&self) -> (r: &Uri)
        ensures
            r@ == self@.uri,
    {
        &self.uri
    }

    /// The request as it is sent.
    pub fn parse_msg(&self) -> (r: Vec<u8>)
        ensures
            is_message_of(self@, r@),
    {
        request_message(self.uri.source(), self.method, &self.headers, &self.body)
    }
}

} // verus!
