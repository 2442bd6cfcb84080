//! Requests as a server reads them.
use crate::error::{HttpError, HttpParseError, HttpParseError as Wrong};
use crate::method::{method_named, HttpMethod, MethodView};
use crate::sent_request::sent_or;
use crate::stream::text_view;
use crate::text::{
    from_utf8_lossy, lossy_text, number_in, parse_usize, same_ignoring_case, str_eq,
};
use httparse::{Error as RawError, Request, Status};
use vstd::prelude::*;
use vstd::slice::slice_subrange;
use vstd::utf8::encode_utf8;

verus! {

/// A header of a request.
#[derive(Debug)]
pub struct HttpHeader {
    pub name: String,
    pub value: Vec<u8>,
}

/// What an [`HttpHeader`] holds.
#[verifier::ext_equal]
pub struct HeaderView {
    pub name: Seq<char>,
    pub value: Seq<u8>,
}

impl View for HttpHeader {
    type V = HeaderView;

    open spec fn view(&self) -> HeaderView {
        HeaderView { name: self.name@, value: self.value@ }
    }
}

/// What each header of a list holds.
pub open spec fn header_views(headers: Seq<HttpHeader>) -> Seq<HeaderView> {
    headers.map_values(|h: HttpHeader| h@)
}

/// The head of a request: the request line and the headers. There are always 64 headers; those
/// that the request does not have are empty.
#[derive(Debug)]
pub struct RequestHead {
    pub method: Option<String>,
    pub path: Option<String>,
    pub headers: Vec<HttpHeader>,
    /// How many bytes the head takes.
    pub len: usize,
}

/// What a [`RequestHead`] holds.
#[verifier::ext_equal]
pub struct RequestHeadView {
    pub method: Option<Seq<char>>,
    pub path: Option<Seq<char>>,
    pub headers: Seq<HeaderView>,
    pub len: nat,
}

impl View for RequestHead {
    type V = RequestHeadView;

    open spec fn view(&self) -> RequestHeadView {
        RequestHeadView {
            method: text_view(self.method),
            path: text_view(self.path),
            headers: header_views(self.headers@),
            len: self.len as nat,
        }
    }
}

/// The outcome of parsing the head of a request.
pub type ParsedRequest = Result<Option<RequestHead>, HttpParseError>;

/// What a [`ParsedRequest`] holds.
pub open spec fn parsed_view(parsed: ParsedRequest) -> Result<
    Option<RequestHeadView>,
    HttpParseError,
> {
    match parsed {
        Ok(Some(head)) => Ok(Some(head@)),
        Ok(None) => Ok(None),
        Err(e) => Err(e),
    }
}

/// What `httparse::Request::parse` makes of `buf`, with room for 64 headers: the head of a
/// request, nothing where `buf` ends before the head does, or what is wrong with it.
pub uninterp spec fn request_head(buf: Seq<u8>) -> Result<Option<RequestHeadView>, HttpParseError>;

/// What looking for the head of a request comes to.
pub open spec fn parsed_request(buf: Seq<u8>) -> Result<Option<RequestHeadView>, HttpParseError> {
    sent_or(buf, request_head(buf))
}

/// `buf` starts with the head of a request, and whatever starts with the same bytes has that head.
pub open spec fn head_settled(buf: Seq<u8>) -> bool {
    match parsed_request(buf) {
        Ok(Some(head)) => {
            &&& head.len <= buf.len()
            &&& forall|other: Seq<u8>|
                head.len <= other.len() && other.take(head.len as int) == buf.take(
                    head.len as int,
                ) ==> #[trigger] parsed_request(other) == parsed_request(buf)
        },
        _ => false,
    }
}

/// `httparse::Request::parse` on a request that has room for 64 headers. It is stated by
/// [`sent_or`] what comes of bytes that start with the head of a request as clients send it, and
/// that a part of such a head is not enough; what comes of others goes by the name
/// [`request_head`]. Of a head that is complete it is stated that it lies within `buf`, that the
/// header table has 64 entries, and that the bytes after the head have no part in it.
#[verifier::external_body]
pub(crate) fn parse_request(buf: &[u8]) -> (r: ParsedRequest)
    ensures
        parsed_view(r) == sent_or(buf@, request_head(buf@)),
        r matches Ok(Some(head)) ==> head.headers@.len() == 64 && head_settled(buf@),
{
    let mut slots = [httparse::EMPTY_HEADER; 64];
    let mut req = Request::new(&mut slots);
    let status = req.parse(buf).map_err(|e| match e {
        RawError::HeaderName => Wrong::HeaderName, RawError::HeaderValue => Wrong::HeaderValue,
        RawError::NewLine => Wrong::NewLine, RawError::Status => Wrong::Status,
        RawError::TooManyHeaders => Wrong::TooManyHeaders, RawError::Token => Wrong::Token,
        RawError::Version => Wrong::Version,
    })?;
    Ok(match status {
        Status::Complete(len) => Some(RequestHead {
            method: req.method.map(str::to_owned), path: req.path.map(str::to_owned), len,
            headers: slots.iter().map(|h| HttpHeader { name: h.name.into(), value: h.value.into() }).collect(),
        }),
        Status::Partial => None,
    })
}

/// Whether a header is the one that gives the length of the body.
pub open spec fn is_content_length(header: HeaderView) -> bool {
    same_ignoring_case(header.name, "content-length"@)
}

/// The length that headers give for the body: the number in the first `Content-Length`, zero
/// where there is none; nothing where it holds no number.
pub open spec fn declared_length(headers: Seq<HeaderView>) -> Option<nat>
    decreases headers.len(),
{
    if headers.len() == 0 {
        Some(0)
    } else if is_content_length(headers[0]) {
        number_in(encode_utf8(lossy_text(headers[0].value)))
    } else {
        declared_length(headers.drop_first())
    }
}

/// Finds the length that `headers` give for the body.
pub fn content_length(headers: &Vec<HttpHeader>) -> (r: Option<usize>)
    ensures
        r is Some <==> declared_length(header_views(headers@)) is Some,
        r matches Some(n) ==> declared_length(header_views(headers@)) == Some(n as nat),
{
    let ghost all = header_views(headers@);
    let mut i: usize = 0;
    assert(all.skip(0) =~= all);
    while i < headers.len()
        invariant
            i <= headers@.len(),
            all == header_views(headers@),
            declared_length(all) == declared_length(all.skip(i as int)),
        decreases headers@.len() - i,
    {
        assert(all.skip(i as int)[0] == headers@[i as int]@);
        if headers[i].name.as_str().eq_ignore_ascii_case("content-length") {
            let text = from_utf8_lossy(headers[i].value.as_slice());
            return parse_usize(text.as_str());
        }
        assert(all.skip(i as int).drop_first() =~= all.skip(i as int + 1));
        i += 1;
    }
    Some(0)
}

/// The sizes of the head and of the body that the outcome of parsing a head tells: none where the
/// head is not complete, or no token was found.
pub open spec fn measured(
    parsed: Result<Option<RequestHeadView>, HttpParseError>,
) -> Result<Option<(nat, nat)>, HttpParseError> {
    match parsed {
        Err(HttpParseError::Token) => Ok(None),
        Err(e) => Err(e),
        Ok(None) => Ok(None),
        Ok(Some(head)) => match declared_length(head.headers) {
            None => Err(HttpParseError::HeaderValue),
            Some(n) => Ok(Some((head.len, n))),
        },
    }
}

/// The size of the request that `buf` starts with, head and body.
pub open spec fn request_size(buf: Seq<u8>) -> Result<Option<nat>, HttpParseError> {
    match measured(parsed_request(buf)) {
        Ok(Some((head, body))) => Ok(Some(head + body)),
        Ok(None) => Ok(None),
        Err(e) => Err(e),
    }
}

/// Whether the size of the request that `buf` starts with, if it is known, fits a machine word.
pub open spec fn size_fits(buf: Seq<u8>) -> bool {
    request_size(buf) matches Ok(Some(n)) ==> n <= usize::MAX
}

/// A request that was read.
#[derive(Debug)]
pub struct HttpRequestReaderEx {
    buf: Vec<u8>,
    body_at: usize,
    headers: Vec<HttpHeader>,
    path: Option<String>,
    method: HttpMethod,
    peer_ip: Option<String>,
}

pub type HttpRequestReader = HttpRequestReaderEx;

/// What an [`HttpRequestReaderEx`] holds.
#[verifier::ext_equal]
pub struct RequestView {
    pub method: MethodView,
    pub path: Option<Seq<char>>,
    pub headers: Seq<HeaderView>,
    pub body: Seq<u8>,
    pub size: nat,
    pub peer_ip: Option<Seq<char>>,
}

impl View for HttpRequestReaderEx {
    type V = RequestView;

    closed spec fn view(&self) -> RequestView {
        RequestView {
            method: self.method@,
            path: text_view(self.path),
            headers: header_views(self.headers@),
            body: self.buf@.skip(self.body_at as int),
            size: self.buf@.len(),
            peer_ip: text_view(self.peer_ip),
        }
    }
}

/// The request that `buf` holds, with the head `head`: what follows the head is the body.
pub open spec fn request_in(
    buf: Seq<u8>,
    head: RequestHeadView,
    peer_ip: Option<Seq<char>>,
) -> RequestView {
    RequestView {
        method: method_named(
            match head.method {
                Some(name) => name,
                None => ""@,
            },
        ),
        path: head.path,
        headers: head.headers,
        body: buf.skip(head.len as int),
        size: buf.len(),
        peer_ip,
    }
}

impl HttpRequestReaderEx {
    #[verifier::type_invariant]
    spec fn inv(self) -> bool {
        self.body_at <= self.buf@.len()
    }

    /// The request that `buf` holds, given its head.
    pub fn with_head(buf: Vec<u8>, head: RequestHead, peer_ip: Option<String>) -> (r: Self)
        requires
            head.len <= buf@.len(),
        ensures
            r@ == request_in(buf@, head@, text_view(peer_ip)),
    {
        let method = match &head.method {
            Some(name) => HttpMethod::from(name.as_str()),
            None => HttpMethod::from(""),
        };
        HttpRequestReaderEx {
            buf,
            body_at: head.len,
            headers: head.headers,
            path: head.path,
            method,
            peer_ip,
        }
    }

    /// Reads the request in `buf`; all that follows the head is the body. Nothing where the head
    /// is not complete.
    pub fn new(buf: Vec<u8>, peer_ip: Option<String>) -> (r: Result<Option<Self>, HttpError>)
        ensures
            match parsed_request(buf@) {
                Err(e) => r == Err::<Option<Self>, HttpError>(HttpError::ParseError(e)),
                Ok(None) => r == Ok::<Option<Self>, HttpError>(None),
                Ok(Some(head)) => r matches Ok(Some(req)) && req@ == request_in(
                    buf@,
                    head,
                    text_view(peer_ip),
                ),
            },
    {
        match parse_request(buf.as_slice()) {
            Err(e) => Err(HttpError::ParseError(e)),
            Ok(None) => Ok(None),
            Ok(Some(head)) => Ok(Some(Self::with_head(buf, head, peer_ip))),
        }
    }

    pub fn method(&self) -> (r: HttpMethod)
        ensures
            r@ == self@.method,
    {
        self.method.clone()
    }

    /// The path that was asked for, `/` where the request gives none.
    pub fn path(&self) -> (r: &str)
        ensures
            r@ == (match self@.path {
                Some(path) => path,
                None => "/"@,
            }),
    {
        match &self.path {
            Some(path) => path.as_str(),
            None => "/",
        }
    }

    /// How many bytes the request takes, head and body.
    pub fn request_size(&self) -> (r: usize)
        ensures
            r == self@.size,
    {
        self.buf.len()
    }

    pub fn headers(&self) -> (r: &Vec<HttpHeader>)
        ensures
            header_views(r@) == self@.headers,
    {
        &self.headers
    }

    pub fn body(&self) -> (r: &[u8])
        ensures
            r@ == self@.body,
    {
        proof {
            use_type_invariant(self);
        }
        let r = slice_subrange(self.buf.as_slice(), self.body_at, self.buf.len());
        assert(r@ =~= self@.body);
        r
    }

    pub fn peer_ip(&self) -> (r: Option<&String>)
        ensures
            r is Some <==> self@.peer_ip is Some,
            r matches Some(ip) ==> self@.peer_ip == Some(ip@),
    {
        self.peer_ip.as_ref()
    }

    /// The value of the first header whose name is `Origin`, to the letter.
    pub fn origin(&self) -> (r: Option<String>)
        ensures
            match origin_of(self@.headers) {
                Some(value) => r matches Some(text) && text@ == lossy_text(value),
                None => r is None,
            },
    {
        let ghost all = header_views(self.headers@);
        let mut i: usize = 0;
        assert(all.skip(0) =~= all);
        while i < self.headers.len()
            invariant
                i <= self.headers@.len(),
                all == header_views(self.headers@),
                origin_of(all) == origin_of(all.skip(i as int)),
            decreases self.headers@.len() - i,
        {
            assert(all.skip(i as int)[0] == self.headers@[i as int]@);
            if str_eq(self.headers[i].name.as_str(), "Origin") {
                return Some(from_utf8_lossy(self.headers[i].value.as_slice()));
            }
            assert(all.skip(i as int).drop_first() =~= all.skip(i as int + 1));
            i += 1;
        }
        None
    }

    /// The sizes of the head and of the body, from the outcome of parsing the head.
    pub fn measure(parsed: &ParsedRequest) -> (r: Result<Option<(usize, usize)>, HttpError>)
        ensures
            match measured(parsed_view(*parsed)) {
                Ok(Some((head, body))) => r matches Ok(Some((h, b))) && h == head && b == body,
                Ok(None) => r == Ok::<_, HttpError>(None::<(usize, usize)>),
                Err(e) => r == Err::<Option<(usize, usize)>, _>(HttpError::ParseError(e)),
            },
    {
        match parsed {
            Err(HttpParseError::Token) => Ok(None),
            Err(e) => Err(HttpError::ParseError(*e)),
            Ok(None) => Ok(None),
            Ok(Some(head)) => match content_length(&head.headers) {
                None => Err(HttpError::ParseError(HttpParseError::HeaderValue)),
                Some(n) => Ok(Some((head.len, n))),
            },
        }
    }

    /// The size of the request that `buf` starts with, head and body: nothing where the head is
    /// not complete. The size must fit a machine word; [`Self::try_request_size`] finds out.
    pub fn get_request_size(buf: &[u8]) -> (r: Result<Option<usize>, HttpError>)
        requires
            size_fits(buf@),
        ensures
            match request_size(buf@) {
                Ok(Some(size)) => (r matches Ok(Some(n)) && n == size) && head_settled(buf@),
                Ok(None) => r == Ok::<_, HttpError>(None::<usize>),
                Err(e) => r == Err::<Option<usize>, _>(HttpError::ParseError(e)),
            },
    {
        let parsed = parse_request(buf);
        match Self::measure(&parsed) {
            Ok(Some((head, body))) => Ok(Some(head + body)),
            Ok(None) => Ok(None),
            Err(e) => Err(e),
        }
    }

    /// The size of the request that `buf` starts with, as [`Self::get_request_size`] gives it;
    /// `None` where it does not fit a machine word.
    pub fn try_request_size(buf: &[u8]) -> (r: Option<Result<Option<usize>, HttpError>>)
        ensures
            r is None <==> !size_fits(buf@),
            r matches Some(size) ==> match request_size(buf@) {
                Ok(Some(total)) => (size matches Ok(Some(n)) && n == total) && head_settled(buf@),
                Ok(None) => size == Ok::<_, HttpError>(None::<usize>),
                Err(e) => size == Err::<Option<usize>, _>(HttpError::ParseError(e)),
            },
    {
        let parsed = parse_request(buf);
        match Self::measure(&parsed) {
            Ok(Some((head, body))) => {
                if body > usize::MAX - head {
                    None
                } else {
                    Some(Self::get_request_size(buf))
                }
            },
            _ => Some(Self::get_request_size(buf)),
        }
    }
}

/// The value of the first header whose name is `Origin`.
pub open spec fn origin_of(headers: Seq<HeaderView>) -> Option<Seq<u8>>
    decreases headers.len(),
{
    if headers.len() == 0 {
        None
    } else if headers[0].name == "Origin"@ {
        Some(headers[0].value)
    } else {
        origin_of(headers.drop_first())
    }
}

} // verus!
