//! Addresses.
use crate::error::{HttpError, HttpErrorView};
use crate::stream::text_view;
use crate::text::{decimal, str_eq, usize_to_string};
use vstd::prelude::*;
use vstd::string::{StrSliceExecFns, StringExecFns};

verus! {

#[verifier::external_type_specification]
#[verifier::external_body]
pub struct ExUriError(http_req::error::Error);

/// A text is not an address.
#[derive(Debug, Clone, Copy, PartialEq, Eq, Structural)]
pub struct UriError;

/// The parts of an address.
pub struct UriParts {
    pub scheme: String,
    pub host: Option<String>,
    pub port: Option<u16>,
    pub path: Option<String>,
    /// What is asked for: the path and what follows it.
    pub resource: String,
    /// The host, with the port where it is not a usual one.
    pub host_header: Option<String>,
    /// The whole address, with a password made unreadable.
    pub shown: String,
}

/// What [`UriParts`] hold.
pub struct UriView {
    pub scheme: Seq<char>,
    pub host: Option<Seq<char>>,
    pub port: Option<u16>,
    pub path: Option<Seq<char>>,
    pub resource: Seq<char>,
    pub host_header: Option<Seq<char>>,
    pub shown: Seq<char>,
}

impl View for UriParts {
    type V = UriView;

    open spec fn view(&self) -> UriView {
        UriView {
            scheme: self.scheme@,
            host: text_view(self.host),
            port: self.port,
            path: text_view(self.path),
            resource: self.resource@,
            host_header: text_view(self.host_header),
            shown: self.shown@,
        }
    }
}

/// Whether a character is white space, as Unicode has it.
pub open spec fn white_space(c: char) -> bool {
    let n = c as u32;
    ||| 9 <= n <= 13
    ||| n == 0x20
    ||| n == 0x85
    ||| n == 0xa0
    ||| n == 0x1680
    ||| 0x2000 <= n <= 0x200a
    ||| n == 0x2028
    ||| n == 0x2029
    ||| n == 0x202f
    ||| n == 0x205f
    ||| n == 0x3000
}

/// How many bytes encode a character.
pub open spec fn char_width(c: char) -> nat {
    let n = c as u32;
    if n < 0x80 {
        1
    } else if n < 0x800 {
        2
    } else if n < 0x10000 {
        3
    } else {
        4
    }
}

/// A text without its white space.
pub open spec fn squeezed(text: Seq<char>) -> Seq<char> {
    text.filter(|c: char| !white_space(c))
}

/// Whether two slashes stand side by side.
pub open spec fn has_slashes(text: Seq<char>) -> bool {
    exists|i: int| 0 <= i < text.len() - 1 && #[trigger] text[i] == '/' && text[i + 1] == '/'
}

/// Whether a character ends at the second byte of a text.
pub open spec fn splits_at_two(text: Seq<char>) -> bool {
    char_width(text[0]) == 2 || (char_width(text[0]) == 1 && char_width(text[1]) == 1)
}

/// Whether a text can be taken apart: the parser cuts what follows the first colon behind its
/// second byte if it has two slashes side by side, and a character must end there. A text that
/// starts with a colon is refused before that.
pub open spec fn divisible(text: Seq<char>) -> bool {
    let t = squeezed(text);
    forall|k: int|
        0 < k < t.len() && #[trigger] t[k] == ':' && !t.take(k).contains(':') && has_slashes(
            t.skip(k + 1),
        ) ==> splits_at_two(t.skip(k + 1))
}

/// The parts that `http_req::uri::Uri` finds in a text, if the text is an address.
pub uninterp spec fn uri_parts(text: Seq<char>) -> Option<UriView>;

/// `http_req::uri::Uri::from_str` and, where it succeeds, what `scheme`, `host`, `port`, `path`,
/// `resource`, `host_header` and `to_string` give. They go by the name [`uri_parts`]; it is stated
/// that a text without a colon, which is all scheme, is taken. The parser panics where it has to
/// cut inside a character, which `divisible` leaves out.
#[verifier::external_body]
pub(crate) fn parse_uri(text: &str) -> (r: Result<UriParts, http_req::error::Error>)
    requires
        divisible(text@),
    ensures
        uri_parts(text@) == (match r {
            Ok(parts) => Some(parts@),
            Err(_) => None,
        }),
        squeezed(text@).len() > 0 && !squeezed(text@).contains(':') ==> r is Ok,
{
    let uri: http_req::uri::Uri = text.parse()?;
    Ok(UriParts {
        scheme: uri.scheme().to_owned(),
        host: uri.host().map(str::to_owned),
        port: uri.port(),
        path: uri.path().map(str::to_owned),
        resource: uri.resource().to_owned(),
        host_header: uri.host_header(),
        shown: uri.to_string(),
    })
}

/// An address.
pub struct Uri {
    text: String,
    parts: UriParts,
}

impl View for Uri {
    type V = UriView;

    closed spec fn view(&self) -> UriView {
        self.parts@
    }
}

/// Whether a scheme is one over TLS, if it is known.
pub open spec fn tls_scheme(scheme: Seq<char>) -> Option<bool> {
    if scheme == "http"@ || scheme == "ws"@ {
        Some(false)
    } else if scheme == "https"@ || scheme == "wss"@ {
        Some(true)
    } else {
        None
    }
}

/// The complaint that an address has no host.
pub open spec fn no_host() -> HttpErrorView {
    HttpErrorView::InvalidURI("missing host"@)
}

/// The complaint that the scheme of an address is not known.
pub open spec fn bad_scheme(scheme: Seq<char>) -> HttpErrorView {
    HttpErrorView::InvalidURI("unexpected uri scheme: "@ + scheme)
}

/// The port of an address: the one it gives, or else the usual one of its scheme.
pub open spec fn port_of(uri: UriView) -> Result<u16, HttpErrorView> {
    match (uri.port, tls_scheme(uri.scheme)) {
        (Some(port), _) => Ok(port),
        (None, Some(true)) => Ok(443),
        (None, Some(false)) => Ok(80),
        (None, None) => Err(bad_scheme(uri.scheme)),
    }
}

/// The host and the port of an address.
pub open spec fn host_and_port_of(uri: UriView) -> Result<(Seq<char>, u16), HttpErrorView> {
    match (uri.host, port_of(uri)) {
        (None, _) => Err(no_host()),
        (Some(_), Err(e)) => Err(e),
        (Some(host), Ok(port)) => Ok((host, port)),
    }
}

/// Scheme, host and port in one text.
pub open spec fn address(scheme: Seq<char>, host: Seq<char>, port: u16) -> Seq<char> {
    scheme + "://"@ + host + ":"@ + decimal(port as nat)
}

fn copied_text(text: &Option<String>) -> (r: Option<String>)
    ensures
        text_view(r) == text_view(*text),
{
    match text {
        Some(t) => Some(t.clone()),
        None => None,
    }
}

impl Clone for Uri {
    fn clone(&self) -> (r: Self)
        ensures
            r@ == self@,
            r.text() == self.text(),
    {
        proof {
            use_type_invariant(self);
        }
        let parts = UriParts {
            scheme: self.parts.scheme.clone(),
            host: copied_text(&self.parts.host),
            port: self.parts.port,
            path: copied_text(&self.parts.path),
            resource: self.parts.resource.clone(),
            host_header: copied_text(&self.parts.host_header),
            shown: self.parts.shown.clone(),
        };
        let text = self.text.clone();
        assert(parts@ == self.parts@);
        Uri { text, parts }
    }
}

impl Uri {
    /// The text is the one that the parts were found in.
    #[verifier::type_invariant]
    spec fn inv(self) -> bool {
        divisible(self.text@) && uri_parts(self.text@) == Some(self.parts@)
    }

    /// The text that the address was read from.
    pub closed spec fn text(self) -> Seq<char> {
        self.text@
    }

    /// Reads an address.
    pub fn new(url: &str) -> (r: Result<Uri, UriError>)
        requires
            divisible(url@),
        ensures
            uri_parts(url@) == (match r {
                Ok(uri) => Some(uri@),
                Err(_) => None,
            }),
            r matches Ok(uri) ==> uri.text() == url@,
    {
        match parse_uri(url) {
            Ok(parts) => {
                let text = url.to_owned();
                Ok(Uri { text, parts })
            },
            Err(_) => Err(UriError),
        }
    }

    /// Reads an address; nothing where the text cannot be taken apart.
    pub fn try_new(url: &str) -> (r: Option<Result<Uri, UriError>>)
        ensures
            r is None <==> !divisible(url@),
            r matches Some(read) ==> uri_parts(url@) == (match read {
                Ok(uri) => Some(uri@),
                Err(_) => None,
            }),
            r matches Some(Ok(uri)) ==> uri.text() == url@,
    {
        if is_divisible(url) {
            Some(Self::new(url))
        } else {
            None
        }
    }

    /// The text that the address was read from, with what is known of it.
    pub(crate) fn source(&self) -> (r: &str)
        ensures
            r@ == self.text(),
            divisible(r@),
            uri_parts(r@) == Some(self@),
    {
        proof {
            use_type_invariant(self);
        }
        self.text.as_str()
    }

    /// The parts of the address.
    pub fn parts(&self) -> (r: &UriParts)
        ensures
            r@ == self@,
    {
        &self.parts
    }

    /// The whole address, with a password made unreadable.
    pub fn to_string(&self) -> (r: String)
        ensures
            r@ == self@.shown,
    {
        self.parts.shown.clone()
    }

    pub fn scheme(&self) -> (r: &str)
        ensures
            r@ == self@.scheme,
    {
        self.parts.scheme.as_str()
    }

    pub fn host(&self) -> (r: Result<&str, HttpError>)
        ensures
            match r {
                Ok(host) => self@.host == Some(host@),
                Err(e) => self@.host is None && e@ == no_host(),
            },
    {
        match &self.parts.host {
            Some(host) => Ok(host.as_str()),
            None => Err(HttpError::InvalidURI("missing host".to_owned())),
        }
    }

    /// Scheme, host and port of an address that has them.
    pub fn tag(&self) -> (r: String)
        requires
            host_and_port_of(self@) is Ok,
        ensures
            r@ == address(
                self@.scheme,
                host_and_port_of(self@)->Ok_0.0,
                host_and_port_of(self@)->Ok_0.1,
            ),
    {
        match self.host_and_port() {
            Ok((host, port)) => Self::joined_parts(self.scheme(), host, port),
            Err(_) => String::new(),
        }
    }

    fn joined_parts(scheme: &str, host: &str, port: u16) -> (r: String)
        ensures
            r@ == address(scheme@, host@, port),
    {
        let mut text = scheme.to_owned();
        text.append("://");
        text.append(host);
        text.append(":");
        text.append(usize_to_string(port as usize).as_str());
        assert(text@ =~= address(scheme@, host@, port));
        text
    }

    /// Whether the address is to be reached over TLS.
    pub fn is_tls(&self) -> (r: Result<bool, HttpError>)
        ensures
            match r {
                Ok(tls) => tls_scheme(self@.scheme) == Some(tls),
                Err(e) => tls_scheme(self@.scheme) is None && e@ == bad_scheme(self@.scheme),
            },
    {
        let scheme = self.parts.scheme.as_str();
        if str_eq(scheme, "http") || str_eq(scheme, "ws") {
            Ok(false)
        } else if str_eq(scheme, "https") || str_eq(scheme, "wss") {
            Ok(true)
        } else {
            let mut text = "unexpected uri scheme: ".to_owned();
            text.append(scheme);
            Err(HttpError::InvalidURI(text))
        }
    }

    pub fn port(&self) -> (r: Result<u16, HttpError>)
        ensures
            port_of(self@) == (match r {
                Ok(port) => Ok(port),
                Err(e) => Err(e@),
            }),
    {
        if let Some(port) = self.parts.port {
            return Ok(port);
        }
        match self.is_tls() {
            Ok(true) => Ok(443),
            Ok(false) => Ok(80),
            Err(e) => Err(e),
        }
    }

    /// The path, `/` where the address has none.
    pub fn path(&self) -> (r: &str)
        ensures
            r@ == path_of(self@),
    {
        match &self.parts.path {
            Some(path) => path.as_str(),
            None => "/",
        }
    }

    pub fn host_and_port(&self) -> (r: Result<(&str, u16), HttpError>)
        ensures
            host_and_port_of(self@) == (match r {
                Ok((host, port)) => Ok((host@, port)),
                Err(e) => Err(e@),
            }),
    {
        let host = match self.host() {
            Ok(host) => host,
            Err(e) => return Err(e),
        };
        match self.port() {
            Ok(port) => Ok((host, port)),
            Err(e) => Err(e),
        }
    }

    /// Scheme, host and port: addresses that agree in them are reached over the same connections.
    pub fn stream_info(&self) -> (r: Result<String, HttpError>)
        ensures
            match (host_and_port_of(self@), r) {
                (Ok((host, port)), Ok(text)) => text@ == address(self@.scheme, host, port),
                (Err(e), Err(f)) => f@ == e,
                _ => false,
            },
    {
        match self.host_and_port() {
            Ok((host, port)) => Ok(Self::joined_parts(self.scheme(), host, port)),
            Err(e) => Err(e),
        }
    }
}

/// The path of an address, `/` where it has none.
pub open spec fn path_of(uri: UriView) -> Seq<char> {
    match uri.path {
        Some(path) => path,
        None => "/"@,
    }
}

/// White space taken out of a text that has none.
proof fn lemma_nothing_squeezed(text: Seq<char>)
    requires
        forall|i: int| 0 <= i < text.len() ==> !white_space(#[trigger] text[i]),
    ensures
        squeezed(text) == text,
    decreases text.len(),
{
    reveal(Seq::filter);
    if text.len() > 0 {
        lemma_nothing_squeezed(text.drop_last());
        assert(text.drop_last().push(text.last()) =~= text);
    }
}

/// An address that starts with a scheme and two slashes can be taken apart.
pub proof fn lemma_local_divisible(path: Seq<char>)
    ensures
        divisible("ws://localhost"@ + path),
{
    let front = "ws://localhost"@;
    reveal_strlit("ws://localhost");
    lemma_nothing_squeezed(front);
    Seq::filter_distributes_over_add(front, path, |c: char| !white_space(c));
    let t = squeezed(front + path);
    assert(t =~= front + squeezed(path));
    assert forall|k: int|
        0 < k < t.len() && #[trigger] t[k] == ':' && !t.take(k).contains(':') && has_slashes(
            t.skip(k + 1),
        ) implies splits_at_two(t.skip(k + 1)) by {
        assert(t[2] == ':');
        if k > 2 {
            assert(t.take(k)[2] == ':');
        }
        assert(t.skip(3)[0] == '/' && t.skip(3)[1] == '/');
    }
}

/// A short text without a colon or white space is taken for an address.
pub(crate) proof fn lemma_plain_word(text: Seq<char>)
    requires
        text.len() > 0,
        forall|i: int| 0 <= i < text.len() ==> !white_space(#[trigger] text[i]) && text[i] != ':',
    ensures
        divisible(text),
        squeezed(text).len() > 0,
        !squeezed(text).contains(':'),
{
    lemma_nothing_squeezed(text);
}

impl Uri {
    /// An address of nothing in particular: one word without a colon or white space.
    pub(crate) fn word(text: &str) -> (r: Uri)
        requires
            text@.len() > 0,
            forall|i: int|
                0 <= i < text@.len() ==> !white_space(#[trigger] text@[i]) && text@[i] != ':',
        ensures
            uri_parts(text@) == Some(r@),
    {
        proof {
            lemma_plain_word(text@);
        }
        match parse_uri(text) {
            Ok(parts) => Uri { text: text.to_owned(), parts },
            Err(_) => vstd::pervasive::unreached(),
        }
    }
}

fn is_white_space(c: char) -> (r: bool)
    ensures
        r == white_space(c),
{
    let n = c as u32;
    (9 <= n && n <= 13) || n == 0x20 || n == 0x85 || n == 0xa0 || n == 0x1680 || (0x2000 <= n && n
        <= 0x200a) || n == 0x2028 || n == 0x2029 || n == 0x202f || n == 0x205f || n == 0x3000
}

fn width(c: char) -> (r: usize)
    ensures
        r == char_width(c),
{
    let n = c as u32;
    if n < 0x80 {
        1
    } else if n < 0x800 {
        2
    } else if n < 0x10000 {
        3
    } else {
        4
    }
}

/// A text without its white space.
fn squeeze(text: &str) -> (r: Vec<char>)
    ensures
        r@ == squeezed(text@),
{
    let n = text.unicode_len();
    let mut out: Vec<char> = Vec::new();
    let mut i: usize = 0;
    let ghost seen = |c: char| !white_space(c);
    proof {
        reveal(Seq::filter);
        assert(text@.take(0).filter(seen) =~= Seq::empty());
    }
    while i < n
        invariant
            i <= n,
            n == text@.len(),
            seen == (|c: char| !white_space(c)),
            out@ == text@.take(i as int).filter(seen),
        decreases n - i,
    {
        let c = text.get_char(i);
        if !is_white_space(c) {
            out.push(c);
        }
        proof {
            reveal(Seq::filter);
            assert(text@.take(i as int + 1).drop_last() =~= text@.take(i as int));
        }
        i += 1;
    }
    assert(text@.take(n as int) =~= text@);
    out
}

/// Whether a text can be taken apart.
fn is_divisible(text: &str) -> (r: bool)
    ensures
        r == divisible(text@),
{
    let t = squeeze(text);
    let mut k: usize = 0;
    while k < t.len() && t[k] != ':'
        invariant
            k <= t@.len(),
            forall|j: int| 0 <= j < k ==> t@[j] != ':',
        decreases t@.len() - k,
    {
        k += 1;
    }
    if k >= t.len() {
        return true;
    }
    if k == 0 {
        proof {
            lemma_first_colon(t@, 0);
        }
        return true;
    }
    let ghost rest = t@.skip(k as int + 1);
    assert(t@[k as int] == ':' && !t@.take(k as int).contains(':'));
    let mut i: usize = k + 1;
    while i < t.len() - 1
        invariant
            k + 1 <= i <= t@.len(),
            0 < k < t@.len(),
            rest == t@.skip(k as int + 1),
            t@ == squeezed(text@),
            t@[k as int] == ':',
            !t@.take(k as int).contains(':'),
            forall|j: int|
                0 <= j < i - k - 1 ==> !(#[trigger] rest[j] == '/' && rest[j + 1] == '/'),
        decreases t@.len() - i,
    {
        if t[i] == '/' && t[i + 1] == '/' {
            assert(rest[i - k - 1] == '/' && rest[i - k] == '/');
            assert(has_slashes(rest));
            let first = width(t[k + 1]);
            let r = first == 2 || (first == 1 && width(t[k + 2]) == 1);
            assert(rest[0] == t@[k + 1] && rest[1] == t@[k + 2]);
            proof {
                lemma_first_colon(t@, k as int);
            }
            return r;
        }
        assert(rest[i - k - 1] == t@[i as int] && rest[i - k] == t@[i + 1]);
        i += 1;
    }
    proof {
        assert(!has_slashes(rest));
        lemma_first_colon(t@, k as int);
    }
    true
}

/// A text has one first colon.
proof fn lemma_first_colon(t: Seq<char>, k: int)
    requires
        0 <= k < t.len(),
        t[k] == ':',
        !t.take(k).contains(':'),
    ensures
        forall|j: int|
            0 <= j < t.len() && #[trigger] t[j] == ':' && !t.take(j).contains(':') ==> j == k,
{
    assert forall|j: int| 0 <= j < t.len() && #[trigger] t[j] == ':' && !t.take(j).contains(
        ':',
    ) implies j == k by {
        if j < k {
            assert(t.take(k)[j] == ':');
        }
        if k < j {
            assert(t.take(j)[k] == ':');
        }
    }
}

} // verus!
