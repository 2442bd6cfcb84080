//! The words that a WebSocket is opened with.
use crate::headers::{entries, headers_list, lists, lower};
use crate::request::{header_views, HeaderView, HttpHeader, HttpRequestReader};
use crate::response::{HttpResponse, ResponseView};
use crate::text::{decimal, from_utf8, str_eq, usize_to_string};
use vstd::prelude::*;
use vstd::string::{StrSliceExecFns, StringExecFns};
use vstd::utf8::{decode_utf8, encode_utf8, valid_utf8};

verus! {

/// Why a handshake is not accepted.
#[derive(Debug, Clone, Copy, PartialEq, Eq, Structural)]
pub enum WsHandshakeError {
    /// The response has another status than the one that switches to a WebSocket.
    HttpResponseCodeInvalid(Option<u16>),
    /// The server has not understood the key.
    AcceptStringInvalid,
    /// The value of a header is not UTF-8.
    Utf8Error,
}

/// The name of an error.
pub open spec fn handshake_error_text(e: WsHandshakeError) -> Seq<char> {
    match e {
        WsHandshakeError::HttpResponseCodeInvalid(Some(code)) => {
            "HttpResponseCodeInvalid(Some("@ + decimal(code as nat) + "))"@
        },
        WsHandshakeError::HttpResponseCodeInvalid(None) => "HttpResponseCodeInvalid(None)"@,
        WsHandshakeError::AcceptStringInvalid => "AcceptStringInvalid"@,
        WsHandshakeError::Utf8Error => "Utf8Error"@,
    }
}

impl WsHandshakeError {
    /// The name of the error.
    pub fn text(&self) -> (r: String)
        ensures
            r@ == handshake_error_text(*self),
    {
        match self {
            WsHandshakeError::HttpResponseCodeInvalid(Some(code)) => {
                let mut text = "HttpResponseCodeInvalid(Some(".to_owned();
                text.append(usize_to_string(*code as usize).as_str());
                text.append("))");
                text
            },
            WsHandshakeError::HttpResponseCodeInvalid(None) => {
                "HttpResponseCodeInvalid(None)".to_owned()
            },
            WsHandshakeError::AcceptStringInvalid => "AcceptStringInvalid".to_owned(),
            WsHandshakeError::Utf8Error => "Utf8Error".to_owned(),
        }
    }
}

/// What SHA-1 makes of `bytes`, as `sha1::Sha1` computes it.
pub uninterp spec fn sha1_of(bytes: Seq<u8>) -> Seq<u8>;

/// `sha1::Sha1::from`, `digest` and `bytes`: the 20 bytes that SHA-1 makes of `bytes`. Which bytes
/// those are goes by the name [`sha1_of`].
#[verifier::external_body]
fn sha1_digest(bytes: &[u8]) -> (r: [u8; 20])
    ensures
        r@ == sha1_of(bytes@),
{
    sha1::Sha1::from(bytes).digest().bytes()
}

/// The character that stands for six bits.
pub open spec fn base64_char(n: int) -> char {
    if n < 26 {
        ('A' as int + n) as char
    } else if n < 52 {
        ('a' as int + n - 26) as char
    } else if n < 62 {
        ('0' as int + n - 52) as char
    } else if n == 62 {
        '+'
    } else {
        '/'
    }
}

/// Bytes in Base64: four characters for three bytes, filled up with `=`.
pub open spec fn base64_text(bytes: Seq<u8>) -> Seq<char>
    decreases bytes.len(),
{
    if bytes.len() == 0 {
        Seq::empty()
    } else {
        let a = bytes[0] as int;
        let b = if bytes.len() > 1 {
            bytes[1] as int
        } else {
            0
        };
        let c = if bytes.len() > 2 {
            bytes[2] as int
        } else {
            0
        };
        seq![
            base64_char(a / 4),
            base64_char((a % 4) * 16 + b / 16),
            if bytes.len() > 1 {
                base64_char((b % 16) * 4 + c / 64)
            } else {
                '='
            },
            if bytes.len() > 2 {
                base64_char(c % 64)
            } else {
                '='
            },
        ] + if bytes.len() > 3 {
            base64_text(bytes.skip(3))
        } else {
            Seq::empty()
        }
    }
}

/// `base64::encode`: bytes in Base64, with the usual alphabet and filled up.
#[verifier::external_body]
fn base64_encode(bytes: &[u8]) -> (r: String)
    ensures
        r@ == base64_text(bytes@),
{
    base64::encode(bytes)
}

/// What a server must answer to a key, to show that it understands WebSockets.
pub open spec fn accept_string(key: Seq<char>) -> Seq<char> {
    base64_text(sha1_of(encode_utf8(key + "258EAFA5-E914-47DA-95CA-C5AB0DC85B11"@)))
}

/// What a server must answer to a key.
fn build_accept_string(key: &str) -> (r: String)
    ensures
        r@ == accept_string(key@),
{
    let mut text = key.to_owned();
    text.append("258EAFA5-E914-47DA-95CA-C5AB0DC85B11");
    let digest = sha1_digest(text.as_str().as_bytes());
    base64_encode(&digest)
}

/// What a client makes of the response to its handshake: the status must be the one that switches
/// protocols, and an answer to the key, if there is one, must be the right one.
pub open spec fn handshake_outcome(response: ResponseView, key: Seq<char>) -> Option<
    WsHandshakeError,
> {
    let name = "Sec-WebSocket-Accept"@;
    if response.status != 101 {
        Some(WsHandshakeError::HttpResponseCodeInvalid(Some(response.status)))
    } else if response.headers.contains_key(lower(name)) && response.headers[lower(name)].name
        == name && response.headers[lower(name)].value != accept_string(key) {
        Some(WsHandshakeError::AcceptStringInvalid)
    } else {
        None
    }
}

/// Looks whether a response accepts the handshake with a key. No protocol is ever agreed on.
pub fn read_handshake_response(response: &HttpResponse, sec_websocket_key: &str) -> (r: Result<
    Option<String>,
    WsHandshakeError,
>)
    ensures
        match handshake_outcome(response@, sec_websocket_key@) {
            Some(e) => r == Err::<Option<String>, WsHandshakeError>(e),
            None => r == Ok::<Option<String>, WsHandshakeError>(None),
        },
{
    if response.status != 101 {
        return Err(WsHandshakeError::HttpResponseCodeInvalid(Some(response.status)));
    }
    let list = headers_list(&response.headers);
    let ghost map = response@.headers;
    let ghost all = entries(list@);
    let ghost name = "Sec-WebSocket-Accept"@;
    let mut i: usize = 0;
    while i < list.len()
        invariant
            i <= list@.len(),
            all == entries(list@),
            map == response@.headers,
            lists(map, all),
            response@.status == 101,
            name == "Sec-WebSocket-Accept"@,
            forall|j: int|
                0 <= j < i ==> (#[trigger] all[j]).name == name ==> all[j].value == accept_string(
                    sec_websocket_key@,
                ),
        decreases list@.len() - i,
    {
        let header = &list[i];
        assert(all[i as int].name == header.0@ && all[i as int].value == header.1@);
        if str_eq(header.0.as_str(), "Sec-WebSocket-Accept") {
            let expected = build_accept_string(sec_websocket_key);
            if !str_eq(header.1.as_str(), expected.as_str()) {
                assert(map.contains_pair(lower(all[i as int].name), all[i as int]));
                return Err(WsHandshakeError::AcceptStringInvalid);
            }
        }
        i += 1;
    }
    proof {
        if map.contains_key(lower(name)) && map[lower(name)].name == name {
            let j = choose|j: int|
                0 <= j < all.len() && lower((#[trigger] all[j]).name) == lower(name);
            assert(map.contains_pair(lower(all[j].name), all[j]));
        }
    }
    Ok(None)
}

/// The longest key, and the longest name of a protocol, in bytes.
pub const KEY_LIMIT: usize = 24;

/// How many protocols of those that a client offers are kept.
pub const PROTOCOL_LIMIT: usize = 3;

/// What a client offers with its handshake.
#[derive(Debug)]
pub struct WsContext {
    /// The protocols that the client offers, the first ones.
    pub sec_websocket_protocol_list: Vec<String>,
    /// The key that is to be answered.
    pub sec_websocket_key: String,
}

/// What a [`WsContext`] holds.
pub struct WsContextView {
    pub protocols: Seq<Seq<char>>,
    pub key: Seq<char>,
}

/// What each text of a list is.
pub open spec fn texts(list: Seq<String>) -> Seq<Seq<char>> {
    list.map_values(|t: String| t@)
}

impl View for WsContext {
    type V = WsContextView;

    open spec fn view(&self) -> WsContextView {
        WsContextView {
            protocols: texts(self.sec_websocket_protocol_list@),
            key: self.sec_websocket_key@,
        }
    }
}

/// Whether a comma and a space stand at `i`.
pub open spec fn separator_at(text: Seq<char>, i: int) -> bool {
    0 <= i && i + 1 < text.len() && text[i] == ',' && text[i + 1] == ' '
}

/// Whether the first comma with a space behind it stands at `i`.
pub open spec fn first_separator(text: Seq<char>, i: int) -> bool {
    separator_at(text, i) && forall|j: int| 0 <= j < i ==> !separator_at(text, j)
}

/// The items of a list, which commas with a space behind them separate.
pub open spec fn list_items(text: Seq<char>) -> Seq<Seq<char>>
    decreases text.len(),
{
    if exists|i: int| first_separator(text, i) {
        let i = choose|i: int| first_separator(text, i);
        seq![text.take(i)] + list_items(text.skip(i + 2))
    } else {
        seq![text]
    }
}

/// The protocols that are kept when `items` are added to `kept`; none if one that is to be kept is
/// too long.
pub open spec fn kept_protocols(kept: Seq<Seq<char>>, items: Seq<Seq<char>>) -> Option<
    Seq<Seq<char>>,
>
    decreases items.len(),
{
    if items.len() == 0 || kept.len() >= PROTOCOL_LIMIT {
        Some(kept)
    } else if encode_utf8(items[0]).len() > KEY_LIMIT {
        None
    } else {
        kept_protocols(kept.push(items[0]), items.skip(1))
    }
}

/// What the headers of a request say of a WebSocket, as far as they were looked at.
pub struct CtxScan {
    pub protocols: Seq<Seq<char>>,
    pub key: Seq<char>,
    pub is_websocket: bool,
}

/// How looking at the headers of a request ends.
pub enum CtxEnd {
    Done(CtxScan),
    /// A value is not UTF-8.
    NotUtf8,
    /// The key, or the name of a protocol, is too long.
    TooLong,
}

/// Looks at the headers of a request one after the other. Of headers that come more than once the
/// last counts, but protocols add up.
pub open spec fn ctx_scan(headers: Seq<HeaderView>, found: CtxScan) -> CtxEnd
    decreases headers.len(),
{
    if headers.len() == 0 {
        CtxEnd::Done(found)
    } else {
        let header = headers[0];
        let rest = headers.skip(1);
        let text = decode_utf8(header.value);
        if header.name == "Upgrade"@ {
            if valid_utf8(header.value) {
                ctx_scan(rest, CtxScan { is_websocket: text == "websocket"@, ..found })
            } else {
                CtxEnd::NotUtf8
            }
        } else if header.name == "Sec-WebSocket-Protocol"@ {
            if valid_utf8(header.value) {
                match kept_protocols(found.protocols, list_items(text)) {
                    Some(protocols) => ctx_scan(rest, CtxScan { protocols, ..found }),
                    None => CtxEnd::TooLong,
                }
            } else {
                CtxEnd::NotUtf8
            }
        } else if header.name == "Sec-WebSocket-Key"@ {
            if !valid_utf8(header.value) {
                CtxEnd::NotUtf8
            } else if encode_utf8(text).len() > KEY_LIMIT {
                CtxEnd::TooLong
            } else {
                ctx_scan(rest, CtxScan { key: text, ..found })
            }
        } else {
            ctx_scan(rest, found)
        }
    }
}

/// What looking at the headers of a request starts with.
pub open spec fn nothing_found() -> CtxScan {
    CtxScan { protocols: Seq::empty(), key: Seq::empty(), is_websocket: false }
}

/// What the headers of a request say of a WebSocket.
pub open spec fn ctx_end(headers: Seq<HeaderView>) -> CtxEnd {
    ctx_scan(headers, nothing_found())
}

/// What a client offers, if it asks for a WebSocket.
pub open spec fn offered(end: CtxEnd) -> Result<Option<WsContextView>, WsHandshakeError> {
    match end {
        CtxEnd::Done(found) => if found.is_websocket {
            Ok(Some(WsContextView { protocols: found.protocols, key: found.key }))
        } else {
            Ok(None)
        },
        _ => Err(WsHandshakeError::Utf8Error),
    }
}

/// What is offered, as a view.
pub open spec fn offer_view(offer: Result<Option<WsContext>, WsHandshakeError>) -> Result<
    Option<WsContextView>,
    WsHandshakeError,
> {
    match offer {
        Ok(Some(ctx)) => Ok(Some(ctx@)),
        Ok(None) => Ok(None),
        Err(e) => Err(e),
    }
}

proof fn lemma_list_items(text: Seq<char>, i: int)
    requires
        first_separator(text, i),
    ensures
        list_items(text) == seq![text.take(i)] + list_items(text.skip(i + 2)),
{
    let j = choose|j: int| first_separator(text, j);
    assert(first_separator(text, j));
    if j < i {
        assert(!separator_at(text, j));
    }
    if i < j {
        assert(!separator_at(text, i));
    }
}

/// The first comma with a space behind it.
fn find_separator(text: &str) -> (r: Option<usize>)
    ensures
        match r {
            Some(i) => first_separator(text@, i as int),
            None => forall|i: int| !first_separator(text@, i),
        },
{
    let n = text.unicode_len();
    let mut i: usize = 0;
    while i < n
        invariant
            i <= n,
            n == text@.len(),
            forall|j: int| 0 <= j < i ==> !separator_at(text@, j),
        decreases n - i,
    {
        if i + 1 < n && text.get_char(i) == ',' && text.get_char(i + 1) == ' ' {
            assert(separator_at(text@, i as int));
            return Some(i);
        }
        assert(!separator_at(text@, i as int));
        i += 1;
    }
    assert forall|j: int| !first_separator(text@, j) by {
        assert(!separator_at(text@, j));
    }
    None
}

/// Adds the items of a list to the protocols that are kept; tells whether none was too long.
fn add_protocols(protocols: &mut Vec<String>, text: &str) -> (r: bool)
    ensures
        match kept_protocols(texts(old(protocols)@), list_items(text@)) {
            Some(kept) => r && texts(final(protocols)@) == kept,
            None => !r,
        },
{
    let ghost all = kept_protocols(texts(protocols@), list_items(text@));
    let mut rest: &str = text;
    loop
        invariant
            all == kept_protocols(texts(protocols@), list_items(rest@)),
            all == kept_protocols(texts(old(protocols)@), list_items(text@)),
        decreases rest@.len(),
    {
        assert(texts(protocols@).len() == protocols@.len());
        if protocols.len() >= PROTOCOL_LIMIT {
            return true;
        }
        let ghost before = protocols@;
        let found = find_separator(rest);
        let item = match found {
            Some(i) => rest.substring_char(0, i),
            None => rest,
        };
        proof {
            match found {
                Some(i) => {
                    lemma_list_items(rest@, i as int);
                    let items = list_items(rest@);
                    assert(items[0] == rest@.take(i as int));
                    assert(items.skip(1) =~= list_items(rest@.skip(i + 2)));
                    assert(item@ =~= rest@.take(i as int));
                },
                None => {
                    assert(list_items(rest@) =~= seq![rest@]);
                    assert(list_items(rest@).skip(1) =~= Seq::<Seq<char>>::empty());
                },
            }
        }
        if item.as_bytes().len() > KEY_LIMIT {
            return false;
        }
        protocols.push(item.to_owned());
        assert(texts(protocols@) =~= texts(before).push(item@));
        assert(all == kept_protocols(texts(protocols@), list_items(rest@).skip(1)));
        match found {
            Some(i) => {
                let n = rest.unicode_len();
                let ghost was = rest@;
                rest = rest.substring_char(i + 2, n);
                assert(rest@ =~= was.skip(i + 2));
            },
            None => return true,
        }
    }
}

/// What the headers of a request say of a WebSocket; nothing where the key or the name of a
/// protocol is too long.
fn scan_headers(headers: &Vec<HttpHeader>) -> (r: Option<
    Result<Option<WsContext>, WsHandshakeError>,
>)
    ensures
        r is None <==> ctx_end(header_views(headers@)) is TooLong,
        r matches Some(offer) ==> offer_view(offer) == offered(ctx_end(header_views(headers@))),
{
    let ghost all = header_views(headers@);
    let mut protocols: Vec<String> = Vec::new();
    let mut key = String::new();
    let mut is_websocket = false;
    let mut i: usize = 0;
    proof {
        reveal_strlit("");
        assert(texts(protocols@) =~= Seq::<Seq<char>>::empty());
        assert(key@ =~= Seq::<char>::empty());
        assert(all.skip(0) =~= all);
    }
    while i < headers.len()
        invariant
            i <= headers@.len(),
            all == header_views(headers@),
            ctx_end(all) == ctx_scan(
                all.skip(i as int),
                CtxScan { protocols: texts(protocols@), key: key@, is_websocket },
            ),
        decreases headers@.len() - i,
    {
        let header = &headers[i];
        proof {
            assert(all.skip(i as int)[0] == headers@[i as int]@);
            assert(all.skip(i as int).skip(1) =~= all.skip(i as int + 1));
        }
        if str_eq(header.name.as_str(), "Upgrade") {
            match from_utf8(header.value.as_slice()) {
                Some(text) => {
                    is_websocket = str_eq(text, "websocket");
                },
                None => return Some(Err(WsHandshakeError::Utf8Error)),
            }
        } else if str_eq(header.name.as_str(), "Sec-WebSocket-Protocol") {
            match from_utf8(header.value.as_slice()) {
                Some(text) => {
                    if !add_protocols(&mut protocols, text) {
                        return None;
                    }
                },
                None => return Some(Err(WsHandshakeError::Utf8Error)),
            }
        } else if str_eq(header.name.as_str(), "Sec-WebSocket-Key") {
            match from_utf8(header.value.as_slice()) {
                Some(text) => {
                    if text.as_bytes().len() > KEY_LIMIT {
                        return None;
                    }
                    key = text.to_owned();
                },
                None => return Some(Err(WsHandshakeError::Utf8Error)),
            }
        }
        i += 1;
    }
    assert(all.skip(i as int) =~= Seq::<HeaderView>::empty());
    if is_websocket {
        Some(
            Ok(Some(WsContext { sec_websocket_protocol_list: protocols, sec_websocket_key: key })),
        )
    } else {
        Some(Ok(None))
    }
}

/// What a client offers, if its request asks for a WebSocket. The key and the names of the
/// protocols must not be too long; [`try_get_websocket_ctx`] finds out.
pub fn get_websocket_ctx(req: &HttpRequestReader) -> (r: Result<
    Option<WsContext>,
    WsHandshakeError,
>)
    requires
        !(ctx_end(req@.headers) is TooLong),
    ensures
        offer_view(r) == offered(ctx_end(req@.headers)),
        r matches Ok(Some(ctx)) ==> encode_utf8(ctx.sec_websocket_key@).len() <= KEY_LIMIT,
{
    proof {
        lemma_key_fits(req@.headers, nothing_found());
    }
    match scan_headers(req.headers()) {
        Some(offer) => offer,
        None => Ok(None),
    }
}

/// What a client offers, as [`get_websocket_ctx`] gives it; nothing where the key or the name of a
/// protocol is too long.
pub fn try_get_websocket_ctx(req: &HttpRequestReader) -> (r: Option<
    Result<Option<WsContext>, WsHandshakeError>,
>)
    ensures
        r is None <==> ctx_end(req@.headers) is TooLong,
        r matches Some(offer) ==> offer_view(offer) == offered(ctx_end(req@.headers)),
        r matches Some(Ok(Some(ctx))) ==> encode_utf8(ctx.sec_websocket_key@).len() <= KEY_LIMIT,
{
    proof {
        lemma_key_fits(req@.headers, nothing_found());
    }
    scan_headers(req.headers())
}

/// A key that is found is not too long.
proof fn lemma_key_fits(headers: Seq<HeaderView>, found: CtxScan)
    requires
        encode_utf8(found.key).len() <= KEY_LIMIT,
    ensures
        ctx_scan(headers, found) matches CtxEnd::Done(end) ==> encode_utf8(end.key).len()
            <= KEY_LIMIT,
    decreases headers.len(),
{
    if headers.len() > 0 {
        let header = headers[0];
        let rest = headers.skip(1);
        let text = decode_utf8(header.value);
        lemma_key_fits(rest, CtxScan { is_websocket: text == "websocket"@, ..found });
        lemma_key_fits(rest, found);
        if let Some(protocols) = kept_protocols(found.protocols, list_items(text)) {
            lemma_key_fits(rest, CtxScan { protocols, ..found });
        }
        if encode_utf8(text).len() <= KEY_LIMIT {
            lemma_key_fits(rest, CtxScan { key: text, ..found });
        }
    }
}

} // verus!
