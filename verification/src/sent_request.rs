//! The heads of requests as clients send them.
use crate::error::HttpParseError;
use crate::headers::HeaderEntry;
use crate::lines::{
    all_telling, is_line, is_telling, lemma_first_line, lemma_head_ends, lemma_line, lemma_line_end,
    lemma_lines_are_full, lemma_lines_unique,
};
use crate::encoding::lemma_encode_concat;
use crate::request::{HeaderView, RequestHeadView};
use crate::request_build::{request_line, request_text};
use crate::response::header_lines;
use crate::response_read::head_end;
use vstd::prelude::*;
use vstd::utf8::{encode_utf8, encode_utf8_decode_utf8};

verus! {

/// A character that the name of a header or of a method is made of.
pub open spec fn token_char(c: char) -> bool {
    ||| 'A' <= c <= 'Z'
    ||| 'a' <= c <= 'z'
    ||| '0' <= c <= '9'
    ||| c == '!' || c == '#' || c == '$' || c == '%' || c == '&' || c == '\''
    ||| c == '*' || c == '+' || c == '-' || c == '.' || c == '^' || c == '_'
    ||| c == '`' || c == '|' || c == '~'
}

/// A name of a header or of a method.
pub open spec fn is_token(name: Seq<char>) -> bool {
    name.len() > 0 && forall|i: int| 0 <= i < name.len() ==> token_char(#[trigger] name[i])
}

/// What can be asked for: no blanks and nothing that controls.
pub open spec fn is_target(resource: Seq<char>) -> bool {
    &&& resource.len() > 0
    &&& forall|i: int|
        0 <= i < resource.len() ==> #[trigger] resource[i] > ' ' && resource[i] != '\u{7f}'
}

/// A blank or a tab.
pub open spec fn is_blank(c: char) -> bool {
    c == ' ' || c == '\t'
}

/// A value of a header: nothing that controls, but for tabs, and no blanks around it.
pub open spec fn is_field(value: Seq<char>) -> bool {
    &&& forall|i: int|
        0 <= i < value.len() ==> (#[trigger] value[i] >= ' ' && value[i] != '\u{7f}') || value[i]
            == '\t'
    &&& value.len() > 0 ==> !is_blank(value[0]) && !is_blank(value.last())
}

/// Whether a header can be sent with a request.
pub open spec fn is_sendable(header: HeaderEntry) -> bool {
    is_token(header.name) && is_field(header.value)
}

/// The headers of a list, as a request holds them that was read.
pub open spec fn received(list: Seq<HeaderEntry>) -> Seq<HeaderView> {
    Seq::new(
        64,
        |i: int|
            if i < list.len() {
                HeaderView { name: list[i].name, value: encode_utf8(list[i].value) }
            } else {
                HeaderView { name: Seq::empty(), value: Seq::empty() }
            },
    )
}

/// What the head of a request holds.
pub open spec fn sent_head(
    method: Seq<char>,
    resource: Seq<char>,
    list: Seq<HeaderEntry>,
) -> RequestHeadView {
    RequestHeadView {
        method: Some(method),
        path: Some(resource),
        headers: received(list),
        len: encode_utf8(request_text(method, resource, list)).len(),
    }
}

/// Whether a request with this method, for this resource and with these headers can be sent.
pub open spec fn can_be_sent(
    method: Seq<char>,
    resource: Seq<char>,
    list: Seq<HeaderEntry>,
) -> bool {
    &&& is_token(method)
    &&& is_target(resource)
    &&& list.len() <= 64
    &&& forall|i: int| 0 <= i < list.len() ==> is_sendable(#[trigger] list[i])
}

/// Whether bytes start with the head of a request as clients send it.
pub open spec fn starts_with_head(
    buf: Seq<u8>,
    method: Seq<char>,
    resource: Seq<char>,
    list: Seq<HeaderEntry>,
) -> bool {
    &&& can_be_sent(method, resource, list)
    &&& encode_utf8(request_text(method, resource, list)).is_prefix_of(buf)
}

/// Whether bytes are the begin of the head of a request as clients send it, and not yet all of it.
pub open spec fn begins_head(
    buf: Seq<u8>,
    method: Seq<char>,
    resource: Seq<char>,
    list: Seq<HeaderEntry>,
) -> bool {
    let head = encode_utf8(request_text(method, resource, list));
    &&& can_be_sent(method, resource, list)
    &&& buf.len() < head.len()
    &&& buf.is_prefix_of(head)
}

/// Whether bytes start with the head of a request as clients send it, and what that holds.
pub open spec fn is_sent_head(buf: Seq<u8>, head: RequestHeadView) -> bool {
    exists|method: Seq<char>, resource: Seq<char>, list: Seq<HeaderEntry>| #[trigger]
        starts_with_head(buf, method, resource, list) && head == sent_head(method, resource, list)
}

/// What looking for the head of a request comes to: what it holds, if bytes start with one as
/// clients send it; nothing, if they are the begin of one; and else `otherwise`.
pub open spec fn sent_or(
    buf: Seq<u8>,
    otherwise: Result<Option<RequestHeadView>, HttpParseError>,
) -> Result<Option<RequestHeadView>, HttpParseError> {
    if exists|head: RequestHeadView| is_sent_head(buf, head) {
        Ok(Some(choose|head: RequestHeadView| is_sent_head(buf, head)))
    } else if exists|method: Seq<char>, resource: Seq<char>, list: Seq<HeaderEntry>|
        begins_head(buf, method, resource, list) {
        Ok(None)
    } else {
        otherwise
    }
}

/// The lines of a head can be told apart, and an empty one ends it.
pub proof fn lemma_sent_lines(
    buf: Seq<u8>,
    method: Seq<char>,
    resource: Seq<char>,
    list: Seq<HeaderEntry>,
)
    requires
        starts_with_head(buf, method, resource, list),
    ensures
        is_line(request_line(method, resource)),
        all_telling(list),
        head_end(buf) == Some(
            encode_utf8(request_text(method, resource, list)).len() as int,
        ),
{
    reveal_strlit(" ");
    reveal_strlit(" HTTP/1.1\r\n");
    reveal_strlit(" HTTP/1.1");
    reveal_strlit("\r\n");
    let line = request_line(method, resource);
    let front = method + " "@ + resource + " HTTP/1.1"@;
    assert(line =~= front + "\r\n"@);
    assert forall|i: int| 0 <= i < front.len() implies front[i] != '\n' by {
        if i < method.len() {
            assert(front[i] == method[i]);
            assert(token_char(method[i]));
        } else if method.len() < i < method.len() + 1 + resource.len() {
            assert(front[i] == resource[i - method.len() - 1]);
        }
    }
    lemma_line(front);
    assert forall|i: int| 0 <= i < list.len() implies is_telling(#[trigger] list[i]) by {
        let header = list[i];
        assert(is_sendable(header));
        assert forall|j: int| 0 <= j < header.name.len() implies header.name[j] != '\n'
            && header.name[j] != ':' by {
            assert(token_char(header.name[j]));
        }
    }
    lemma_lines_are_full(line, list);
    let lines = encode_utf8(line + header_lines(list));
    lemma_encode_concat(line + header_lines(list), "\r\n"@);
    lemma_line_end();
    let head = encode_utf8(request_text(method, resource, list));
    let rest = buf.skip(head.len() as int);
    assert(buf =~= lines + seq![13u8, 10u8] + rest);
    lemma_head_ends(lines, rest);
}

/// First lines that are alike have the same method, and ask for the same.
proof fn lemma_request_line_unique(m: Seq<char>, r: Seq<char>, n: Seq<char>, s: Seq<char>)
    requires
        is_token(m),
        is_token(n),
        request_line(m, r) == request_line(n, s),
    ensures
        m == n,
        r == s,
{
    reveal_strlit(" ");
    reveal_strlit(" HTTP/1.1\r\n");
    let x = request_line(m, r);
    let y = request_line(n, s);
    assert(x[m.len() as int] == ' ');
    assert(y[n.len() as int] == ' ');
    if m.len() < n.len() {
        assert(token_char(n[m.len() as int]));
        assert(y[m.len() as int] == n[m.len() as int]);
    }
    if n.len() < m.len() {
        assert(token_char(m[n.len() as int]));
        assert(x[n.len() as int] == m[n.len() as int]);
    }
    assert(m =~= x.take(m.len() as int));
    assert(n =~= y.take(n.len() as int));
    assert(r =~= x.subrange(m.len() as int + 1, x.len() - 11));
    assert(s =~= y.subrange(n.len() as int + 1, y.len() - 11));
}

/// Bytes start with one head only.
proof fn lemma_sent_unique(buf: Seq<u8>, a: RequestHeadView, b: RequestHeadView)
    requires
        is_sent_head(buf, a),
        is_sent_head(buf, b),
    ensures
        a == b,
{
    let (m, r, l) = choose|m: Seq<char>, r: Seq<char>, l: Seq<HeaderEntry>| #[trigger]
        starts_with_head(buf, m, r, l) && a == sent_head(m, r, l);
    let (n, s, k) = choose|n: Seq<char>, s: Seq<char>, k: Seq<HeaderEntry>| #[trigger]
        starts_with_head(buf, n, s, k) && b == sent_head(n, s, k);
    lemma_sent_lines(buf, m, r, l);
    lemma_sent_lines(buf, n, s, k);
    let x = request_text(m, r, l);
    let y = request_text(n, s, k);
    assert(encode_utf8(x) =~= encode_utf8(y));
    encode_utf8_decode_utf8(x);
    encode_utf8_decode_utf8(y);
    let p = header_lines(l) + "\r\n"@;
    let q = header_lines(k) + "\r\n"@;
    assert(x =~= request_line(m, r) + p);
    assert(y =~= request_line(n, s) + q);
    lemma_first_line(request_line(m, r), p, request_line(n, s), q);
    lemma_request_line_unique(m, r, n, s);
    assert(header_lines(l) =~= p.take(p.len() - "\r\n"@.len()));
    assert(header_lines(k) =~= q.take(q.len() - "\r\n"@.len()));
    lemma_lines_unique(l, k);
}

/// What looking for the head of a request comes to, where bytes are the begin of one.
pub proof fn lemma_begun_read(
    buf: Seq<u8>,
    method: Seq<char>,
    resource: Seq<char>,
    list: Seq<HeaderEntry>,
    otherwise: Result<Option<RequestHeadView>, HttpParseError>,
)
    requires
        begins_head(buf, method, resource, list),
    ensures
        sent_or(buf, otherwise) == Ok::<Option<RequestHeadView>, HttpParseError>(None),
{
    let whole = encode_utf8(request_text(method, resource, list));
    assert forall|head: RequestHeadView| !is_sent_head(buf, head) by {
        if is_sent_head(buf, head) {
            let (m, r, l) = choose|m: Seq<char>, r: Seq<char>, l: Seq<HeaderEntry>| #[trigger]
                starts_with_head(buf, m, r, l) && head == sent_head(m, r, l);
            let other = encode_utf8(request_text(m, r, l));
            assert(other =~= whole.subrange(0, other.len() as int));
            assert(whole =~= whole.subrange(0, whole.len() as int));
            assert(starts_with_head(whole, m, r, l));
            assert(starts_with_head(whole, method, resource, list));
            lemma_sent_lines(whole, m, r, l);
            lemma_sent_lines(whole, method, resource, list);
        }
    }
}

/// What looking for the head of a request comes to, where bytes start with one.
pub proof fn lemma_sent_read(
    buf: Seq<u8>,
    method: Seq<char>,
    resource: Seq<char>,
    list: Seq<HeaderEntry>,
    otherwise: Result<Option<RequestHeadView>, HttpParseError>,
)
    requires
        starts_with_head(buf, method, resource, list),
    ensures
        sent_or(buf, otherwise) == Ok::<Option<RequestHeadView>, HttpParseError>(
            Some(sent_head(method, resource, list)),
        ),
{
    let head = sent_head(method, resource, list);
    assert(is_sent_head(buf, head));
    let other = choose|other: RequestHeadView| is_sent_head(buf, other);
    lemma_sent_unique(buf, other, head);
}

} // verus!
