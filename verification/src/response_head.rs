//! The heads of responses as text.
use crate::encoding::{lemma_decimal_digits, lemma_number_of_decimal};
use crate::headers::{lists, lower, HeaderEntry, HeaderMap};
use crate::lines::{
    all_telling, is_line, is_telling, lemma_first_line, lemma_line, lemma_lines_unique,
};
use crate::response::{header_lines, status_line};
use crate::text::decimal;
use crate::uri::white_space;
use vstd::prelude::*;
use vstd::utf8::{encode_utf8, encode_utf8_decode_utf8};

verus! {

/// What the head of a response holds.
pub struct ResponseHeadView {
    pub status: u16,
    pub headers: HeaderMap,
}

/// Whether a text has no white space around it.
pub open spec fn trimmed(text: Seq<char>) -> bool {
    text.len() > 0 ==> !white_space(text[0]) && !white_space(text.last())
}

/// Whether a header can be told from the line that it is written in.
pub open spec fn plain_header(header: HeaderEntry) -> bool {
    &&& is_telling(header)
    &&& header.name.len() > 0 ==> !white_space(header.name[0])
    &&& trimmed(header.value)
}

/// Whether the headers of a list can be told from the lines that they are written in.
pub open spec fn plain_headers(list: Seq<HeaderEntry>) -> bool {
    forall|i: int| 0 <= i < list.len() ==> plain_header(#[trigger] list[i])
}

/// The head of a response.
pub open spec fn head_text(status: u16, phrase: Seq<char>, list: Seq<HeaderEntry>) -> Seq<char> {
    status_line(status, phrase) + header_lines(list) + "\r\n"@
}

/// Whether `head` is a head with a phrase and with headers in the order of `list`.
pub open spec fn is_head_with(
    head: Seq<u8>,
    view: ResponseHeadView,
    phrase: Seq<char>,
    list: Seq<HeaderEntry>,
) -> bool {
    &&& !phrase.contains('\n')
    &&& plain_headers(list)
    &&& lists(view.headers, list)
    &&& head == encode_utf8(head_text(view.status, phrase, list))
}

/// Whether `head` is a head, and what it holds.
pub open spec fn is_head(head: Seq<u8>, view: ResponseHeadView) -> bool {
    exists|phrase: Seq<char>, list: Seq<HeaderEntry>| is_head_with(head, view, phrase, list)
}

/// What reading a head comes to: what it holds, if it is one, and else `otherwise`.
pub open spec fn head_or(
    head: Seq<u8>,
    otherwise: Result<ResponseHeadView, Seq<char>>,
) -> Result<ResponseHeadView, Seq<char>> {
    if exists|view: ResponseHeadView| is_head(head, view) {
        Ok(choose|view: ResponseHeadView| is_head(head, view))
    } else {
        otherwise
    }
}

pub proof fn lemma_status_is_line(status: u16, phrase: Seq<char>)
    requires
        !phrase.contains('\n'),
    ensures
        is_line(status_line(status, phrase)),
        status_line(status, phrase).len() >= 4,
{
    reveal_strlit("HTTP/1.1 ");
    reveal_strlit(" ");
    reveal_strlit("\r\n");
    let digits = decimal(status as nat);
    let text = "HTTP/1.1 "@ + digits + " "@ + phrase;
    lemma_decimal_digits(status as nat);
    assert forall|i: int| 0 <= i < text.len() implies text[i] != '\n' by {
        if 9 <= i < 9 + digits.len() {
            assert('0' <= digits[i - 9] <= '9');
            assert(text[i] == digits[i - 9]);
        } else if i >= 10 + digits.len() {
            assert(phrase.contains(text[i]));
        }
    }
    lemma_line(text);
}

/// First lines that are alike have the same status.
proof fn lemma_status_unique(s: u16, p: Seq<char>, t: u16, q: Seq<char>)
    requires
        status_line(s, p) == status_line(t, q),
    ensures
        s == t,
{
    reveal_strlit("HTTP/1.1 ");
    reveal_strlit(" ");
    let a = decimal(s as nat);
    let b = decimal(t as nat);
    let x = status_line(s, p);
    let y = status_line(t, q);
    lemma_decimal_digits(s as nat);
    lemma_decimal_digits(t as nat);
    assert(x[9 + a.len() as int] == ' ');
    assert(y[9 + b.len() as int] == ' ');
    if a.len() < b.len() {
        assert(y[9 + a.len() as int] == b[a.len() as int]);
    }
    if b.len() < a.len() {
        assert(x[9 + b.len() as int] == a[b.len() as int]);
    }
    assert(a =~= x.subrange(9, 9 + a.len() as int));
    assert(b =~= y.subrange(9, 9 + b.len() as int));
    lemma_number_of_decimal(s as nat);
    lemma_number_of_decimal(t as nat);
}

/// A list belongs to one table only.
proof fn lemma_listed_table(a: HeaderMap, b: HeaderMap, list: Seq<HeaderEntry>)
    requires
        lists(a, list),
        lists(b, list),
    ensures
        a == b,
{
    assert forall|key: Seq<char>| a.contains_key(key) implies b.contains_key(key) && a[key]
        == b[key] by {
        let i = choose|i: int| 0 <= i < list.len() && lower((#[trigger] list[i]).name) == key;
        assert(a.contains_pair(lower(list[i].name), list[i]));
        assert(b.contains_pair(lower(list[i].name), list[i]));
    }
    assert forall|key: Seq<char>| b.contains_key(key) implies a.contains_key(key) by {
        let i = choose|i: int| 0 <= i < list.len() && lower((#[trigger] list[i]).name) == key;
        assert(a.contains_pair(lower(list[i].name), list[i]));
    }
    assert(a =~= b);
}

/// A head holds one thing only.
pub proof fn lemma_head_unique(head: Seq<u8>, a: ResponseHeadView, b: ResponseHeadView)
    requires
        is_head(head, a),
        is_head(head, b),
    ensures
        a == b,
{
    let (p, l) = choose|p: Seq<char>, l: Seq<HeaderEntry>| is_head_with(head, a, p, l);
    let (q, m) = choose|q: Seq<char>, m: Seq<HeaderEntry>| is_head_with(head, b, q, m);
    assert(is_head_with(head, a, p, l));
    assert(is_head_with(head, b, q, m));
    encode_utf8_decode_utf8(head_text(a.status, p, l));
    encode_utf8_decode_utf8(head_text(b.status, q, m));
    lemma_status_is_line(a.status, p);
    lemma_status_is_line(b.status, q);
    let x = header_lines(l) + "\r\n"@;
    let y = header_lines(m) + "\r\n"@;
    assert(head_text(a.status, p, l) =~= status_line(a.status, p) + x);
    assert(head_text(b.status, q, m) =~= status_line(b.status, q) + y);
    lemma_first_line(status_line(a.status, p), x, status_line(b.status, q), y);
    lemma_status_unique(a.status, p, b.status, q);
    assert(header_lines(l) =~= x.take(x.len() - "\r\n"@.len()));
    assert(header_lines(m) =~= y.take(y.len() - "\r\n"@.len()));
    assert(all_telling(l) && all_telling(m));
    lemma_lines_unique(l, m);
    lemma_listed_table(a.headers, b.headers, l);
}

/// What reading a head comes to, where it is one.
pub proof fn lemma_head_read(
    head: Seq<u8>,
    view: ResponseHeadView,
    otherwise: Result<ResponseHeadView, Seq<char>>,
)
    requires
        is_head(head, view),
    ensures
        head_or(head, otherwise) == Ok::<ResponseHeadView, Seq<char>>(view),
{
    let other = choose|other: ResponseHeadView| is_head(head, other);
    assert(is_head(head, other));
    lemma_head_unique(head, other, view);
}

} // verus!
