//! Lines of text, and the bytes that encode them.
use crate::encoding::{lemma_encode_avoids, lemma_encode_concat};
use crate::headers::HeaderEntry;
use crate::response::{header_line, header_lines};
use crate::response_read::{empty_line, head_end, lemma_head_end, match_at};
use vstd::prelude::*;
use vstd::utf8::encode_utf8;

verus! {

/// Whether a header can be told from the line that it is written in, but for white space.
pub open spec fn is_telling(header: HeaderEntry) -> bool {
    &&& !header.name.contains('\n')
    &&& !header.name.contains(':')
    &&& !header.value.contains('\n')
}

/// Whether the headers of a list can be told from the lines that they are written in, but for
/// white space.
pub open spec fn all_telling(list: Seq<HeaderEntry>) -> bool {
    forall|i: int| 0 <= i < list.len() ==> is_telling(#[trigger] list[i])
}

/// Whether a text is a line: it ends with a line end, and has no other.
pub open spec fn is_line(text: Seq<char>) -> bool {
    &&& text.len() >= 2
    &&& text[text.len() - 2] == '\r'
    &&& text.last() == '\n'
    &&& forall|i: int| 0 <= i < text.len() - 1 ==> #[trigger] text[i] != '\n'
}

pub proof fn lemma_line(text: Seq<char>)
    requires
        !text.contains('\n'),
    ensures
        is_line(text + "\r\n"@),
{
    reveal_strlit("\r\n");
    assert forall|i: int| 0 <= i < (text + "\r\n"@).len() - 1 implies #[trigger] (text + "\r\n"@)[i]
        != '\n' by {
        if i < text.len() {
            assert(text.contains(text[i]));
        }
    }
}

pub proof fn lemma_header_is_line(header: HeaderEntry)
    requires
        is_telling(header),
    ensures
        is_line(header_line(header)),
        header_line(header).len() >= 4,
{
    reveal_strlit(": ");
    reveal_strlit("\r\n");
    let text = header.name + ": "@ + header.value;
    assert forall|i: int| 0 <= i < text.len() implies text[i] != '\n' by {
        if i < header.name.len() {
            assert(header.name.contains(text[i]));
        } else if i >= header.name.len() + 2 {
            assert(header.value.contains(text[i]));
        }
    }
    lemma_line(text);
}

/// Where two texts that start with a line are equal, so are the lines and what is behind them.
pub proof fn lemma_first_line(a: Seq<char>, x: Seq<char>, b: Seq<char>, y: Seq<char>)
    requires
        is_line(a),
        is_line(b),
        a + x == b + y,
    ensures
        a == b,
        x == y,
{
    let both = a + x;
    assert(both[a.len() - 1] == '\n');
    assert((b + y)[b.len() - 1] == '\n');
    if a.len() < b.len() {
        assert(b[a.len() - 1] == '\n');
    }
    if b.len() < a.len() {
        assert(a[b.len() - 1] == '\n');
    }
    assert(a =~= both.take(a.len() as int));
    assert(b =~= (b + y).take(b.len() as int));
    assert(x =~= both.skip(a.len() as int));
    assert(y =~= (b + y).skip(b.len() as int));
}

/// Where two texts that end with a line are equal, and what is in front of it ends with a line
/// too, if it is not empty, the lines are equal and so is what is in front.
proof fn lemma_last_line(a: Seq<char>, x: Seq<char>, b: Seq<char>, y: Seq<char>)
    requires
        is_line(x),
        is_line(y),
        a.len() > 0 ==> a.last() == '\n',
        b.len() > 0 ==> b.last() == '\n',
        a + x == b + y,
    ensures
        a == b,
        x == y,
{
    let both = a + x;
    if a.len() < b.len() {
        assert(both[b.len() - 1] == '\n');
        assert(x[b.len() - 1 - a.len()] == '\n');
    }
    if b.len() < a.len() {
        assert((b + y)[a.len() - 1] == '\n');
        assert(y[a.len() - 1 - b.len()] == '\n');
    }
    assert(a =~= both.take(a.len() as int));
    assert(b =~= (b + y).take(b.len() as int));
    assert(x =~= both.skip(a.len() as int));
    assert(y =~= (b + y).skip(b.len() as int));
}

proof fn lemma_lines_end(list: Seq<HeaderEntry>)
    requires
        all_telling(list),
        list.len() > 0,
    ensures
        header_lines(list).len() > 0,
        header_lines(list).last() == '\n',
{
    lemma_header_is_line(list.last());
}

/// Headers that are written alike are alike.
proof fn lemma_header_unique(a: HeaderEntry, b: HeaderEntry)
    requires
        is_telling(a),
        is_telling(b),
        header_line(a) == header_line(b),
    ensures
        a == b,
{
    reveal_strlit(": ");
    reveal_strlit("\r\n");
    let x = header_line(a);
    let y = header_line(b);
    assert(x[a.name.len() as int] == ':');
    assert(y[b.name.len() as int] == ':');
    if a.name.len() < b.name.len() {
        assert(b.name[a.name.len() as int] == ':');
        assert(b.name.contains(':'));
    }
    if b.name.len() < a.name.len() {
        assert(a.name[b.name.len() as int] == ':');
        assert(a.name.contains(':'));
    }
    assert(a.name =~= x.take(a.name.len() as int));
    assert(b.name =~= y.take(b.name.len() as int));
    assert(a.value =~= x.subrange(a.name.len() as int + 2, x.len() - 2));
    assert(b.value =~= y.subrange(b.name.len() as int + 2, y.len() - 2));
}

/// Lists of headers that are written alike are alike.
pub proof fn lemma_lines_unique(a: Seq<HeaderEntry>, b: Seq<HeaderEntry>)
    requires
        all_telling(a),
        all_telling(b),
        header_lines(a) == header_lines(b),
    ensures
        a == b,
    decreases a.len(),
{
    if a.len() == 0 {
        if b.len() > 0 {
            lemma_lines_end(b);
        }
        assert(a =~= b);
    } else {
        lemma_lines_end(a);
        if b.len() > 0 {
            lemma_header_is_line(a.last());
            lemma_header_is_line(b.last());
            if a.len() > 1 {
                lemma_lines_end(a.drop_last());
            }
            if b.len() > 1 {
                lemma_lines_end(b.drop_last());
            }
            lemma_last_line(
                header_lines(a.drop_last()),
                header_line(a.last()),
                header_lines(b.drop_last()),
                header_line(b.last()),
            );
            lemma_lines_unique(a.drop_last(), b.drop_last());
            lemma_header_unique(a.last(), b.last());
            assert(a =~= a.drop_last().push(a.last()));
            assert(b =~= b.drop_last().push(b.last()));
        }
    }
}

/// Whether bytes are lines, none of which is empty: they end with a line end, do not begin with
/// one, and no two line ends are next to each other.
pub open spec fn full_lines(bytes: Seq<u8>) -> bool {
    &&& bytes.len() >= 4
    &&& bytes[0] != 10
    &&& bytes[1] != 10
    &&& bytes[bytes.len() - 2] == 13
    &&& bytes[bytes.len() - 1] == 10
    &&& forall|i: int|
        0 <= i < bytes.len() - 2 ==> !(#[trigger] bytes[i] == 10 && bytes[i + 2] == 10)
}

proof fn lemma_line_is_full(text: Seq<char>)
    requires
        is_line(text),
        text.len() >= 4,
    ensures
        full_lines(encode_utf8(text)),
{
    let front = text.take(text.len() - 2);
    let end = text.skip(text.len() - 2);
    assert(text =~= front + end);
    lemma_encode_concat(front, end);
    assert forall|i: int| 0 <= i < front.len() implies front[i] != '\n' by {
        assert(front[i] == text[i]);
    }
    lemma_encode_avoids(front, '\n');
    lemma_encode_at_least(front);
    reveal_strlit("\r\n");
    assert(end =~= "\r\n"@);
    lemma_line_end();
    let a = encode_utf8(front);
    let bytes = encode_utf8(text);
    assert(bytes == a + seq![13u8, 10u8]);
    assert forall|i: int| 0 <= i < a.len() implies #[trigger] bytes[i] != 10 by {
        assert(a.contains(bytes[i]));
    }
}

/// Each character takes a byte at least.
pub proof fn lemma_encode_at_least(text: Seq<char>)
    ensures
        encode_utf8(text).len() >= text.len(),
    decreases text.len(),
{
    if text.len() > 0 {
        lemma_encode_at_least(text.drop_first());
    }
}

/// The bytes of a line end.
pub proof fn lemma_line_end()
    ensures
        encode_utf8("\r\n"@) == seq![13u8, 10u8],
{
    reveal_strlit("\r\n");
    vstd::utf8::is_ascii_chars_encode_utf8("\r\n"@);
    assert(encode_utf8("\r\n"@) =~= seq![13u8, 10u8]);
}

proof fn lemma_full_lines_concat(a: Seq<u8>, b: Seq<u8>)
    requires
        full_lines(a),
        full_lines(b),
    ensures
        full_lines(a + b),
{
    let both = a + b;
    assert forall|i: int| 0 <= i < both.len() - 2 implies !(#[trigger] both[i] == 10 && both[i + 2]
        == 10) by {
        if i + 2 < a.len() {
            assert(!(a[i] == 10 && a[i + 2] == 10));
        } else if i >= a.len() {
            let j = i - a.len();
            assert(!(b[j] == 10 && b[j + 2] == 10));
        }
    }
}

pub proof fn lemma_lines_are_full(first: Seq<char>, list: Seq<HeaderEntry>)
    requires
        is_line(first),
        first.len() >= 4,
        all_telling(list),
    ensures
        full_lines(encode_utf8(first + header_lines(list))),
    decreases list.len(),
{
    if list.len() == 0 {
        lemma_line_is_full(first);
        assert(first + header_lines(list) =~= first);
    } else {
        lemma_lines_are_full(first, list.drop_last());
        let front = first + header_lines(list.drop_last());
        let line = header_line(list.last());
        lemma_header_is_line(list.last());
        lemma_line_is_full(line);
        lemma_encode_concat(front, line);
        lemma_full_lines_concat(encode_utf8(front), encode_utf8(line));
        assert(first + header_lines(list) =~= front + line);
    }
}

/// A head ends where it ends, whatever comes behind it.
pub proof fn lemma_head_ends(lines: Seq<u8>, rest: Seq<u8>)
    requires
        full_lines(lines),
    ensures
        head_end(lines + seq![13u8, 10u8] + rest) == Some(lines.len() as int + 2),
{
    let data = lines + seq![13u8, 10u8] + rest;
    let at = lines.len() - 2;
    assert(data.subrange(at, at + 4) =~= empty_line());
    assert(match_at(data, empty_line(), at));
    assert forall|j: int| 0 <= j < at implies !match_at(data, empty_line(), j) by {
        if match_at(data, empty_line(), j) {
            let found = data.subrange(j, j + 4);
            assert(found[1] == 10 && found[3] == 10);
            assert(data[j + 1] == 10 && data[j + 3] == 10);
            if j + 3 < lines.len() {
                assert(!(lines[j + 1] == 10 && lines[j + 1 + 2] == 10));
            }
        }
    }
    lemma_head_end(data, at);
}

} // verus!
