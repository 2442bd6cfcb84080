//! What holds of bodies in chunks, whatever they hold and however they arrive.
use crate::buffer::{concatenated, joined, BufferView};
use crate::chunked::{
    chunk_open, chunks_finished, chunks_run, crlf_at, fed, find_crlf, first_crlf, hex_digit,
    hex_digits_upto, hex_uint, hex_value, lemma_find_crlf, ChunksEnd, ChunksRun,
};
use vstd::arithmetic::div_mod::lemma_small_mod;
use vstd::prelude::*;

verus! {

/// However a body in chunks is cut in two, reading the first part and then the second, behind
/// what the first left over, ends as reading both at once does, with the same chunks and the same
/// bytes left over. It is so wherever the first part alone asks for more.
pub proof fn law_chunks_resume(a: Seq<u8>, b: Seq<u8>, chunks: Seq<BufferView>)
    requires
        chunks_run(a, chunks).end is BufferNotEnough,
    ensures
        chunks_run(a + b, chunks) == chunks_run(
            chunks_run(a, chunks).rest + b,
            chunks_run(a, chunks).chunks,
        ),
    decreases a.len(),
{
    let both = a + b;
    if a.len() == 0 {
        assert(both =~= b);
        assert(a + b =~= b);
    } else if chunk_open(chunks) {
        let last = chunks.last();
        let (chunk, n) = fed(last, a);
        let next = chunks.drop_last().push(chunk);
        if !chunk.is_full() {
            assert(n == a.len());
            assert(a.skip(n) =~= Seq::<u8>::empty());
            assert(next.last() == chunk);
            assert(chunks_run(a, chunks) == chunks_run(Seq::empty(), next));
            assert(chunks_run(a, chunks).rest + b =~= b);
            assert(chunks_run(a, chunks).chunks == next);
            if b.len() == 0 {
                assert(both =~= a);
            } else {
                let (more, k) = fed(chunk, b);
                let (whole, m) = fed(last, both);
                assert(m == n + k);
                assert(both.take(m) =~= a.take(n) + b.take(k));
                assert(whole.data =~= more.data);
                assert(both.skip(m) =~= b.skip(k));
                assert(next.drop_last() =~= chunks.drop_last());
            }
        } else {
            let (whole, m) = fed(last, both);
            assert(m == n);
            assert(both.take(m) =~= a.take(n));
            assert(both.skip(m) =~= a.skip(n) + b);
            let cap = (chunk.cap - 2) as nat;
            let cut = BufferView { data: chunk.data.take(cap as int), cap };
            law_chunks_resume(a.skip(n), b, chunks.drop_last().push(cut));
        }
    } else {
        match find_crlf(a) {
            None => {},
            Some(i) => {
                assert(first_crlf(a, i));
                assert(crlf_at(both, i));
                assert forall|j: int| 0 <= j < i implies !crlf_at(both, j) by {
                    assert(!crlf_at(a, j));
                }
                lemma_find_crlf(both, i);
                assert(both.take(i) =~= a.take(i));
                assert(both.skip(i + 2) =~= a.skip(i + 2) + b);
                let n = hex_uint(a.take(i))->Ok_0;
                law_chunks_resume(
                    a.skip(i + 2),
                    b,
                    chunks.push(BufferView { data: Seq::empty(), cap: n + 2 }),
                );
            },
        }
    }
}

/// A chunk as it is sent: the digits that give its length, and what it holds.
pub struct SentChunk {
    pub digits: Seq<u8>,
    pub piece: Seq<u8>,
}

/// Whether hexadecimal digits, in capitals or not, give a number. There may be noughts before it.
pub open spec fn gives(digits: Seq<u8>, n: nat) -> bool {
    &&& 0 < digits.len() <= 16
    &&& hex_digits_upto(digits, 16)
    &&& hex_value(digits) == n
}

/// Whether a chunk can be sent: its digits give its length, which leaves room for the CR LF after
/// it.
pub open spec fn chunk_ok(chunk: SentChunk) -> bool {
    gives(chunk.digits, chunk.piece.len()) && chunk.piece.len() + 2 <= usize::MAX
}

/// The line before a chunk.
pub open spec fn chunk_line(chunk: SentChunk) -> Seq<u8> {
    chunk.digits + seq![13u8, 10u8]
}

/// One chunk as it is sent.
pub open spec fn encoded_chunk(chunk: SentChunk) -> Seq<u8> {
    chunk_line(chunk) + chunk.piece + seq![13u8, 10u8]
}

/// Chunks as they are sent, one behind the other.
pub open spec fn encoded_body(chunks: Seq<SentChunk>) -> Seq<u8>
    decreases chunks.len(),
{
    if chunks.len() == 0 {
        Seq::empty()
    } else {
        encoded_chunk(chunks[0]) + encoded_body(chunks.drop_first())
    }
}

/// Whether chunks are a body: they can be sent, and the last of them, and no other, is empty.
pub open spec fn is_body(chunks: Seq<SentChunk>) -> bool {
    &&& chunks.len() > 0
    &&& forall|i: int|
        0 <= i < chunks.len() ==> {
            let chunk = #[trigger] chunks[i];
            &&& chunk_ok(chunk)
            &&& chunk.piece.len() == 0 <==> i == chunks.len() - 1
        }
}

/// What chunks hold.
pub open spec fn pieces_of(chunks: Seq<SentChunk>) -> Seq<Seq<u8>> {
    Seq::new(chunks.len(), |i: int| chunks[i].piece)
}

/// The chunks as they are read.
pub open spec fn chunks_of(chunks: Seq<SentChunk>) -> Seq<BufferView> {
    Seq::new(
        chunks.len(),
        |i: int| BufferView { data: chunks[i].piece, cap: chunks[i].piece.len() },
    )
}

/// Where the line before a chunk ends.
proof fn lemma_line_found(chunk: SentChunk, tail: Seq<u8>)
    requires
        chunk_ok(chunk),
    ensures
        find_crlf(chunk_line(chunk) + tail) == Some(chunk.digits.len() as int),
        hex_uint((chunk_line(chunk) + tail).take(chunk.digits.len() as int)) == Ok::<
            nat,
            Seq<char>,
        >(chunk.piece.len()),
{
    let digits = chunk.digits;
    let i = digits.len() as int;
    let buf = chunk_line(chunk) + tail;
    assert(crlf_at(buf, i));
    assert forall|j: int| 0 <= j < i implies !crlf_at(buf, j) by {
        assert(buf[j] == digits[j]);
        assert(hex_digit(digits[j]) is Some);
    }
    lemma_find_crlf(buf, i);
    assert(buf.take(i) =~= digits);
    lemma_small_mod(chunk.piece.len(), (usize::MAX + 1) as nat);
}

proof fn lemma_one_chunk(chunk: SentChunk, tail: Seq<u8>, chunks: Seq<BufferView>)
    requires
        chunk_ok(chunk),
        !chunk_open(chunks),
        !chunks_finished(chunks),
    ensures
        chunks_run(encoded_chunk(chunk) + tail, chunks) == chunks_run(
            tail,
            chunks.push(BufferView { data: chunk.piece, cap: chunk.piece.len() }),
        ),
{
    let piece = chunk.piece;
    let n = piece.len();
    let crlf = seq![13u8, 10u8];
    let buf = encoded_chunk(chunk) + tail;
    let i = chunk.digits.len() as int;
    let body = piece + crlf + tail;
    assert(buf =~= chunk_line(chunk) + body);
    lemma_line_found(chunk, body);
    let opened = chunks.push(BufferView { data: Seq::empty(), cap: n + 2 });
    assert(buf.skip(i + 2) =~= body);
    assert(chunks_run(buf, chunks) == chunks_run(body, opened));
    let (full, k) = fed(opened.last(), body);
    assert(k == n + 2);
    assert(body.take(k) =~= piece + crlf);
    assert(full.data =~= piece + crlf);
    assert((piece + crlf).subrange(n as int, n as int + 2) =~= crlf);
    assert(body.skip(k) =~= tail);
    assert(full.data.take(n as int) =~= piece);
    assert(opened.drop_last() =~= chunks);
}

/// What is left of a body is one too.
proof fn lemma_body_rest(sent: Seq<SentChunk>)
    requires
        is_body(sent),
        sent.len() > 1,
    ensures
        is_body(sent.drop_first()),
        sent[0].piece.len() > 0,
{
    let others = sent.drop_first();
    assert forall|i: int| 0 <= i < others.len() implies {
        let chunk = #[trigger] others[i];
        &&& chunk_ok(chunk)
        &&& chunk.piece.len() == 0 <==> i == others.len() - 1
    } by {
        assert(others[i] == sent[i + 1]);
    }
}

proof fn lemma_body(sent: Seq<SentChunk>, tail: Seq<u8>, chunks: Seq<BufferView>)
    requires
        is_body(sent),
        !chunk_open(chunks),
        !chunks_finished(chunks),
    ensures
        chunks_run(encoded_body(sent) + tail, chunks) == (ChunksRun {
            end: ChunksEnd::Finished,
            rest: tail,
            chunks: chunks + chunks_of(sent),
        }),
    decreases sent.len(),
{
    let first = sent[0];
    let others = sent.drop_first();
    let next = chunks.push(BufferView { data: first.piece, cap: first.piece.len() });
    assert(encoded_body(sent) + tail =~= encoded_chunk(first) + (encoded_body(others) + tail));
    lemma_one_chunk(first, encoded_body(others) + tail, chunks);
    if sent.len() == 1 {
        assert(encoded_body(others) + tail =~= tail);
        assert(chunks + chunks_of(sent) =~= next);
    } else {
        lemma_body_rest(sent);
        lemma_body(others, tail, next);
        assert(next + chunks_of(others) =~= chunks + chunks_of(sent));
    }
}

/// What is sent in chunks is read back: from any cut of a body in chunks, with lengths in capitals
/// or not, followed by any bytes, the reader takes each chunk as it is, and so the body, ends, and
/// leaves those bytes.
pub proof fn law_chunks_round_trip(sent: Seq<SentChunk>, tail: Seq<u8>)
    requires
        is_body(sent),
    ensures
        ({
            let run = chunks_run(encoded_body(sent) + tail, Seq::empty());
            &&& run == (ChunksRun {
                end: ChunksEnd::Finished,
                rest: tail,
                chunks: chunks_of(sent),
            })
            &&& joined(run.chunks) == concatenated(pieces_of(sent))
        }),
{
    lemma_body(sent, tail, Seq::empty());
    assert(Seq::<BufferView>::empty() + chunks_of(sent) =~= chunks_of(sent));
    lemma_joined(sent);
}

proof fn lemma_joined(sent: Seq<SentChunk>)
    ensures
        joined(chunks_of(sent)) == concatenated(pieces_of(sent)),
    decreases sent.len(),
{
    if sent.len() > 0 {
        lemma_joined(sent.drop_last());
        assert(chunks_of(sent).drop_last() =~= chunks_of(sent.drop_last()));
        assert(pieces_of(sent).drop_last() =~= pieces_of(sent.drop_last()));
    }
}

/// Every length can be given, with small letters.
pub proof fn law_digits_for_every_length(n: nat) -> (digits: Seq<u8>)
    requires
        n <= usize::MAX,
    ensures
        gives(digits, n),
{
    assert(power16(16) == 0x1_0000_0000_0000_0000) by {
        reveal_with_fuel(power16, 17);
    }
    lemma_hex_text(n, 16);
    hex_text(n)
}

/// The hexadecimal digits of `n`.
pub open spec fn hex_text(n: nat) -> Seq<u8>
    decreases n,
{
    if n < 16 {
        seq![hex_char(n)]
    } else {
        hex_text(n / 16).push(hex_char(n % 16))
    }
}

/// The character of a hexadecimal digit.
pub open spec fn hex_char(d: nat) -> u8 {
    if d < 10 {
        (48 + d) as u8
    } else {
        (87 + d) as u8
    }
}

spec fn power16(k: nat) -> nat
    decreases k,
{
    if k == 0 {
        1
    } else {
        16 * power16((k - 1) as nat)
    }
}

proof fn lemma_hex_text(n: nat, k: nat)
    requires
        n < power16(k),
        k > 0,
    ensures
        0 < hex_text(n).len() <= k,
        forall|i: int| 0 <= i < hex_text(n).len() ==> hex_digit(#[trigger] hex_text(n)[i]) is Some,
        hex_value(hex_text(n)) == n,
    decreases k,
{
    if n < 16 {
        let t = hex_text(n);
        assert(t.drop_last() =~= Seq::<u8>::empty());
        assert(hex_digit(t.last()) == Some(n));
        assert(hex_value(t.drop_last()) == 0);
    } else {
        assert(k > 1) by {
            reveal_with_fuel(power16, 2);
        }
        lemma_hex_text(n / 16, (k - 1) as nat);
        let t = hex_text(n);
        assert(t.drop_last() =~= hex_text(n / 16));
        assert(hex_digit(t.last()) == Some(n % 16));
        assert forall|i: int| 0 <= i < t.len() implies hex_digit(#[trigger] t[i]) is Some by {
            if i < t.len() - 1 {
                assert(t[i] == hex_text(n / 16)[i]);
            }
        }
    }
}

/// Whether the digits of a chunk are so few that a line that breaks off before its end can be told
/// from one that is too long.
pub open spec fn short_line(chunk: SentChunk) -> bool {
    chunk.digits.len() <= 14
}

/// A body that breaks off before its end asks for more, and keeps the chunks that have begun.
pub proof fn law_body_breaks_off(sent: Seq<SentChunk>, part: Seq<u8>, chunks: Seq<BufferView>)
    requires
        is_body(sent),
        forall|i: int| 0 <= i < sent.len() ==> short_line(#[trigger] sent[i]),
        part.is_prefix_of(encoded_body(sent)),
        part.len() < encoded_body(sent).len(),
        !chunk_open(chunks),
        !chunks_finished(chunks),
    ensures
        chunks_run(part, chunks).end is BufferNotEnough,
        chunks_run(part, chunks).rest.len() < 16,
        part.len() >= chunk_line(sent[0]).len() ==> chunks_run(part, chunks).rest.len()
            < part.len(),
    decreases sent.len(),
{
    let first = sent[0];
    let line = chunk_line(first);
    let others = sent.drop_first();
    let whole = encoded_body(sent);
    let n = first.piece.len();
    assert(part =~= whole.subrange(0, part.len() as int));
    assert(whole =~= line + (first.piece + seq![13u8, 10u8] + encoded_body(others)));
    if part.len() < line.len() {
        assert forall|i: int| 0 <= i < part.len() implies part[i] == line[i] by {
            assert(whole[i] == line[i]);
        }
        if find_crlf(part) is Some {
            let i = choose|i: int| first_crlf(part, i);
            assert(crlf_at(part, i));
            assert(hex_digit(first.digits[i]) is Some);
        }
    } else if part.len() < encoded_chunk(first).len() {
        let i = first.digits.len() as int;
        let tail = part.skip(line.len() as int);
        assert(part =~= line + tail);
        lemma_line_found(first, tail);
        let opened = chunks.push(BufferView { data: Seq::empty(), cap: n + 2 });
        assert(part.skip(i + 2) =~= tail);
        assert(chunks_run(part, chunks) == chunks_run(tail, opened));
        if tail.len() > 0 {
            let (chunk, k) = fed(opened.last(), tail);
            assert(k == tail.len());
            assert(tail.skip(k) =~= Seq::<u8>::empty());
            let next = opened.drop_last().push(chunk);
            assert(!chunk.is_full());
            assert(!chunks_finished(next)) by {
                assert(next.last() == chunk);
            }
            assert(chunks_run(tail, opened) == chunks_run(Seq::empty(), next));
        } else {
            assert(!chunks_finished(opened));
        }
    } else {
        let k = encoded_chunk(first).len() as int;
        let tail = part.skip(k);
        let next = chunks.push(BufferView { data: first.piece, cap: n });
        assert(part =~= encoded_chunk(first) + tail) by {
            assert forall|i: int| 0 <= i < k implies part[i] == encoded_chunk(first)[i] by {
                assert(whole[i] == encoded_chunk(first)[i]);
            }
        }
        lemma_one_chunk(first, tail, chunks);
        if sent.len() == 1 {
            assert(encoded_body(others).len() == 0);
            assert(false);
        } else {
            lemma_body_rest(sent);
            assert forall|i: int| 0 <= i < others.len() implies short_line(
                #[trigger] others[i],
            ) by {
                assert(others[i] == sent[i + 1]);
            }
            assert(tail =~= encoded_body(others).subrange(0, tail.len() as int)) by {
                assert forall|i: int| 0 <= i < tail.len() implies tail[i] == encoded_body(
                    others,
                )[i] by {
                    assert(tail[i] == whole[k + i]);
                }
            }
            law_body_breaks_off(others, tail, next);
        }
    }
}

} // verus!
