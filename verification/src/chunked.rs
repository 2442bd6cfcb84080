//! Bodies in chunks, each preceded by its length: what `Transfer-Encoding: chunked` names.
use crate::buffer::{buffer_views, BufferVec, BufferView};
use crate::text::{from_utf8_lossy, lossy_text};
use vstd::arithmetic::div_mod::{
    lemma_add_mod_noop, lemma_mod_multiples_vanish, lemma_mul_mod_noop_left,
    lemma_small_mod,
};
use vstd::prelude::*;
use vstd::slice::slice_subrange;
use vstd::string::StringExecFns;

verus! {

/// How far a body in chunks was read.
#[derive(Debug)]
pub enum ChunksReadState {
    /// The bytes do not start with the length of a chunk.
    NotChunked,
    /// More bytes are needed.
    BufferNotEnough,
    /// The chunk of length zero was read.
    Finished,
    /// The bytes break the format.
    IllegalBody(String),
}

/// The value of a hexadecimal digit.
pub open spec fn hex_digit(b: u8) -> Option<nat> {
    if 48 <= b <= 57 {
        Some((b - 48) as nat)
    } else if 97 <= b <= 102 {
        Some((b - 97 + 10) as nat)
    } else if 65 <= b <= 70 {
        Some((b - 65 + 10) as nat)
    } else {
        None
    }
}

/// The number that hexadecimal digits stand for.
pub open spec fn hex_value(data: Seq<u8>) -> nat
    decreases data.len(),
{
    if data.len() == 0 {
        0
    } else {
        hex_value(data.drop_last()) * 16 + hex_digit(data.last())->0
    }
}

/// Whether the first `n` bytes are hexadecimal digits.
pub open spec fn hex_digits_upto(data: Seq<u8>, n: int) -> bool {
    forall|i: int| 0 <= i < n && i < data.len() ==> hex_digit(#[trigger] data[i]) is Some
}

/// What the length field of a chunk stands for: at most 16 hexadecimal digits, of whose value
/// the part that a machine word holds is taken; or why it stands for nothing.
pub open spec fn hex_uint(data: Seq<u8>) -> Result<nat, Seq<char>> {
    if !hex_digits_upto(data, 16) {
        Err("invalid byte in chunk length"@)
    } else if data.len() > 16 {
        Err("http chunk length too large"@)
    } else {
        Ok((hex_value(data) % (usize::MAX + 1) as nat) as nat)
    }
}

/// Appends the digit `v` to the hexadecimal digits of `n`, and keeps what a machine word holds.
fn shift_in(n: usize, v: u8) -> (r: usize)
    requires
        v < 16,
    ensures
        r == (n * 16 + v) % (usize::MAX + 1),
{
    let p = n.wrapping_mul(16);
    let r = p.wrapping_add(v as usize);
    proof {
        let m = usize::MAX + 1;
        let x = n * 16;
        assert(p == x % m);
        lemma_add_mod_noop(x, v as int, m);
        lemma_small_mod(v as nat, m as nat);
        if p + v < m {
            lemma_small_mod((p + v) as nat, m as nat);
        } else {
            lemma_mod_multiples_vanish(-1, p + v, m);
            lemma_small_mod((p + v - m) as nat, m as nat);
        }
    }
    r
}

/// Reads the length field of a chunk.
pub fn parse_hex_uint(data: &[u8]) -> (r: Result<usize, &'static str>)
    ensures
        match r {
            Ok(n) => hex_uint(data@) == Ok::<nat, Seq<char>>(n as nat),
            Err(e) => hex_uint(data@) == Err::<nat, Seq<char>>(e@),
        },
{
    let mut n: usize = 0;
    let mut i: usize = 0;
    assert(data@.take(0) =~= Seq::<u8>::empty());
    while i < data.len()
        invariant
            i <= data@.len(),
            i <= 16,
            hex_digits_upto(data@, i as int),
            n == hex_value(data@.take(i as int)) as int % (usize::MAX + 1),
        decreases data@.len() - i,
    {
        if i == 16 {
            return Err("http chunk length too large");
        }
        let v = data[i];
        let vv: u8 = if 48 <= v && v <= 57 {
            v - 48
        } else if 97 <= v && v <= 102 {
            v - 97 + 10
        } else if 65 <= v && v <= 70 {
            v - 65 + 10
        } else {
            assert(hex_digit(data@[i as int]) is None);
            return Err("invalid byte in chunk length");
        };
        proof {
            let m = usize::MAX + 1;
            let a = hex_value(data@.take(i as int)) as int;
            assert(data@.take(i as int + 1).drop_last() =~= data@.take(i as int));
            assert(hex_value(data@.take(i as int + 1)) == a * 16 + vv);
            lemma_mul_mod_noop_left(a, 16, m);
            lemma_add_mod_noop(a * 16, vv as int, m);
            lemma_add_mod_noop((a % m) * 16, vv as int, m);
        }
        n = shift_in(n, vv);
        i += 1;
    }
    assert(data@.take(i as int) =~= data@);
    Ok(n)
}

/// Whether the first CR LF of `buf` is at `i`.
pub open spec fn first_crlf(buf: Seq<u8>, i: int) -> bool {
    &&& crlf_at(buf, i)
    &&& forall|j: int| 0 <= j < i ==> !crlf_at(buf, j)
}

/// Whether CR LF stand at `i`.
pub open spec fn crlf_at(buf: Seq<u8>, i: int) -> bool {
    0 <= i && i + 1 < buf.len() && buf[i] == 13 && buf[i + 1] == 10
}

/// Where the first CR LF of `buf` is.
pub open spec fn find_crlf(buf: Seq<u8>) -> Option<int> {
    if exists|i: int| first_crlf(buf, i) {
        Some(choose|i: int| first_crlf(buf, i))
    } else {
        None
    }
}

pub proof fn lemma_find_crlf(buf: Seq<u8>, i: int)
    requires
        first_crlf(buf, i),
    ensures
        find_crlf(buf) == Some(i),
{
    let j = choose|j: int| first_crlf(buf, j);
    assert(first_crlf(buf, j));
    if j < i {
        assert(!crlf_at(buf, j));
    }
    if i < j {
        assert(!crlf_at(buf, i));
    }
}

/// The text of the complaint about a length field that stands for nothing.
pub open spec fn bad_length(field: Seq<u8>, why: Seq<char>) -> Seq<char> {
    "parse chunk header="@ + lossy_text(field) + " fail: "@ + why
}

/// Reads the line that starts a chunk: its length, which is taken off the front of `buf`
/// together with the CR LF. Nothing is taken where no line is complete or it is no length.
fn read_chunk_header(buf: &mut &[u8]) -> (r: Result<Option<usize>, ChunksReadState>)
    ensures
        match find_crlf(old(buf)@) {
            None => r == Ok::<_, ChunksReadState>(None::<usize>) && *final(buf) == *old(buf),
            Some(i) => match hex_uint(old(buf)@.take(i)) {
                Ok(n) => {
                    &&& r matches Ok(Some(v)) && v == n
                    &&& final(buf)@ == old(buf)@.skip(i + 2)
                },
                Err(e) => {
                    &&& r matches Err(ChunksReadState::IllegalBody(text))
                    &&& text@ == bad_length(old(buf)@.take(i), e)
                    &&& *final(buf) == *old(buf)
                },
            },
        },
{
    let data: &[u8] = *buf;
    let mut i: usize = 0;
    let len = data.len();
    while i < len && i + 1 < len
        invariant
            i <= len,
            len == data@.len(),
            forall|j: int| 0 <= j < i ==> !crlf_at(data@, j),
            *buf == data,
            data@ == old(buf)@,
            *buf == *old(buf),
        decreases data@.len() - i,
    {
        if data[i] == 13u8 && data[i + 1] == 10u8 {
            proof {
                assert(first_crlf(data@, i as int));
                lemma_find_crlf(data@, i as int);
            }
            let field = slice_subrange(data, 0, i);
            assert(field@ =~= data@.take(i as int));
            match parse_hex_uint(field) {
                Ok(length) => {
                    *buf = slice_subrange(data, i + 2, len);
                    assert(buf@ =~= data@.skip(i as int + 2));
                    return Ok(Some(length));
                },
                Err(err) => {
                    let mut text = "parse chunk header=".to_owned();
                    text.append(from_utf8_lossy(field).as_str());
                    text.append(" fail: ");
                    text.append(err);
                    return Err(ChunksReadState::IllegalBody(text));
                },
            }
        }
        i += 1;
    }
    proof {
        if exists|k: int| first_crlf(data@, k) {
            let k = choose|k: int| first_crlf(data@, k);
            assert(crlf_at(data@, k));
            assert(k < i);
        }
    }
    Ok(None)
}

/// How a run over a body in chunks ends.
pub enum ChunksEnd {
    NotChunked,
    BufferNotEnough,
    Finished,
    IllegalBody(Seq<char>),
    /// The length of a chunk leaves no room for the CR LF after it.
    Overflow,
}

/// A run over a body in chunks: how it ends, the bytes that are left, and the chunks so far.
pub struct ChunksRun {
    pub end: ChunksEnd,
    pub rest: Seq<u8>,
    pub chunks: Seq<BufferView>,
}

/// The last chunk was closed by its CR LF and is the empty one.
pub open spec fn chunks_finished(chunks: Seq<BufferView>) -> bool {
    chunks.len() > 0 && chunks.last().cap == 0
}

/// A chunk is open: bytes of it, or of the CR LF after it, are still to come.
pub open spec fn chunk_open(chunks: Seq<BufferView>) -> bool {
    chunks.len() > 0 && !chunks.last().is_full()
}

/// A chunk with the bytes that `buf` has for it, and how many of them those are.
pub open spec fn fed(chunk: BufferView, buf: Seq<u8>) -> (BufferView, int) {
    let n = if buf.len() <= chunk.room() {
        buf.len() as int
    } else {
        chunk.room()
    };
    (chunk.appended(buf.take(n)), n)
}

/// Reading `buf` with `chunks` read before. A new chunk has room for the CR LF after it, which is
/// cut off again once the chunk is full.
pub open spec fn chunks_run(buf: Seq<u8>, chunks: Seq<BufferView>) -> ChunksRun
    decreases buf.len(),
{
    if chunks_finished(chunks) {
        ChunksRun { end: ChunksEnd::Finished, rest: buf, chunks }
    } else if buf.len() == 0 {
        ChunksRun { end: ChunksEnd::BufferNotEnough, rest: buf, chunks }
    } else if chunk_open(chunks) {
        let (chunk, n) = fed(chunks.last(), buf);
        let rest = buf.skip(n);
        if !chunk.is_full() {
            chunks_run(rest, chunks.drop_last().push(chunk))
        } else if !seq![13u8, 10u8].is_suffix_of(chunk.data) {
            ChunksRun {
                end: ChunksEnd::IllegalBody("chunks not follows with CR_LF"@),
                rest,
                chunks: chunks.drop_last().push(chunk),
            }
        } else {
            let cap = (chunk.cap - 2) as nat;
            chunks_run(
                rest,
                chunks.drop_last().push(BufferView { data: chunk.data.take(cap as int), cap }),
            )
        }
    } else {
        match find_crlf(buf) {
            None => ChunksRun {
                end: if buf.len() < 16 {
                    ChunksEnd::BufferNotEnough
                } else if chunks.len() == 0 {
                    ChunksEnd::NotChunked
                } else {
                    ChunksEnd::IllegalBody("chunk header not found"@)
                },
                rest: buf,
                chunks,
            },
            Some(i) => match hex_uint(buf.take(i)) {
                Err(e) => ChunksRun {
                    end: ChunksEnd::IllegalBody(bad_length(buf.take(i), e)),
                    rest: buf,
                    chunks,
                },
                Ok(n) => if n + 2 > usize::MAX {
                    ChunksRun { end: ChunksEnd::Overflow, rest: buf.skip(i + 2), chunks }
                } else {
                    proof {
                        assert(first_crlf(buf, i));
                    }
                    chunks_run(
                        buf.skip(i + 2),
                        chunks.push(BufferView { data: Seq::empty(), cap: n + 2 }),
                    )
                },
            },
        }
    }
}

/// Whether a state tells that a run ended in `end`.
pub open spec fn tells(state: ChunksReadState, end: ChunksEnd) -> bool {
    match end {
        ChunksEnd::NotChunked => state is NotChunked,
        ChunksEnd::BufferNotEnough => state is BufferNotEnough,
        ChunksEnd::Finished => state is Finished,
        ChunksEnd::IllegalBody(text) => state matches ChunksReadState::IllegalBody(t) && t@ == text,
        ChunksEnd::Overflow => false,
    }
}

pub open spec fn all_wf(chunks: Seq<BufferVec>) -> bool {
    forall|i: int| 0 <= i < chunks.len() ==> (#[trigger] chunks[i]).wf()
}

/// Reads chunks off the front of `buf`, as far as it goes. The last of `chunks` may be one that
/// was begun before. `None` if the length of a chunk leaves no room for the CR LF after it.
pub fn try_read_chunks(buf: &mut &[u8], chunks: &mut Vec<BufferVec>) -> (r: Option<ChunksReadState>)
    requires
        all_wf(old(chunks)@),
    ensures
        all_wf(final(chunks)@),
        ({
            let run = chunks_run(old(buf)@, buffer_views(old(chunks)@));
            &&& final(buf)@ == run.rest
            &&& buffer_views(final(chunks)@) == run.chunks
            &&& r is None <==> run.end is Overflow
            &&& r matches Some(state) ==> tells(state, run.end)
        }),
{
    let ghost run = chunks_run(buf@, buffer_views(chunks@));
    loop
        invariant
            all_wf(chunks@),
            run == chunks_run(buf@, buffer_views(chunks@)),
            run == chunks_run(old(buf)@, buffer_views(old(chunks)@)),
        decreases buf@.len(),
    {
        let ghost views = buffer_views(chunks@);
        let ghost bytes = buf@;
        let count = chunks.len();
        assert(count > 0 ==> views.last() == chunks@[count - 1]@);
        if count > 0 && chunks[count - 1].cap() == 0 {
            return Some(ChunksReadState::Finished);
        }
        if buf.is_empty() {
            return Some(ChunksReadState::BufferNotEnough);
        }
        if count > 0 && !chunks[count - 1].is_full() {
            let ghost others = chunks@;
            let chunk: &mut BufferVec = &mut chunks[count - 1];
            let n = chunk.copy_from(*buf);
            let rest: &[u8] = slice_subrange(*buf, n, buf.len());
            *buf = rest;
            assert(buf@ =~= bytes.skip(n as int));
            if chunk.is_full() {
                let ghost full = chunk@;
                if !chunk.ends_with(&[13u8, 10u8]) {
                    let text = "chunks not follows with CR_LF".to_owned();
                    assert(buffer_views(chunks@) =~= views.drop_last().push(full));
                    return Some(ChunksReadState::IllegalBody(text));
                }
                let cap = chunk.cap() - 2;
                chunk.resize_cap(cap);
                let ghost cut = chunk@;
                assert(buffer_views(chunks@) =~= views.drop_last().push(cut));
            } else {
                let ghost more = chunk@;
                assert(buffer_views(chunks@) =~= views.drop_last().push(more));
            }
        } else {
            match read_chunk_header(buf) {
                Ok(Some(length)) => {
                    if length > usize::MAX - 2 {
                        return None;
                    }
                    chunks.push(BufferVec::new(length + 2));
                    assert(buffer_views(chunks@) =~= views.push(
                        BufferView { data: Seq::empty(), cap: (length + 2) as nat },
                    ));
                },
                Ok(None) => {
                    if buf.len() < 16 {
                        return Some(ChunksReadState::BufferNotEnough);
                    }
                    if count == 0 {
                        return Some(ChunksReadState::NotChunked);
                    }
                    return Some(ChunksReadState::IllegalBody("chunk header not found".to_owned()));
                },
                Err(state) => return Some(state),
            }
        }
    }
}

/// Reads chunks off the front of `buf`, as far as it goes. The last of `chunks` may be one that
/// was begun before. The length of each chunk must leave room for the CR LF after it;
/// [`try_read_chunks`] finds out.
pub fn read_chunks(buf: &mut &[u8], chunks: &mut Vec<BufferVec>) -> (r: ChunksReadState)
    requires
        all_wf(old(chunks)@),
        !(chunks_run(old(buf)@, buffer_views(old(chunks)@)).end is Overflow),
    ensures
        all_wf(final(chunks)@),
        ({
            let run = chunks_run(old(buf)@, buffer_views(old(chunks)@));
            &&& final(buf)@ == run.rest
            &&& buffer_views(final(chunks)@) == run.chunks
            &&& tells(r, run.end)
        }),
{
    match try_read_chunks(buf, chunks) {
        Some(state) => state,
        None => ChunksReadState::BufferNotEnough,
    }
}

} // verus!
