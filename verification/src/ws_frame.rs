//! The frames that messages of a WebSocket travel in.
use vstd::prelude::*;

verus! {

/// A frame.
pub struct Frame {
    /// It is the last of its message.
    pub fin: bool,
    pub code: u8,
    pub payload: Seq<u8>,
}

/// The `k` bytes of `n`, the most significant first.
pub open spec fn big_endian(n: nat, k: nat) -> Seq<u8>
    decreases k,
{
    if k == 0 {
        Seq::empty()
    } else {
        big_endian(n / 256, (k - 1) as nat).push((n % 256) as u8)
    }
}

/// How many bytes the head of a frame has, without the mask.
pub open spec fn head_len(count: nat) -> nat {
    if count < 126 {
        2
    } else if count < 65535 {
        4
    } else {
        10
    }
}

/// The head of a frame, without the mask: whether it is the last and its code, whether a mask
/// follows, and the length of the payload.
pub open spec fn frame_head(fin: bool, code: u8, masked: bool, count: nat) -> Seq<u8> {
    let first = ((if fin {
        128int
    } else {
        0
    }) + code) as u8;
    let bit: int = if masked {
        128
    } else {
        0
    };
    if count < 126 {
        seq![first, (bit + count) as u8]
    } else if count < 65535 {
        seq![first, (bit + 126) as u8] + big_endian(count, 2)
    } else {
        seq![first, (bit + 127) as u8] + big_endian(count, 8)
    }
}

/// A payload with each byte combined with the next of the mask.
pub open spec fn masked(payload: Seq<u8>, mask: Seq<u8>) -> Seq<u8> {
    Seq::new(payload.len(), |i: int| payload[i] ^ mask[i % 4])
}

/// A frame as it is sent, under a mask if there is one.
pub open spec fn frame_bytes(frame: Frame, mask: Option<Seq<u8>>) -> Seq<u8> {
    let head = frame_head(frame.fin, frame.code, mask is Some, frame.payload.len());
    match mask {
        Some(m) => head + m + masked(frame.payload, m),
        None => head + frame.payload,
    }
}

/// The head of a frame, with the mask that the payload is under, if there is one.
pub struct FrameHead {
    pub fin: bool,
    pub code: u8,
    /// How many bytes the payload has.
    pub count: nat,
    pub mask: Option<Seq<u8>>,
}

/// The head of a frame under a mask.
pub open spec fn head_of(frame: Frame, mask: Option<Seq<u8>>) -> FrameHead {
    FrameHead { fin: frame.fin, code: frame.code, count: frame.payload.len(), mask }
}

/// A head as it is sent, with the mask behind it.
pub open spec fn head_bytes(head: FrameHead) -> Seq<u8> {
    let bare = frame_head(head.fin, head.code, head.mask is Some, head.count);
    match head.mask {
        Some(m) => bare + m,
        None => bare,
    }
}

/// Whether a head is one that can be sent.
pub open spec fn head_ok(head: FrameHead) -> bool {
    &&& head.code < 16
    &&& head.count <= usize::MAX
    &&& mask_ok(head.mask)
}

/// How many bytes a head has, with the mask if there is one.
pub open spec fn head_size(count: nat, is_client: bool) -> nat {
    head_len(count) + if is_client {
        4nat
    } else {
        0
    }
}

/// How many bytes a head has, with the mask if there is one, given its second byte.
pub open spec fn announced_size(second: u8) -> nat {
    head_size(
        if second % 128 < 126 {
            0
        } else if second % 128 == 126 {
            126
        } else {
            65535
        },
        second >= 128,
    )
}

/// Bytes of a payload without the mask that they are under, if there is one. They are taken to
/// start with the first byte of the mask.
pub open spec fn unmasked(bytes: Seq<u8>, mask: Option<Seq<u8>>) -> Seq<u8> {
    match mask {
        Some(m) => masked(bytes, m),
        None => bytes,
    }
}

/// How many bytes a frame has when it is sent.
pub open spec fn frame_len(count: nat, is_client: bool) -> nat {
    head_len(count) + count + if is_client {
        4nat
    } else {
        0
    }
}

/// Whether `m` is what may stand between the head and the payload: four bytes, or nothing.
pub open spec fn mask_ok(mask: Option<Seq<u8>>) -> bool {
    mask matches Some(m) ==> m.len() == 4
}

/// The mask in the bytes of a frame with a payload of `count` bytes that a client sends.
pub open spec fn mask_in(bytes: Seq<u8>, count: nat, is_client: bool) -> Option<Seq<u8>> {
    if is_client {
        Some(bytes.subrange(head_len(count) as int, head_len(count) as int + 4))
    } else {
        None
    }
}

/// Whether `bytes` are `frame` as it is sent. What a client sends is under a mask of its choice.
pub open spec fn is_frame(frame: Frame, is_client: bool, bytes: Seq<u8>) -> bool {
    &&& bytes.len() == frame_len(frame.payload.len(), is_client)
    &&& bytes == frame_bytes(frame, mask_in(bytes, frame.payload.len(), is_client))
}

/// Whether `bytes` are `frames` as they are sent, one behind the other.
pub open spec fn are_frames(frames: Seq<Frame>, is_client: bool, bytes: Seq<u8>) -> bool
    decreases frames.len(),
{
    if frames.len() == 0 {
        bytes.len() == 0
    } else {
        let n = frame_len(frames[0].payload.len(), is_client) as int;
        &&& bytes.len() >= n
        &&& is_frame(frames[0], is_client, bytes.take(n))
        &&& are_frames(frames.skip(1), is_client, bytes.skip(n))
    }
}

pub proof fn lemma_big_endian_len(n: nat, k: nat)
    ensures
        big_endian(n, k).len() == k,
    decreases k,
{
    if k > 0 {
        lemma_big_endian_len(n / 256, (k - 1) as nat);
    }
}

/// Two numbers with the same bytes, none of them cut off, are the same.
proof fn lemma_big_endian_injective(a: nat, b: nat, k: nat, bound: nat)
    requires
        a < bound,
        b < bound,
        bound == vstd::arithmetic::power::pow(256, k),
        big_endian(a, k) == big_endian(b, k),
    ensures
        a == b,
    decreases k,
{
    vstd::arithmetic::power::lemma_pow0(256);
    if k > 0 {
        let low = (k - 1) as nat;
        let smaller = vstd::arithmetic::power::pow(256, low);
        vstd::arithmetic::power::lemma_pow_positive(256, low);
        assert(bound == 256 * smaller) by {
            reveal(vstd::arithmetic::power::pow);
        }
        assert(a / 256 < smaller);
        assert(b / 256 < smaller);
        let x = big_endian(a / 256, low);
        let y = big_endian(b / 256, low);
        assert(big_endian(a, k).drop_last() =~= x);
        assert(big_endian(b, k).drop_last() =~= y);
        assert(big_endian(a, k).last() == (a % 256) as u8);
        assert(big_endian(b, k).last() == (b % 256) as u8);
        lemma_big_endian_injective(a / 256, b / 256, low, smaller as nat);
    }
}

pub proof fn lemma_head_len(fin: bool, code: u8, masked: bool, count: nat)
    ensures
        frame_head(fin, code, masked, count).len() == head_len(count),
{
    lemma_big_endian_len(count, 2);
    lemma_big_endian_len(count, 8);
}

pub proof fn lemma_frame_len(frame: Frame, mask: Option<Seq<u8>>)
    requires
        mask_ok(mask),
    ensures
        frame_bytes(frame, mask).len() == frame_len(frame.payload.len(), mask is Some),
{
    lemma_head_len(frame.fin, frame.code, mask is Some, frame.payload.len());
}

/// Combining a byte with another twice gives it back.
proof fn lemma_xor_injective(a: u8, b: u8, m: u8)
    by (bit_vector)
    requires
        a ^ m == b ^ m,
    ensures
        a == b,
{
}

/// Whether a frame is one that can be sent: its code has four bits, and its length fits.
pub open spec fn frame_ok(frame: Frame) -> bool {
    frame.code < 16 && frame.payload.len() <= usize::MAX
}

/// Heads of frames that are alike tell the same.
proof fn lemma_frame_head_unique(
    fin: bool,
    code: u8,
    masked: bool,
    p: nat,
    fin2: bool,
    code2: u8,
    masked2: bool,
    q: nat,
    data: Seq<u8>,
)
    requires
        code < 16,
        code2 < 16,
        p <= usize::MAX,
        q <= usize::MAX,
        frame_head(fin, code, masked, p).is_prefix_of(data),
        frame_head(fin2, code2, masked2, q).is_prefix_of(data),
    ensures
        fin == fin2,
        code == code2,
        masked == masked2,
        p == q,
{
    let x = frame_head(fin, code, masked, p);
    let y = frame_head(fin2, code2, masked2, q);
    lemma_head_len(fin, code, masked, p);
    lemma_head_len(fin2, code2, masked2, q);
    assert(x[0] == data[0] && x[1] == data[1]);
    assert(y[0] == data[0] && y[1] == data[1]);
    assert(fin == fin2 && code == code2);
    assert(masked == masked2);
    assert(head_len(p) == head_len(q));
    if p >= 126 {
        let k: nat = if p < 65535 {
            2
        } else {
            8
        };
        lemma_big_endian_len(p, k);
        lemma_big_endian_len(q, k);
        assert(x =~= y);
        assert(big_endian(p, k) =~= x.skip(2));
        assert(big_endian(q, k) =~= y.skip(2));
        lemma_powers();
        lemma_big_endian_injective(p, q, k, vstd::arithmetic::power::pow(256, k) as nat);
    }
}

proof fn lemma_powers()
    ensures
        vstd::arithmetic::power::pow(256, 2) == 0x10000int,
        vstd::arithmetic::power::pow(256, 8) == 0x1_0000_0000_0000_0000int,
{
    reveal_with_fuel(vstd::arithmetic::power::pow, 9);
}

/// What the first two bytes tell of a head.
pub proof fn lemma_head_told(head: FrameHead)
    requires
        head_ok(head),
    ensures
        head_bytes(head).len() == head_size(head.count, head.mask is Some),
        head_bytes(head).len() >= 2,
        announced_size(head_bytes(head)[1]) == head_bytes(head).len(),
        head_bytes(head)[0] % 16 == head.code,
{
    lemma_head_len(head.fin, head.code, head.mask is Some, head.count);
}

/// What starts with the bytes of a head starts with those of no other.
pub proof fn lemma_head_unique(data: Seq<u8>, a: FrameHead, b: FrameHead)
    requires
        head_ok(a),
        head_ok(b),
        head_bytes(a).is_prefix_of(data),
        head_bytes(b).is_prefix_of(data),
    ensures
        a == b,
{
    let x = frame_head(a.fin, a.code, a.mask is Some, a.count);
    let y = frame_head(b.fin, b.code, b.mask is Some, b.count);
    lemma_head_len(a.fin, a.code, a.mask is Some, a.count);
    lemma_head_len(b.fin, b.code, b.mask is Some, b.count);
    assert(x =~= head_bytes(a).take(x.len() as int));
    assert(y =~= head_bytes(b).take(y.len() as int));
    assert(x =~= data.subrange(0, x.len() as int));
    assert(y =~= data.subrange(0, y.len() as int));
    lemma_frame_head_unique(
        a.fin,
        a.code,
        a.mask is Some,
        a.count,
        b.fin,
        b.code,
        b.mask is Some,
        b.count,
        data,
    );
    let h = head_len(a.count) as int;
    assert forall|i: int| 0 <= i < head_bytes(a).len() implies head_bytes(a)[i] == data[i] by {}
    assert forall|i: int| 0 <= i < head_bytes(b).len() implies head_bytes(b)[i] == data[i] by {}
    if a.mask is Some {
        assert(a.mask->0 =~= data.subrange(h, h + 4));
        assert(b.mask->0 =~= data.subrange(h, h + 4));
    }
}

/// A frame starts with its head, and its payload follows, under the mask.
pub proof fn lemma_frame_parts(frame: Frame, mask: Option<Seq<u8>>)
    requires
        frame_ok(frame),
        mask_ok(mask),
    ensures
        frame_bytes(frame, mask) == head_bytes(head_of(frame, mask)) + unmasked(
            frame.payload,
            mask,
        ),
        head_ok(head_of(frame, mask)),
        head_bytes(head_of(frame, mask)).len() == head_size(frame.payload.len(), mask is Some),
{
    lemma_head_told(head_of(frame, mask));
}

/// Taking the mask off gives back what was under it.
pub proof fn lemma_unmask(bytes: Seq<u8>, mask: Option<Seq<u8>>)
    ensures
        unmasked(unmasked(bytes, mask), mask) == bytes,
{
    if let Some(m) = mask {
        assert forall|i: int| 0 <= i < bytes.len() implies masked(masked(bytes, m), m)[i]
            == bytes[i] by {
            lemma_xor_twice(bytes[i], m[i % 4]);
        }
    }
    assert(unmasked(unmasked(bytes, mask), mask) =~= bytes);
}

proof fn lemma_xor_twice(a: u8, m: u8)
    by (bit_vector)
    ensures
        (a ^ m) ^ m == a,
{
}

/// What starts with the bytes of a frame starts with those of no other.
pub proof fn lemma_frame_unique(
    data: Seq<u8>,
    f: Frame,
    m: Option<Seq<u8>>,
    g: Frame,
    n: Option<Seq<u8>>,
)
    requires
        frame_ok(f),
        frame_ok(g),
        mask_ok(m),
        mask_ok(n),
        frame_bytes(f, m).is_prefix_of(data),
        frame_bytes(g, n).is_prefix_of(data),
    ensures
        f == g,
        m == n,
{
    let a = frame_bytes(f, m);
    let b = frame_bytes(g, n);
    let p = f.payload.len();
    let q = g.payload.len();
    lemma_frame_len(f, m);
    lemma_frame_len(g, n);
    lemma_head_len(f.fin, f.code, m is Some, p);
    lemma_head_len(g.fin, g.code, n is Some, q);
    let x = frame_head(f.fin, f.code, m is Some, p);
    let y = frame_head(g.fin, g.code, n is Some, q);
    assert(x =~= a.take(x.len() as int));
    assert(y =~= b.take(y.len() as int));
    assert(x =~= data.take(x.len() as int));
    assert(y =~= data.take(y.len() as int));
    lemma_frame_head_unique(
        f.fin,
        f.code,
        m is Some,
        p,
        g.fin,
        g.code,
        n is Some,
        q,
        data,
    );
    assert forall|i: int| 0 <= i < a.len() implies a[i] == data[i] by {}
    assert forall|i: int| 0 <= i < b.len() implies b[i] == data[i] by {}
    let h = head_len(p) as int;
    if m is Some {
        assert(m->0 =~= data.subrange(h, h + 4));
        assert(n->0 =~= data.subrange(h, h + 4));
        assert forall|i: int| 0 <= i < p implies f.payload[i] == g.payload[i] by {
            assert(a[h + 4 + i] == f.payload[i] ^ m->0[i % 4]);
            assert(b[h + 4 + i] == g.payload[i] ^ n->0[i % 4]);
            lemma_xor_injective(f.payload[i], g.payload[i], m->0[i % 4]);
        }
    } else {
        assert forall|i: int| 0 <= i < p implies f.payload[i] == g.payload[i] by {
            assert(a[h + i] == f.payload[i]);
            assert(b[h + i] == g.payload[i]);
        }
    }
    assert(f.payload =~= g.payload);
}

/// A frame can be put behind others.
pub proof fn lemma_frames_push(
    frames: Seq<Frame>,
    is_client: bool,
    bytes: Seq<u8>,
    frame: Frame,
    more: Seq<u8>,
)
    requires
        are_frames(frames, is_client, bytes),
        is_frame(frame, is_client, more),
    ensures
        are_frames(frames.push(frame), is_client, bytes + more),
    decreases frames.len(),
{
    let all = bytes + more;
    let list = frames.push(frame);
    if frames.len() == 0 {
        assert(all =~= more);
        assert(list[0] == frame);
        let n = frame_len(frame.payload.len(), is_client) as int;
        assert(all.take(n) =~= more);
        assert(all.skip(n) =~= Seq::<u8>::empty());
        assert(list.skip(1) =~= Seq::<Frame>::empty());
        assert(are_frames(list.skip(1), is_client, all.skip(n)));
    } else {
        let n = frame_len(frames[0].payload.len(), is_client) as int;
        lemma_frames_push(frames.skip(1), is_client, bytes.skip(n), frame, more);
        assert(list.skip(1) =~= frames.skip(1).push(frame));
        assert(all.skip(n) =~= bytes.skip(n) + more);
        assert(all.take(n) =~= bytes.take(n));
        assert(list[0] == frames[0]);
        assert(are_frames(list.skip(1), is_client, all.skip(n)));
    }
}

} // verus!
