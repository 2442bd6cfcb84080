//! Byte buffers that the readers and writers of this crate work on.
use vstd::prelude::*;
use vstd::slice::{slice_subrange, slice_to_vec};

verus! {

/// What a [`BufferVec`] holds: the bytes that were put in and not yet taken out, and how many
/// bytes it takes at most.
#[verifier::ext_equal]
pub struct BufferView {
    pub data: Seq<u8>,
    pub cap: nat,
}

impl BufferView {
    pub open spec fn is_full(self) -> bool {
        self.data.len() >= self.cap
    }

    pub open spec fn room(self) -> int {
        self.cap - self.data.len()
    }

    /// The buffer with `bytes` added at the end.
    pub open spec fn appended(self, bytes: Seq<u8>) -> BufferView {
        BufferView { data: self.data + bytes, cap: self.cap }
    }

    /// The buffer without its first `n` bytes.
    pub open spec fn consumed(self, n: int) -> BufferView {
        BufferView { data: self.data.skip(n), cap: self.cap }
    }
}

/// A queue of bytes with a fixed capacity: bytes are added at the end, up to the capacity, and
/// removed at the front.
#[derive(Debug)]
pub struct BufferVec {
    data: Vec<u8>,
    cap: usize,
}

impl View for BufferVec {
    type V = BufferView;

    closed spec fn view(&self) -> BufferView {
        BufferView { data: self.data@, cap: self.cap as nat }
    }
}

impl BufferVec {
    /// The bytes never exceed the capacity.
    pub open spec fn wf(&self) -> bool {
        &&& self@.data.len() <= self@.cap
        &&& self@.cap <= usize::MAX
    }

    /// An empty buffer that takes `cap` bytes.
    pub fn new(cap: usize) -> (r: BufferVec)
        ensures
            r.wf(),
            r@ == (BufferView { data: Seq::empty(), cap: cap as nat }),
    {
        BufferVec { data: Vec::new(), cap }
    }

    /// A buffer that takes `cap` bytes and holds `data`.
    pub fn from_slice(data: &[u8], cap: usize) -> (r: BufferVec)
        requires
            data@.len() <= cap,
        ensures
            r.wf(),
            r@ == (BufferView { data: data@, cap: cap as nat }),
    {
        BufferVec { data: slice_to_vec(data), cap }
    }

    /// The bytes held.
    pub fn read(&self) -> (r: &[u8])
        ensures
            r@ == self@.data,
    {
        self.data.as_slice()
    }

    /// The first `n` bytes, if the buffer holds that many.
    pub fn read_n(&self, n: usize) -> (r: Option<&[u8]>)
        ensures
            r is Some <==> n <= self@.data.len(),
            r matches Some(s) ==> s@ == self@.data.take(n as int),
    {
        if n <= self.data.len() {
            Some(slice_subrange(self.data.as_slice(), 0, n))
        } else {
            None
        }
    }

    /// How many bytes the buffer holds.
    pub fn len(&self) -> (r: usize)
        ensures
            r == self@.data.len(),
    {
        self.data.len()
    }

    /// How many bytes the buffer takes at most.
    pub fn cap(&self) -> (r: usize)
        ensures
            r == self@.cap,
    {
        self.cap
    }

    /// How many more bytes the buffer takes.
    pub fn room(&self) -> (r: usize)
        requires
            self.wf(),
        ensures
            r == self@.room(),
    {
        self.cap - self.data.len()
    }

    /// Whether the buffer takes no more bytes.
    pub fn is_full(&self) -> (r: bool)
        ensures
            r == self@.is_full(),
    {
        self.data.len() >= self.cap
    }

    /// Adds all of `bytes` at the end.
    pub fn append(&mut self, bytes: &[u8])
        requires
            old(self).wf(),
            bytes@.len() <= old(self)@.room(),
        ensures
            final(self).wf(),
            final(self)@ == old(self)@.appended(bytes@),
    {
        self.data.extend_from_slice(bytes);
        assert(self.data@ =~= old(self).data@ + bytes@);
    }

    /// Adds as much of `bytes` as the buffer takes, and tells how many bytes that was.
    pub fn copy_from(&mut self, bytes: &[u8]) -> (n: usize)
        requires
            old(self).wf(),
        ensures
            final(self).wf(),
            n == (if bytes@.len() <= old(self)@.room() { bytes@.len() as int } else {
                old(self)@.room()
            }),
            final(self)@ == old(self)@.appended(bytes@.take(n as int)),
    {
        let room = self.room();
        let n: usize = if bytes.len() <= room { bytes.len() } else { room };
        self.append(slice_subrange(bytes, 0, n));
        n
    }

    /// Removes the first `n` bytes.
    pub fn rotate_left(&mut self, n: usize)
        requires
            old(self).wf(),
            n <= old(self)@.data.len(),
        ensures
            final(self).wf(),
            final(self)@ == old(self)@.consumed(n as int),
    {
        let rest = self.data.split_off(n);
        self.data = rest;
        assert(self.data@ =~= old(self).data@.skip(n as int));
    }

    /// Whether the last bytes held are `tail`.
    pub fn ends_with(&self, tail: &[u8]) -> (r: bool)
        ensures
            r == tail@.is_suffix_of(self@.data),
    {
        let n = tail.len();
        let len = self.data.len();
        if n > len {
            return false;
        }
        let mut i: usize = 0;
        while i < n
            invariant
                i <= n <= len,
                n == tail@.len(),
                len == self.data@.len(),
                forall|j: int| 0 <= j < i ==> tail@[j] == self.data@[len - n + j],
            decreases n - i,
        {
            if tail[i] != self.data[len - n + i] {
                assert(self.data@.subrange(len - n, len as int)[i as int] != tail@[i as int]);
                return false;
            }
            i += 1;
        }
        assert(tail@ =~= self.data@.subrange(len - n, len as int));
        true
    }

    /// Changes the capacity to `cap`; bytes past it are dropped.
    pub fn resize_cap(&mut self, cap: usize)
        ensures
            final(self).wf(),
            final(self)@.cap == cap,
            final(self)@.data == (if old(self)@.data.len() <= cap { old(self)@.data } else {
                old(self)@.data.take(cap as int)
            }),
    {
        self.data.truncate(cap);
        self.cap = cap;
        assert(cap as int <= old(self).data@.len() ==> old(self).data@.subrange(0, cap as int)
            =~= old(self).data@.take(cap as int));
    }

    /// Moves as many bytes as `dst` takes from the front of this buffer to the end of `dst`.
    pub fn move_to(&mut self, dst: &mut BufferVec)
        requires
            old(self).wf(),
            old(dst).wf(),
        ensures
            final(self).wf(),
            final(dst).wf(),
            ({
                let n = if old(self)@.data.len() <= old(dst)@.room() {
                    old(self)@.data.len() as int
                } else {
                    old(dst)@.room()
                };
                &&& final(dst)@ == old(dst)@.appended(old(self)@.data.take(n))
                &&& final(self)@ == old(self)@.consumed(n)
            }),
    {
        let n = dst.copy_from(self.data.as_slice());
        self.rotate_left(n);
    }

    /// The bytes held, as a vector of their own.
    pub fn to_vec(&self) -> (r: Vec<u8>)
        ensures
            r@ == self@.data,
    {
        slice_to_vec(self.data.as_slice())
    }
}

/// What each buffer of a list holds.
pub open spec fn buffer_views(bufs: Seq<BufferVec>) -> Seq<BufferView> {
    bufs.map_values(|b: BufferVec| b@)
}

/// The bytes of a list of buffers, one after the other.
pub open spec fn joined(bufs: Seq<BufferView>) -> Seq<u8>
    decreases bufs.len(),
{
    if bufs.len() == 0 {
        Seq::empty()
    } else {
        joined(bufs.drop_last()) + bufs.last().data
    }
}

/// Joins the bytes of all `bufs`, in order.
pub fn join_buffers(bufs: &Vec<BufferVec>) -> (r: Vec<u8>)
    ensures
        r@ == joined(buffer_views(bufs@)),
{
    let mut out: Vec<u8> = Vec::new();
    let mut i: usize = 0;
    while i < bufs.len()
        invariant
            i <= bufs@.len(),
            out@ == joined(buffer_views(bufs@).take(i as int)),
        decreases bufs@.len() - i,
    {
        let ghost before = out@;
        out.extend_from_slice(bufs[i].read());
        proof {
            let views = buffer_views(bufs@);
            assert(out@ =~= before + bufs@[i as int]@.data);
            assert(views.take(i as int + 1).drop_last() =~= views.take(i as int));
            assert(views.take(i as int + 1).last() == bufs@[i as int]@);
        }
        i += 1;
    }
    assert(buffer_views(bufs@).take(i as int) =~= buffer_views(bufs@));
    out
}

/// The pieces of a message that is being put together, in the order in which they came.
#[derive(Debug)]
pub struct ExpandVec {
    pieces: Vec<Vec<u8>>,
}

/// The bytes of a list of pieces, one after the other.
pub open spec fn concatenated(pieces: Seq<Seq<u8>>) -> Seq<u8>
    decreases pieces.len(),
{
    if pieces.len() == 0 {
        Seq::empty()
    } else {
        concatenated(pieces.drop_last()) + pieces.last()
    }
}

impl View for ExpandVec {
    type V = Seq<Seq<u8>>;

    closed spec fn view(&self) -> Seq<Seq<u8>> {
        self.pieces@.map_values(|p: Vec<u8>| p@)
    }
}

impl ExpandVec {
    /// No pieces.
    pub fn new() -> (r: ExpandVec)
        ensures
            r@ == Seq::<Seq<u8>>::empty(),
    {
        let r = ExpandVec { pieces: Vec::new() };
        assert(r@ =~= Seq::<Seq<u8>>::empty());
        r
    }

    /// Whether the pieces hold no byte.
    pub fn is_empty(&self) -> (r: bool)
        ensures
            r == (concatenated(self@).len() == 0),
    {
        let mut i: usize = 0;
        assert(self@.take(0) =~= Seq::<Seq<u8>>::empty());
        while i < self.pieces.len()
            invariant
                i <= self.pieces@.len(),
                concatenated(self@.take(i as int)).len() == 0,
            decreases self.pieces@.len() - i,
        {
            proof {
                assert(self@.take(i as int + 1).drop_last() =~= self@.take(i as int));
                assert(self@.take(i as int + 1).last() == self.pieces@[i as int]@);
            }
            if self.pieces[i].len() > 0 {
                proof {
                    lemma_concatenated_prefix(self@, i as int + 1);
                }
                return false;
            }
            i += 1;
        }
        assert(self@.take(i as int) =~= self@);
        true
    }

    /// Adds a piece at the end.
    pub fn push(&mut self, piece: &[u8])
        ensures
            final(self)@ == old(self)@.push(piece@),
    {
        let v = slice_to_vec(piece);
        self.pieces.push(v);
        assert(self@ =~= old(self)@.push(piece@));
    }

    /// The piece that came last.
    pub fn last_msg(&self) -> (r: Option<&[u8]>)
        ensures
            r is Some <==> self@.len() > 0,
            r matches Some(s) ==> s@ == self@.last(),
    {
        let n = self.pieces.len();
        if n > 0 {
            Some(self.pieces[n - 1].as_slice())
        } else {
            None
        }
    }

    /// Takes the piece that came last out.
    pub fn pop(&mut self) -> (r: Option<Vec<u8>>)
        ensures
            r is Some <==> old(self)@.len() > 0,
            r matches Some(v) ==> v@ == old(self)@.last() && final(self)@ == old(self)@.drop_last(),
            r is None ==> final(self)@ == old(self)@,
    {
        let r = self.pieces.pop();
        assert(r is Some ==> self@ =~= old(self)@.drop_last());
        r
    }

    /// Moves the bytes of all pieces to the end of `dst`; no piece stays.
    pub fn move_to(&mut self, dst: &mut Vec<u8>)
        ensures
            final(dst)@ == old(dst)@ + concatenated(old(self)@),
            final(self)@ == Seq::<Seq<u8>>::empty(),
    {
        let ghost all = self@;
        let ghost start = dst@;
        let mut i: usize = 0;
        assert(all.take(0) =~= Seq::<Seq<u8>>::empty());
        assert(start + Seq::<u8>::empty() =~= start);
        while i < self.pieces.len()
            invariant
                i <= self.pieces@.len(),
                self@ == all,
                dst@ == start + concatenated(all.take(i as int)),
            decreases self.pieces@.len() - i,
        {
            let ghost before = dst@;
            dst.extend_from_slice(self.pieces[i].as_slice());
            proof {
                assert(all[i as int] == self.pieces@[i as int]@);
                assert(all.take(i as int + 1).drop_last() =~= all.take(i as int));
                assert(dst@ =~= before + all[i as int]);
                assert(dst@ =~= start + concatenated(all.take(i as int + 1)));
            }
            i += 1;
        }
        assert(all.take(i as int) =~= all);
        self.pieces.clear();
        assert(self@ =~= Seq::<Seq<u8>>::empty());
    }
}

proof fn lemma_concatenated_prefix(pieces: Seq<Seq<u8>>, n: int)
    requires
        0 <= n <= pieces.len(),
    ensures
        concatenated(pieces.take(n)).len() <= concatenated(pieces).len(),
    decreases pieces.len() - n,
{
    if n < pieces.len() {
        lemma_concatenated_prefix(pieces, n + 1);
        assert(pieces.take(n + 1).drop_last() =~= pieces.take(n));
    } else {
        assert(pieces.take(n) =~= pieces);
    }
}

} // verus!
