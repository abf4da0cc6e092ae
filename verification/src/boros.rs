//! A byte buffer split into a head and a tail, for scanning long streams of bytes in
//! pieces without losing the matches that straddle two pieces.

use vstd::prelude::*;

use crate::util::{concat_vecs, fill_bytes};

verus! {

/// A byte buffer that can be destructured into multiple parts.
///
/// The first `head_size` bytes make up the `head`, the last `tail_size` bytes make up
/// the `tail`; the first `tail_size` bytes make up the `init`; and the last `head_size`
/// bytes make up the `last`.
///
/// Between writes to the `tail`, the buffer "swallows its tail": the contents of `last`
/// move to the `head`, so that the next piece of a stream is preceded by the end of the
/// previous one.
#[derive(Clone)]
pub struct Boros {
    buf: Vec<u8>,
    /// The size of the head.
    pub head_size: usize,
    /// The size of the tail.
    pub tail_size: usize,
}

/// What swallowing the tail does to the contents `c` of a buffer with a head of `h`
/// bytes: the last `h` bytes are copied over the first `h`.
pub open spec fn spec_swallow(c: Seq<u8>, h: nat) -> Seq<u8> {
    c.subrange(c.len() - h, c.len() as int) + c.subrange(h as int, c.len() as int)
}

/// The abstract state of a [`Boros`]: its bytes and the sizes of its two parts.
pub struct BorosView {
    pub contents: Seq<u8>,
    pub head_size: nat,
    pub tail_size: nat,
}

impl View for Boros {
    type V = BorosView;

    closed spec fn view(&self) -> BorosView {
        BorosView {
            contents: self.buf@,
            head_size: self.head_size as nat,
            tail_size: self.tail_size as nat,
        }
    }
}

impl Boros {
    /// The bytes held, head first.
    pub open spec fn contents(&self) -> Seq<u8> {
        self@.contents
    }

    /// The buffer holds exactly `head_size + tail_size` bytes and the head is no larger
    /// than the tail.
    pub open spec fn wf(&self) -> bool {
        &&& self.contents().len() == self@.head_size + self@.tail_size
        &&& self@.head_size <= self@.tail_size
        &&& self@.head_size + self@.tail_size <= usize::MAX
    }

    /// The first `head_size` bytes.
    pub open spec fn spec_head(&self) -> Seq<u8> {
        self.contents().subrange(0, self@.head_size as int)
    }

    /// Everything after the head.
    pub open spec fn spec_tail(&self) -> Seq<u8> {
        self.contents().subrange(self@.head_size as int, self.contents().len() as int)
    }

    /// Everything but the last `head_size` bytes.
    pub open spec fn spec_init(&self) -> Seq<u8> {
        self.contents().subrange(0, self.contents().len() - self@.head_size)
    }

    /// The last `head_size` bytes.
    pub open spec fn spec_last(&self) -> Seq<u8> {
        self.contents().subrange(
            self.contents().len() - self@.head_size,
            self.contents().len() as int,
        )
    }

    /// Creates a new Boros of zeros with the given head and tail size.
    pub fn new(head_size: usize, tail_size: usize) -> (b: Boros)
        requires
            head_size <= tail_size,
            head_size + tail_size <= usize::MAX,
        ensures
            b.wf(),
            b@.head_size == head_size,
            b@.tail_size == tail_size,
            b.contents() == Seq::new((head_size + tail_size) as nat, |i: int| 0u8),
    {
        Boros { buf: fill_bytes(0, head_size + tail_size), head_size, tail_size }
    }

    /// The size of the head.
    pub fn head_len(&self) -> (r: usize)
        ensures
            r == self@.head_size,
    {
        self.head_size
    }

    /// The size of the tail.
    pub fn tail_len(&self) -> (r: usize)
        ensures
            r == self@.tail_size,
    {
        self.tail_size
    }

    /// Gets the total size of the internal buffer.
    pub fn size(&self) -> (n: usize)
        requires
            self.wf(),
        ensures
            n == self@.head_size + self@.tail_size,
            n == self.contents().len(),
    {
        let _ = self.buf.len();
        self.head_size + self.tail_size
    }

    /// Creates a new Boros with a zeroed head of the given size and the given vector as
    /// the tail.
    pub fn from(head_size: usize, tail: Vec<u8>) -> (b: Boros)
        requires
            head_size <= tail@.len(),
            head_size + tail@.len() <= usize::MAX,
        ensures
            b.wf(),
            b@.head_size == head_size,
            b@.tail_size == tail@.len(),
            b.contents() == Seq::new(head_size as nat, |i: int| 0u8) + tail@,
    {
        let empty_head = fill_bytes(0, head_size);
        let tail_size = tail.len();
        Boros { head_size, tail_size, buf: concat_vecs(empty_head, tail) }
    }

    /// Returns the entire buffer.
    pub fn full(&self) -> (r: &[u8])
        ensures
            r@ == self.contents(),
    {
        self.buf.as_slice()
    }

    /// Returns the head, for writing.
    pub fn head(&mut self) -> (r: &mut [u8])
        requires
            old(self).wf(),
        ensures
            r@ == old(self).spec_head(),
            final(self)@.head_size == old(self)@.head_size,
            final(self)@.tail_size == old(self)@.tail_size,
            final(self).contents() == final(r)@ + old(self).spec_tail(),
    {
        let h = self.head_size;
        let s = self.buf.as_mut_slice();
        let (head, _tail) = s.split_at_mut(h);
        head
    }

    /// Returns the head as an immutable slice.
    pub fn head_immut(&self) -> (r: &[u8])
        requires
            self.wf(),
        ensures
            r@ == self.spec_head(),
    {
        self.buf.as_slice().split_at(self.head_size).0
    }

    /// Returns the init.
    pub fn init(&self) -> (r: &[u8])
        requires
            self.wf(),
        ensures
            r@ == self.spec_init(),
    {
        let n = self.size() - self.head_size;
        self.buf.as_slice().split_at(n).0
    }

    /// Returns the tail, for writing.
    pub fn tail(&mut self) -> (r: &mut [u8])
        requires
            old(self).wf(),
        ensures
            r@ == old(self).spec_tail(),
            final(self)@.head_size == old(self)@.head_size,
            final(self)@.tail_size == old(self)@.tail_size,
            final(self).contents() == old(self).spec_head() + final(r)@,
    {
        let h = self.head_size;
        let s = self.buf.as_mut_slice();
        let (_head, tail) = s.split_at_mut(h);
        tail
    }

    /// Returns the tail as an immutable slice.
    pub fn tail_immut(&self) -> (r: &[u8])
        requires
            self.wf(),
        ensures
            r@ == self.spec_tail(),
    {
        self.buf.as_slice().split_at(self.head_size).1
    }

    /// Returns the last.
    pub fn last(&self) -> (r: &[u8])
        requires
            self.wf(),
        ensures
            r@ == self.spec_last(),
    {
        let n = self.size() - self.head_size;
        self.buf.as_slice().split_at(n).1
    }

    /// Clones the internal buffer.
    pub fn to_vec(&self) -> (r: Vec<u8>)
        ensures
            r@ == self.contents(),
    {
        crate::util::slice_to_vec(self.buf.as_slice())
    }

    /// Writes `data` into the tail, starting at its first byte.
    pub fn write_tail(&mut self, data: &[u8])
        requires
            old(self).wf(),
            data@.len() <= old(self)@.tail_size,
        ensures
            final(self).wf(),
            final(self)@.head_size == old(self)@.head_size,
            final(self)@.tail_size == old(self)@.tail_size,
            final(self).contents() == old(self).spec_head() + data@ + old(self).spec_tail().subrange(
                data@.len() as int,
                old(self)@.tail_size as int,
            ),
    {
        let h = self.head_size;
        let mut i: usize = 0;
        while i < data.len()
            invariant
                self.wf(),
                old(self).wf(),
                self.head_size == h,
                self@.head_size == h,
                self@.head_size == old(self)@.head_size,
                self@.tail_size == old(self)@.tail_size,
                i <= data@.len() <= self@.tail_size,
                self.contents() == old(self).spec_head() + data@.subrange(0, i as int)
                    + old(self).spec_tail().subrange(i as int, old(self)@.tail_size as int),
            decreases data@.len() - i,
        {
            self.buf.set(h + i, data[i]);
            i = i + 1;
            assert(self.contents() =~= old(self).spec_head() + data@.subrange(0, i as int)
                + old(self).spec_tail().subrange(i as int, old(self)@.tail_size as int));
        }
        assert(data@.subrange(0, i as int) == data@);
    }

    /// Moves the contents of the last to the head.
    /// This is an idempotent operation.
    pub fn swallow_tail(&mut self)
        requires
            old(self).wf(),
        ensures
            final(self).wf(),
            final(self)@.head_size == old(self)@.head_size,
            final(self)@.tail_size == old(self)@.tail_size,
            final(self).contents() == spec_swallow(old(self).contents(), old(self)@.head_size as nat),
    {
        let h = self.head_size;
        let n = self.size();
        let ghost c = self.contents();
        let mut i: usize = 0;
        while i < h
            invariant
                self.wf(),
                self.head_size == h,
                self@.head_size == h,
                self@.head_size == old(self)@.head_size,
                self@.tail_size == old(self)@.tail_size,
                c == old(self).contents(),
                n == c.len(),
                h <= n - h,
                i <= h,
                self.contents() == c.subrange(n - h, n - h + i) + c.subrange(i as int, n as int),
            decreases h - i,
        {
            let b = self.buf[n - h + i];
            self.buf.set(i, b);
            i = i + 1;
            assert(self.contents() =~= c.subrange(n - h, n - h + i) + c.subrange(
                i as int,
                n as int,
            ));
        }
    }
}

/// Swallowing the tail twice is the same as swallowing it once.
pub proof fn lemma_swallow_idempotent(c: Seq<u8>, h: nat)
    requires
        2 * h <= c.len(),
    ensures
        spec_swallow(spec_swallow(c, h), h) == spec_swallow(c, h),
{
    let s = spec_swallow(c, h);
    assert(spec_swallow(s, h) =~= s);
}

/// The whole buffer is the head followed by the tail, and also the init followed by
/// the last; after swallowing, the head equals what the last was.
pub proof fn lemma_boros_parts(b: Boros)
    requires
        b.wf(),
    ensures
        b.contents() == b.spec_head() + b.spec_tail(),
        b.contents() == b.spec_init() + b.spec_last(),
        b.spec_head().len() == b@.head_size,
        b.spec_last().len() == b@.head_size,
        spec_swallow(b.contents(), b@.head_size as nat).subrange(0, b@.head_size as int)
            == b.spec_last(),
{
    assert(b.contents() =~= b.spec_head() + b.spec_tail());
    assert(b.contents() =~= b.spec_init() + b.spec_last());
    assert(spec_swallow(b.contents(), b@.head_size as nat).subrange(0, b@.head_size as int)
        =~= b.spec_last());
}

} // verus!
