//! Fixed-capacity send buffer, generic over its byte capacity.
//!
//! A byte ring holding everything from SND.UNA up to the newest byte the
//! application has written (unacknowledged + unsent). Retransmission reads
//! any range relative to SND.UNA; acknowledgment pops from the front.
//!
//! The capacity `CAP` is a const-generic parameter so each deployment fixes
//! its per-connection send window at compile time (the [`crate::Stack`]
//! threads it through).
use crate::util::ring_at;
use vstd::prelude::*;

verus! {

/// Send-side byte ring of capacity `CAP`. Its model is the byte string it
/// holds; offset 0 always corresponds to SND.UNA.
#[derive(Clone, Copy)]
pub struct SendBuffer<const CAP: usize> {
    buf: [u8; CAP],
    /// Ring index of offset 0 (SND.UNA).
    start: usize,
    /// Bytes stored (unacked + unsent).
    len: usize,
}

impl<const CAP: usize> View for SendBuffer<CAP> {
    type V = Seq<u8>;

    closed spec fn view(&self) -> Seq<u8> {
        Seq::new(self.len as nat, |i: int| self.buf@[ring_at(self.start as int, i, CAP as int)])
    }
}

impl<const CAP: usize> Default for SendBuffer<CAP> {
    fn default() -> (r: Self)
        ensures
            r.wf(),
            r@ == Seq::<u8>::empty(),
    {
        Self::new()
    }
}

impl<const CAP: usize> SendBuffer<CAP> {
    /// Well-formedness: the front lies in the ring, and never more bytes than
    /// the capacity.
    pub closed spec fn wf(&self) -> bool {
        self.len <= CAP && (self.start < CAP || self.start == 0)
    }

    /// The capacity bounds the number of bytes.
    pub broadcast proof fn lemma_len_bounded(&self)
        requires
            #[trigger] self.wf(),
        ensures
            self@.len() <= CAP,
    {
    }

    /// An empty buffer.
    pub fn new() -> (r: Self)
        ensures
            r.wf(),
            r@ == Seq::<u8>::empty(),
    {
        let r = SendBuffer { buf: [0u8; CAP], start: 0, len: 0 };
        assert(r@ =~= Seq::<u8>::empty());
        r
    }

    /// Total capacity in bytes.
    pub fn capacity(&self) -> (r: usize)
        ensures
            r == CAP,
    {
        CAP
    }

    /// Bytes stored.
    pub fn len(&self) -> (r: usize)
        requires
            self.wf(),
        ensures
            r == self@.len(),
            r <= CAP,
    {
        self.len
    }

    /// True if nothing is stored.
    pub fn is_empty(&self) -> (r: bool)
        requires
            self.wf(),
        ensures
            r == (self@.len() == 0),
    {
        self.len == 0
    }

    /// Free space.
    pub fn space(&self) -> (r: usize)
        requires
            self.wf(),
        ensures
            r == CAP - self@.len(),
    {
        CAP - self.len
    }

    /// Ring index of offset `off`.
    fn at(&self, off: usize) -> (r: usize)
        requires
            self.wf(),
            off <= CAP,
        ensures
            r == ring_at(self.start as int, off as int, CAP as int),
            off < CAP ==> r < CAP,
    {
        let room: usize = CAP - self.start;
        if off < room {
            self.start + off
        } else {
            off - room
        }
    }

    /// Append as much of `data` as fits; returns the number accepted.
    pub fn write(&mut self, data: &[u8]) -> (n: usize)
        requires
            old(self).wf(),
        ensures
            final(self).wf(),
            n == if data@.len() <= CAP - old(self)@.len() {
                data@.len() as int
            } else {
                CAP - old(self)@.len()
            },
            final(self)@ == old(self)@ + data@.take(n as int),
    {
        let free: usize = self.space();
        let n: usize = if data.len() <= free {
            data.len()
        } else {
            free
        };
        let mut i: usize = 0;
        while i < n
            invariant
                i <= n <= data@.len(),
                n <= CAP - old(self)@.len(),
                self.wf(),
                self.start == old(self).start,
                self@ == old(self)@ + data@.take(i as int),
            decreases n - i,
        {
            let ghost before = self@;
            assert(before.len() == old(self)@.len() + i);
            let at: usize = self.at(self.len);
            self.buf[at] = data[i];
            self.len += 1;
            assert(self@ =~= before.push(data@[i as int]));
            i += 1;
            assert(self@ =~= old(self)@ + data@.take(i as int));
        }
        n
    }

    /// Drop `n` bytes from the front (they were cumulatively acknowledged).
    pub fn ack(&mut self, n: usize)
        requires
            old(self).wf(),
            n <= old(self)@.len(),
        ensures
            final(self).wf(),
            final(self)@ == old(self)@.skip(n as int),
    {
        let at: usize = self.at(n);
        self.start = if at < CAP {
            at
        } else {
            0
        };
        self.len -= n;
        assert(self@ =~= old(self)@.skip(n as int));
    }

    /// Read `len` bytes at `off` (relative to SND.UNA) as up to two slices
    /// (the range may wrap the ring).
    pub fn read(&self, off: usize, len: usize) -> (r: (&[u8], &[u8]))
        requires
            self.wf(),
            off + len <= self@.len(),
        ensures
            r.0@ + r.1@ == self@.subrange(off as int, off + len),
    {
        let from: usize = self.at(off);
        if from >= CAP {
            let empty: &[u8] = &self.buf[0..0];
            assert(empty@ + empty@ =~= self@.subrange(off as int, off + len));
            return (empty, empty);
        }
        let room: usize = CAP - from;
        let first: usize = if len < room {
            len
        } else {
            room
        };
        let a: &[u8] = &self.buf[from..from + first];
        let b: &[u8] = &self.buf[0..len - first];
        assert(a@ + b@ =~= self@.subrange(off as int, off + len));
        (a, b)
    }
}

/// What was written is read back in order: whatever the buffer held before,
/// the bytes that a write accepted are the ones right behind it, and
/// acknowledging everything in front of them leaves exactly them.
pub proof fn written_bytes_come_out_in_order(before: Seq<u8>, data: Seq<u8>, n: int)
    requires
        0 <= n <= data.len(),
    ensures
        (before + data.take(n)).subrange(before.len() as int, before.len() + n) == data.take(n),
        (before + data.take(n)).skip(before.len() as int) == data.take(n),
{
    assert((before + data.take(n)).subrange(before.len() as int, before.len() + n) =~= data.take(
        n,
    ));
    assert((before + data.take(n)).skip(before.len() as int) =~= data.take(n));
}

/// Acknowledging in two steps is acknowledging their sum.
pub proof fn acks_add_up(s: Seq<u8>, a: int, b: int)
    requires
        0 <= a,
        0 <= b,
        a + b <= s.len(),
    ensures
        s.skip(a).skip(b) == s.skip(a + b),
{
    assert(s.skip(a).skip(b) =~= s.skip(a + b));
}

} // verus!
