//! Fixed-capacity containers.
//!
//! The protocol core forbids heap allocation; every collection in the core is
//! one of these bounded structures, so worst-case memory is a compile-time
//! constant.
use vstd::prelude::*;
use vstd::std_specs::iter::IteratorSpec;

verus! {

/// A fixed-capacity vector of `Copy` elements.
///
/// `push` reports failure instead of allocating; callers must decide the
/// overflow policy explicitly (drop, replace, or treat as protocol error).
#[derive(Debug, Copy)]
pub struct BoundedVec<T, const N: usize> {
    items: [T; N],
    len: usize,
}

impl<T: Copy, const N: usize> View for BoundedVec<T, N> {
    type V = Seq<T>;

    closed spec fn view(&self) -> Seq<T> {
        self.items@.take(self.len as int)
    }
}

impl<T: Copy, const N: usize> Clone for BoundedVec<T, N> {
    fn clone(&self) -> (r: Self)
        ensures
            r == *self,
    {
        *self
    }
}

impl<T: Copy + Default, const N: usize> Default for BoundedVec<T, N> {
    fn default() -> (r: Self)
        ensures
            r.wf(),
            r@ == Seq::<T>::empty(),
    {
        Self::new()
    }
}

impl<T: Copy + Default, const N: usize> BoundedVec<T, N> {
    /// An empty vector.
    pub fn new() -> (r: Self)
        ensures
            r.wf(),
            r@ == Seq::<T>::empty(),
    {
        BoundedVec { items: [T::default(); N], len: 0 }
    }
}

impl<T: Copy, const N: usize> BoundedVec<T, N> {
    spec fn inv(&self) -> bool {
        self.len <= N
    }

    /// Well-formedness: never more elements than the capacity.
    pub closed spec fn wf(&self) -> bool {
        self.inv()
    }

    /// All places of the vector, behind the elements too.
    pub closed spec fn store(&self) -> Seq<T> {
        self.items@
    }

    /// The elements are the first places; and the places and the number of
    /// elements are all there is to a vector.
    pub proof fn lemma_store_determines(a: Self, b: Self)
        requires
            a.wf(),
            b.wf(),
        ensures
            a@ == a.store().take(a@.len() as int),
            a.store().len() == N,
            a.store() == b.store() && a@.len() == b@.len() ==> a == b,
    {
        if a.store() == b.store() {
            assert(a.items =~= b.items);
        }
    }

    /// The capacity bounds the number of elements.
    pub broadcast proof fn lemma_len_bounded(&self)
        requires
            #[trigger] self.wf(),
        ensures
            self@.len() <= N,
    {
    }

    /// Number of elements currently stored.
    #[inline]
    pub fn len(&self) -> (r: usize)
        requires
            self.wf(),
        ensures
            r == self@.len(),
            r <= N,
    {
        self.len
    }

    /// True if no elements are stored.
    #[inline]
    pub fn is_empty(&self) -> (r: bool)
        requires
            self.wf(),
        ensures
            r == (self@.len() == 0),
    {
        self.len == 0
    }

    /// True if at capacity.
    #[inline]
    pub fn is_full(&self) -> (r: bool)
        requires
            self.wf(),
        ensures
            r == (self@.len() == N),
            self@.len() <= N,
    {
        self.len == N
    }

    /// The element at `idx`.
    #[inline]
    pub fn get(&self, idx: usize) -> (r: T)
        requires
            self.wf(),
            idx < self@.len(),
        ensures
            r == self@[idx as int],
    {
        self.items[idx]
    }

    /// Replace the element at `idx`.
    #[inline]
    pub fn set(&mut self, idx: usize, value: T)
        requires
            old(self).wf(),
            idx < old(self)@.len(),
        ensures
            final(self).wf(),
            final(self)@ == old(self)@.update(idx as int, value),
    {
        self.items[idx] = value;
    }

    /// Append an element. Returns `Err(value)` when full.
    pub fn push(&mut self, value: T) -> (r: Result<(), T>)
        requires
            old(self).wf(),
        ensures
            final(self).wf(),
            old(self)@.len() < N ==> r == Ok::<(), T>(()) && final(self)@ == old(self)@.push(value),
            old(self)@.len() >= N ==> r == Err::<(), T>(value) && *final(self) == *old(self),
    {
        if self.len < N {
            self.items[self.len] = value;
            self.len += 1;
            Ok(())
        } else {
            Err(value)
        }
    }

    /// Insert at `idx`, shifting later elements right. Returns `Err(value)`
    /// when full or `idx > len`.
    pub fn insert(&mut self, idx: usize, value: T) -> (r: Result<(), T>)
        requires
            old(self).wf(),
        ensures
            final(self).wf(),
            old(self)@.len() < N && idx <= old(self)@.len() ==> {
                &&& r == Ok::<(), T>(())
                &&& final(self)@ == old(self)@.insert(idx as int, value)
            },
            old(self)@.len() >= N || idx > old(self)@.len() ==> {
                &&& r == Err::<(), T>(value)
                &&& *final(self) == *old(self)
            },
    {
        if self.len >= N || idx > self.len {
            return Err(value);
        }
        let mut i: usize = self.len;
        while i > idx
            invariant
                idx <= i <= self.len,
                self.len < N,
                self.len == old(self).len,
                forall|j: int| 0 <= j <= i && j < N ==> self.items@[j] == old(self).items@[j],
                forall|j: int|
                    i < j <= self.len ==> #[trigger] self.items@[j] == old(self).items@[j - 1],
            decreases i,
        {
            self.items[i] = self.items[i - 1];
            i -= 1;
        }
        self.items[idx] = value;
        self.len += 1;
        assert(self@ =~= old(self)@.insert(idx as int, value));
        Ok(())
    }

    /// Remove and return the element at `idx`, shifting later elements left.
    pub fn remove(&mut self, idx: usize) -> (r: Option<T>)
        requires
            old(self).wf(),
        ensures
            final(self).wf(),
            idx < old(self)@.len() ==> {
                &&& r == Some(old(self)@[idx as int])
                &&& final(self)@ == old(self)@.remove(idx as int)
            },
            idx >= old(self)@.len() ==> r is None && *final(self) == *old(self),
    {
        if idx >= self.len {
            return None;
        }
        let value = self.items[idx];
        let mut i: usize = idx;
        while i < self.len - 1
            invariant
                idx <= i < self.len <= N,
                self.len == old(self).len,
                forall|j: int| 0 <= j < idx ==> self.items@[j] == old(self).items@[j],
                forall|j: int| idx <= j < i ==> #[trigger] self.items@[j] == old(self).items@[j + 1],
                forall|j: int| i <= j < N ==> self.items@[j] == old(self).items@[j],
            decreases self.len - i,
        {
            self.items[i] = self.items[i + 1];
            i += 1;
        }
        self.len -= 1;
        assert(self@ =~= old(self)@.remove(idx as int));
        Some(value)
    }

    /// Remove all elements.
    #[inline]
    pub fn clear(&mut self)
        ensures
            final(self).wf(),
            final(self)@ == Seq::<T>::empty(),
    {
        self.len = 0;
    }

    /// Retain only elements for which `keep` returns true, in order. The places
    /// behind them stay as they are.
    pub fn retain(&mut self, keep: impl Fn(&T) -> bool)
        requires
            old(self).wf(),
            forall|x: &T| #[trigger] keep.requires((x,)),
        ensures
            final(self).wf(),
            forall|p: spec_fn(T) -> bool|
                (forall|x: T, b: bool| #[trigger] keep.ensures((&x,), b) ==> b == p(x))
                    ==> final(self)@ == #[trigger] old(self)@.filter(p),
            final(self).store() == final(self)@ + old(self).store().skip(final(self)@.len() as int),
    {
        let mut out: usize = 0;
        let mut i: usize = 0;
        while i < self.len
            invariant
                out <= i <= self.len <= N,
                self.len == old(self).len,
                forall|x: &T| #[trigger] keep.requires((x,)),
                forall|j: int| out <= j < N ==> self.items@[j] == old(self).items@[j],
                forall|p: spec_fn(T) -> bool|
                    (forall|x: T, b: bool| #[trigger] keep.ensures((&x,), b) ==> b == p(x))
                        ==> self.items@.take(out as int) == #[trigger] old(self)@.take(
                        i as int,
                    ).filter(p),
            decreases self.len - i,
        {
            let ghost before = self.items@;
            let ghost kept = out as int;
            let hit = keep(&self.items[i]);
            if hit {
                self.items[out] = self.items[i];
                out += 1;
                assert(self.items@.take(out as int) =~= before.take(kept).push(before[i as int]));
            }
            assert forall|p: spec_fn(T) -> bool|
                (forall|x: T, b: bool| #[trigger] keep.ensures((&x,), b) ==> b == p(x))
                    implies self.items@.take(out as int) == #[trigger] old(self)@.take(
                i + 1,
            ).filter(p) by {
                reveal(Seq::filter);
                assert(old(self)@.take(i + 1).drop_last() =~= old(self)@.take(i as int));
                assert(old(self)@.take(i + 1).last() == before[i as int]);
                assert(keep.ensures((&before[i as int],), hit));
                assert(before.take(kept) == old(self)@.take(i as int).filter(p));
            }
            i += 1;
        }
        assert(old(self)@.take(self.len as int) =~= old(self)@);
        self.len = out;
        assert(self.store() =~= self@ + old(self).store().skip(self@.len() as int));
    }

    /// The stored elements as a slice.
    #[inline]
    pub fn as_slice(&self) -> (r: &[T])
        requires
            self.wf(),
        ensures
            r@ == self@,
    {
        &self.items[0..self.len]
    }

    /// The stored elements as a mutable slice.
    #[inline]
    pub fn as_mut_slice(&mut self) -> (r: &mut [T])
        requires
            old(self).wf(),
        ensures
            r@ == old(self)@,
            final(self).wf(),
            final(r)@.len() == r@.len() ==> final(self)@ == final(r)@,
    {
        let n = self.len;
        let all: &mut [T] = &mut self.items;
        let (head, _tail) = all.split_at_mut(n);
        head
    }

    /// Iterate over stored elements.
    pub fn iter(&self) -> (r: core::slice::Iter<'_, T>)
        requires
            self.wf(),
        ensures
            r.remaining() == self@.as_ref(),
    {
        self.as_slice().iter()
    }
}

impl<T: Copy, const N: usize> vstd::std_specs::core::IndexSpecImpl<usize> for BoundedVec<T, N> {
    open spec fn index_req(&self, idx: &usize) -> bool {
        self.wf() && *idx < self@.len()
    }
}

impl<T: Copy, const N: usize> core::ops::Index<usize> for BoundedVec<T, N> {
    type Output = T;

    fn index(&self, idx: usize) -> (r: &T)
        ensures
            *r == self@[idx as int],
    {
        &self.items[idx]
    }
}

/// A fixed-capacity FIFO queue of `Copy` elements (ring buffer).
#[derive(Debug, Copy)]
pub struct BoundedQueue<T, const N: usize> {
    items: [T; N],
    head: usize,
    len: usize,
}

/// Position `i` places after `head` in a ring of `n` places.
pub open spec fn ring_at(head: int, i: int, n: int) -> int {
    if head + i < n {
        head + i
    } else {
        head + i - n
    }
}

impl<T: Copy, const N: usize> View for BoundedQueue<T, N> {
    type V = Seq<T>;

    closed spec fn view(&self) -> Seq<T> {
        Seq::new(self.len as nat, |i: int| self.items@[ring_at(self.head as int, i, N as int)])
    }
}

impl<T: Copy, const N: usize> Clone for BoundedQueue<T, N> {
    fn clone(&self) -> (r: Self)
        ensures
            r == *self,
    {
        *self
    }
}

impl<T: Copy + Default, const N: usize> Default for BoundedQueue<T, N> {
    fn default() -> (r: Self)
        ensures
            r.wf(),
            r@ == Seq::<T>::empty(),
    {
        Self::new()
    }
}

impl<T: Copy + Default, const N: usize> BoundedQueue<T, N> {
    /// An empty queue.
    pub fn new() -> (r: Self)
        ensures
            r.wf(),
            r@ == Seq::<T>::empty(),
    {
        BoundedQueue { items: [T::default(); N], head: 0, len: 0 }
    }
}

impl<T: Copy, const N: usize> BoundedQueue<T, N> {
    /// Well-formedness: the front lies in the ring, and never more elements
    /// than the capacity.
    pub closed spec fn wf(&self) -> bool {
        self.len <= N && (self.head < N || self.head == 0)
    }

    /// The capacity bounds the number of elements.
    pub broadcast proof fn lemma_len_bounded(&self)
        requires
            #[trigger] self.wf(),
        ensures
            self@.len() <= N,
    {
    }

    /// Number of queued elements.
    #[inline]
    pub fn len(&self) -> (r: usize)
        requires
            self.wf(),
        ensures
            r == self@.len(),
            r <= N,
    {
        self.len
    }

    /// True if no elements are queued.
    #[inline]
    pub fn is_empty(&self) -> (r: bool)
        requires
            self.wf(),
        ensures
            r == (self@.len() == 0),
    {
        self.len == 0
    }

    /// True if at capacity.
    #[inline]
    pub fn is_full(&self) -> (r: bool)
        requires
            self.wf(),
        ensures
            r == (self@.len() == N),
            self@.len() <= N,
    {
        self.len == N
    }

    /// Enqueue at the back. Returns `Err(value)` when full.
    pub fn push_back(&mut self, value: T) -> (r: Result<(), T>)
        requires
            old(self).wf(),
        ensures
            final(self).wf(),
            old(self)@.len() < N ==> r == Ok::<(), T>(()) && final(self)@ == old(self)@.push(value),
            old(self)@.len() >= N ==> r == Err::<(), T>(value) && *final(self) == *old(self),
    {
        if self.len == N {
            return Err(value);
        }
        let room: usize = N - self.head;
        let at: usize = if self.len < room {
            self.head + self.len
        } else {
            self.len - room
        };
        self.items[at] = value;
        self.len += 1;
        assert(self@ =~= old(self)@.push(value));
        Ok(())
    }

    /// Dequeue from the front.
    pub fn pop_front(&mut self) -> (r: Option<T>)
        requires
            old(self).wf(),
        ensures
            final(self).wf(),
            old(self)@.len() == 0 ==> r is None && *final(self) == *old(self),
            old(self)@.len() > 0 ==> {
                &&& r == Some(old(self)@[0])
                &&& final(self)@ == old(self)@.drop_first()
            },
    {
        if self.len == 0 {
            return None;
        }
        let value = self.items[self.head];
        self.head = if self.head + 1 < N {
            self.head + 1
        } else {
            0
        };
        self.len -= 1;
        assert(self@ =~= old(self)@.drop_first());
        Some(value)
    }

    /// Remove all elements.
    #[inline]
    pub fn clear(&mut self)
        requires
            old(self).wf(),
        ensures
            final(self).wf(),
            final(self)@ == Seq::<T>::empty(),
    {
        self.len = 0;
    }
}

/// What is done to a queue.
pub enum QueueOp<T> {
    /// A value is offered.
    Push(T),
    /// A value is asked for.
    Pop,
}

/// A queue of `cap` places after a run of operations on an empty one; the
/// values that it accepted, in order; and those that it gave back, in order.
pub open spec fn queue_run<T>(ops: Seq<QueueOp<T>>, cap: nat) -> (Seq<T>, Seq<T>, Seq<T>)
    decreases ops.len(),
{
    if ops.len() == 0 {
        (Seq::empty(), Seq::empty(), Seq::empty())
    } else {
        let (q, pushed, popped) = queue_run(ops.drop_last(), cap);
        match ops.last() {
            QueueOp::Push(v) => if q.len() < cap {
                (q.push(v), pushed.push(v), popped)
            } else {
                (q, pushed, popped)
            },
            QueueOp::Pop => if q.len() > 0 {
                (q.drop_first(), pushed, popped.push(q[0]))
            } else {
                (q, pushed, popped)
            },
        }
    }
}

/// First in, first out: over any run of operations, what a queue gave back
/// followed by what it still holds is what it accepted, in order. So the value
/// given back next is the one accepted that many places earlier, nothing is lost
/// or repeated, and there is none exactly if as many were given back as accepted.
pub proof fn queues_are_first_in_first_out<T>(ops: Seq<QueueOp<T>>, cap: nat)
    ensures
        ({
            let (q, pushed, popped) = queue_run(ops, cap);
            &&& pushed == popped + q
            &&& q.len() <= cap
            &&& q.len() == 0 <==> popped.len() == pushed.len()
            &&& q.len() > 0 ==> q[0] == pushed[popped.len() as int]
        }),
    decreases ops.len(),
{
    if ops.len() > 0 {
        queues_are_first_in_first_out(ops.drop_last(), cap);
        let (q, pushed, popped) = queue_run(ops.drop_last(), cap);
        match ops.last() {
            QueueOp::Push(v) => {
                assert(pushed.push(v) =~= popped + q.push(v));
            },
            QueueOp::Pop => {
                if q.len() > 0 {
                    assert(pushed =~= popped.push(q[0]) + q.drop_first());
                }
            },
        }
    } else {
        assert(Seq::<T>::empty() + Seq::<T>::empty() =~= Seq::<T>::empty());
    }
}

} // verus!
