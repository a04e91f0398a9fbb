//! # SpmcFifo
//!
//! Single Producer Multi Consumer First In First Out Queue
//!
//! A ring buffer of a power-of-two number of slots; one slot always stays
//! free, so a queue of `size` slots holds at most `size - 1` items.
use vstd::prelude::*;

use crate::queue_error::{is_pow2, lemma_masked_incr, ring_next, QueueError};

verus! {

/// Single producer, multi consumer FIFO queue over a ring buffer.
pub struct SpmcFifo<T> {
    size_mask: usize,
    head: usize,
    tail: usize,
    buffer: Vec<Option<T>>,
}

impl<T> View for SpmcFifo<T> {
    type V = Seq<T>;

    /// The items in the queue, the oldest first.
    closed spec fn view(&self) -> Seq<T> {
        Seq::new(self.count() as nat, |i: int| self.buffer@[self.slot(i)]->0)
    }
}

impl<T> SpmcFifo<T> {
    /// Number of slots of the ring.
    pub closed spec fn size(&self) -> nat {
        self.size_mask as nat + 1
    }

    /// The most items the queue holds at once.
    pub closed spec fn capacity(&self) -> nat {
        self.size_mask as nat
    }

    spec fn count(&self) -> int {
        if self.head >= self.tail {
            self.head - self.tail
        } else {
            self.head + self.size() - self.tail
        }
    }

    /// The slot of the `i`-th oldest item.
    spec fn slot(&self, i: int) -> int {
        if self.tail + i < self.size() {
            self.tail + i
        } else {
            self.tail + i - self.size()
        }
    }

    pub closed spec fn wf(&self) -> bool {
        &&& self.size_mask < usize::MAX
        &&& is_pow2((self.size_mask + 1) as usize)
        &&& self.buffer@.len() == self.size()
        &&& self.head <= self.size_mask
        &&& self.tail <= self.size_mask
        &&& forall|i: int| 0 <= i < self.count() ==> (#[trigger] self.buffer@[self.slot(i)]) is Some
    }

    /// The queue never holds more than its capacity.
    pub proof fn lemma_len_bound(&self)
        requires
            self.wf(),
        ensures
            self@.len() <= self.capacity(),
    {
    }

    /// Size must be a power of two.
    ///
    /// Note on size: the queue will actually only hold size - 1 items at most.
    pub fn new(size: usize) -> (r: Result<Self, QueueError>)
        requires
            size >= 1,
        ensures
            !is_pow2(size) ==> r == Err::<Self, QueueError>(QueueError::BadSize(size)),
            is_pow2(size) ==> (r matches Ok(q) && q.wf() && q@ == Seq::<T>::empty() && q.capacity()
                == size - 1),
    {
        if size & (size - 1) != 0 {
            return Err(QueueError::BadSize(size));
        }
        let mut buffer: Vec<Option<T>> = Vec::with_capacity(size);
        let mut i: usize = 0;
        while i < size
            invariant
                i <= size,
                buffer@.len() == i,
            decreases size - i,
        {
            buffer.push(None);
            i = i + 1;
        }
        let q = SpmcFifo { size_mask: size - 1, head: 0, tail: 0, buffer };
        assert(q@ =~= Seq::<T>::empty());
        Ok(q)
    }

    /// Push an item into the queue.
    ///
    /// Fails with `Full` when the queue already holds `capacity` items.
    pub fn push(&mut self, msg: T) -> (r: Result<(), QueueError>)
        requires
            old(self).wf(),
        ensures
            final(self).wf(),
            final(self).capacity() == old(self).capacity(),
            old(self)@.len() == old(self).capacity() ==> r == Err::<(), QueueError>(
                QueueError::Full,
            ) && final(self)@ == old(self)@,
            old(self)@.len() < old(self).capacity() ==> r == Ok::<(), QueueError>(())
                && final(self)@ == old(self)@.push(msg),
    {
        let head = self.head;
        let new_ind = incr(head, self.size_mask);
        if new_ind == self.tail {
            return Err(QueueError::Full);
        }
        let ghost pre = *self;
        self.buffer.set(head, Some(msg));
        self.head = new_ind;
        proof {
            assert forall|i: int| 0 <= i < self.count() implies (#[trigger] self.buffer@[self.slot(
                i,
            )]) is Some by {
                if i < pre.count() {
                    assert(pre.buffer@[pre.slot(i)] is Some);
                }
            }
            assert(self@ =~= pre@.push(msg));
        }
        Ok(())
    }

    /// Pop the oldest item from queue, if any.
    pub fn pop(&mut self) -> (r: Option<T>)
        requires
            old(self).wf(),
        ensures
            final(self).wf(),
            final(self).capacity() == old(self).capacity(),
            old(self)@.len() == 0 ==> r is None && final(self)@ == old(self)@,
            old(self)@.len() > 0 ==> r == Some(old(self)@[0]) && final(self)@ == old(
                self,
            )@.drop_first(),
    {
        let tail = self.tail;
        let head = self.head;
        if tail == head {
            return None;
        }
        let new_tail = incr(tail, self.size_mask);
        let ghost pre = *self;
        proof {
            assert(pre.buffer@[pre.slot(0)] is Some);
        }
        let mut item: Option<T> = None;
        self.buffer.set_and_swap(tail, &mut item);
        self.tail = new_tail;
        proof {
            assert forall|i: int| 0 <= i < self.count() implies (#[trigger] self.buffer@[self.slot(
                i,
            )]) is Some by {
                assert(self.slot(i) == pre.slot(i + 1));
                assert(pre.buffer@[pre.slot(i + 1)] is Some);
            }
            assert forall|i: int| 0 <= i < self@.len() implies #[trigger] self@[i] == pre@.drop_first()[i] by {
                assert(self.slot(i) == pre.slot(i + 1));
            }
            assert(self@ =~= pre@.drop_first());
        }
        item
    }

    /// Removes every item. To ensure thread safety this method is really slow. Use sparingly.
    pub fn clear(&mut self)
        requires
            old(self).wf(),
        ensures
            final(self).wf(),
            final(self).capacity() == old(self).capacity(),
            final(self)@ == Seq::<T>::empty(),
    {
        let ghost cap = self.capacity();
        loop
            invariant
                self.wf(),
                self.capacity() == cap,
            ensures
                self@.len() == 0,
            decreases self@.len(),
        {
            match self.pop() {
                Some(_) => {},
                None => {
                    break ;
                },
            }
        }
        assert(self@ =~= Seq::<T>::empty());
    }

    /// Whether the queue holds no item.
    pub fn is_empty(&self) -> (b: bool)
        requires
            self.wf(),
        ensures
            b == (self@.len() == 0),
    {
        self.tail == self.head
    }
}

impl<T: Copy> SpmcFifo<T> {
    /// The items in the queue, the oldest first, without consuming them.
    pub fn iter(&self) -> (items: Vec<T>)
        requires
            self.wf(),
        ensures
            items@ == self@,
    {
        let mut items: Vec<T> = Vec::new();
        let mut cur = self.tail;
        let mut k: usize = 0;
        while cur != self.head
            invariant
                self.wf(),
                k <= self.count(),
                cur == self.slot(k as int),
                items@ == self@.take(k as int),
            decreases self.count() - k,
        {
            proof {
                if k == self.count() {
                    assert(self.slot(k as int) == self.head);
                }
                assert(self.buffer@[self.slot(k as int)] is Some);
            }
            let item = self.buffer[cur].unwrap();
            items.push(item);
            cur = incr(cur, self.size_mask);
            k = k + 1;
            assert(items@ =~= self@.take(k as int));
        }
        proof {
            if k < self.count() {
                assert(self.slot(k as int) != self.head);
            }
        }
        assert(items@ =~= self@);
        items
    }
}

/// The index after `val` in a ring whose size is `mask + 1`.
fn incr(val: usize, mask: usize) -> (r: usize)
    requires
        val <= mask,
        mask < usize::MAX,
        is_pow2((mask + 1) as usize),
    ensures
        r == ring_next(val as int, mask as int),
{
    proof {
        lemma_masked_incr(val, mask);
    }
    (val + 1) & mask
}

/// First in, first out: popping a non-empty queue and pushing onto it can be done in either
/// order, with the same result.
pub proof fn law_push_pop_commute<T>(s: Seq<T>, x: T)
    requires
        s.len() > 0,
    ensures
        s.push(x)[0] == s[0],
        s.push(x).drop_first() == s.drop_first().push(x),
{
    assert(s.push(x).drop_first() =~= s.drop_first().push(x));
}

/// An item pushed onto an empty queue is the next one popped, and the queue is empty again.
pub proof fn law_push_pop_empty<T>(x: T)
    ensures
        Seq::<T>::empty().push(x)[0] == x,
        Seq::<T>::empty().push(x).drop_first() == Seq::<T>::empty(),
{
    assert(Seq::<T>::empty().push(x).drop_first() =~= Seq::<T>::empty());
}

/// Pops come out in the order of the queue: a queue that holds `s` holds `s.skip(k)` after
/// `k` pops, and the next pop gives `s[k]`.
pub proof fn law_pops_in_order<T>(s: Seq<T>, k: int)
    requires
        0 <= k < s.len(),
    ensures
        s.skip(0) == s,
        s.skip(k)[0] == s[k],
        s.skip(k).drop_first() == s.skip(k + 1),
{
    assert(s.skip(0) =~= s);
    assert(s.skip(k).drop_first() =~= s.skip(k + 1));
}

} // verus!
