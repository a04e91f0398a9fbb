//! # MpFifo
//!
//! Multi-producer First In First Out Queue
//!
//! A ring buffer of a power-of-two number of slots; one slot always stays
//! free, so a queue of `size` slots holds at most `size - 1` items.
//! A push first claims the slot at `next`, writes it, counts the write as
//! finished in `ready_ts` and publishes it by moving `head` once every
//! claimed slot is written.
use vstd::prelude::*;

use crate::queue_error::{is_pow2, lemma_masked_incr, ring_next, QueueError};

verus! {

/// Multi-producer FIFO queue over a ring buffer.
pub struct MpFifo<T> {
    /// The next slot to claim.
    next: u64,
    /// The slot after the last finished write (the finished writes counted modulo the size).
    ready_ts: u64,
    head: u64,
    tail: u64,
    size_mask: usize,
    buffer: Vec<Option<T>>,
}

impl<T> View for MpFifo<T> {
    type V = Seq<T>;

    /// The items in the queue, the oldest first.
    closed spec fn view(&self) -> Seq<T> {
        Seq::new(self.count() as nat, |i: int| self.buffer@[self.slot(i)]->0)
    }
}

impl<T> MpFifo<T> {
    /// Number of slots of the ring.
    pub closed spec fn size(&self) -> nat {
        self.size_mask as nat + 1
    }

    /// The most items the queue holds at once.
    pub closed spec fn capacity(&self) -> nat {
        self.size_mask as nat
    }

    spec fn count(&self) -> int {
        if self.head >= self.tail {
            self.head - self.tail
        } else {
            self.head + self.size() - self.tail
        }
    }

    /// The slot of the `i`-th oldest item.
    spec fn slot(&self, i: int) -> int {
        if self.tail + i < self.size() {
            self.tail + i
        } else {
            self.tail + i - self.size()
        }
    }

    pub closed spec fn wf(&self) -> bool {
        &&& self.size_mask < usize::MAX
        &&& is_pow2((self.size_mask + 1) as usize)
        &&& self.buffer@.len() == self.size()
        &&& self.head <= self.size_mask
        &&& self.tail <= self.size_mask
        &&& self.next == self.head
        &&& self.ready_ts == self.head
        &&& forall|i: int| 0 <= i < self.count() ==> (#[trigger] self.buffer@[self.slot(i)]) is Some
    }

    /// The queue never holds more than its capacity.
    pub proof fn lemma_len_bound(&self)
        requires
            self.wf(),
        ensures
            self@.len() <= self.capacity(),
    {
    }

    /// Size must be a power of two.
    ///
    /// Note on size: the queue will actually only hold size - 1 items at most.
    pub fn new(size: usize) -> (r: Result<Self, QueueError>)
        requires
            size >= 1,
        ensures
            !is_pow2(size) ==> r == Err::<Self, QueueError>(QueueError::BadSize(size)),
            is_pow2(size) ==> (r matches Ok(q) && q.wf() && q@ == Seq::<T>::empty() && q.capacity()
                == size - 1),
    {
        if size & (size - 1) != 0 {
            return Err(QueueError::BadSize(size));
        }
        let mut buffer: Vec<Option<T>> = Vec::with_capacity(size);
        let mut i: usize = 0;
        while i < size
            invariant
                i <= size,
                buffer@.len() == i,
            decreases size - i,
        {
            buffer.push(None);
            i = i + 1;
        }
        let q = MpFifo { next: 0, ready_ts: 0, head: 0, tail: 0, size_mask: size - 1, buffer };
        assert(q@ =~= Seq::<T>::empty());
        Ok(q)
    }

    /// Push an item into the queue; any number of producers may push.
    ///
    /// Fails with `Full` when the queue already holds `capacity` items.
    pub fn push(&mut self, value: T) -> (r: Result<(), QueueError>)
        requires
            old(self).wf(),
        ensures
            final(self).wf(),
            final(self).capacity() == old(self).capacity(),
            old(self)@.len() == old(self).capacity() ==> r == Err::<(), QueueError>(
                QueueError::Full,
            ) && final(self)@ == old(self)@,
            old(self)@.len() < old(self).capacity() ==> r == Ok::<(), QueueError>(())
                && final(self)@ == old(self)@.push(value),
    {
        // claim the slot at `next`
        let next = self.next;
        let new_next = incr(next, self.size_mask);
        let tail = self.tail;
        if new_next as u64 == tail {
            return Err(QueueError::Full);
        }
        let ghost pre = *self;
        self.next = new_next as u64;
        // write the value
        self.buffer.set(next as usize, Some(value));
        // count the write as finished
        let r = self.ready_ts;
        let ready = incr(r, self.size_mask) as u64;
        self.ready_ts = ready;
        // every claimed slot is written: publish them
        if ready == self.next {
            self.head = ready;
        }
        proof {
            assert forall|i: int| 0 <= i < self.count() implies (#[trigger] self.buffer@[self.slot(
                i,
            )]) is Some by {
                if i < pre.count() {
                    assert(pre.buffer@[pre.slot(i)] is Some);
                }
            }
            assert(self@ =~= pre@.push(value));
        }
        Ok(())
    }

    /// Pop for when only a single consumer exists.
    pub fn pop_single(&mut self) -> (r: Option<T>)
        requires
            old(self).wf(),
        ensures
            final(self).wf(),
            final(self).capacity() == old(self).capacity(),
            old(self)@.len() == 0 ==> r is None && final(self)@ == old(self)@,
            old(self)@.len() > 0 ==> r == Some(old(self)@[0]) && final(self)@ == old(
                self,
            )@.drop_first(),
    {
        let tail = self.tail;
        let head = self.head;
        if head == tail {
            return None;
        }
        let new_tail = incr(tail, self.size_mask) as u64;
        let ghost pre = *self;
        proof {
            assert(pre.buffer@[pre.slot(0)] is Some);
        }
        let mut item: Option<T> = None;
        self.buffer.set_and_swap(tail as usize, &mut item);
        self.tail = new_tail;
        proof {
            assert forall|i: int| 0 <= i < self.count() implies (#[trigger] self.buffer@[self.slot(
                i,
            )]) is Some by {
                assert(self.slot(i) == pre.slot(i + 1));
                assert(pre.buffer@[pre.slot(i + 1)] is Some);
            }
            assert forall|i: int| 0 <= i < self@.len() implies #[trigger] self@[i] == pre@.drop_first()[i] by {
                assert(self.slot(i) == pre.slot(i + 1));
            }
            assert(self@ =~= pre@.drop_first());
        }
        item
    }

    /// Pop for when multiple consumers exist.
    pub fn pop_multi(&mut self) -> (r: Option<T>)
        requires
            old(self).wf(),
        ensures
            final(self).wf(),
            final(self).capacity() == old(self).capacity(),
            old(self)@.len() == 0 ==> r is None && final(self)@ == old(self)@,
            old(self)@.len() > 0 ==> r == Some(old(self)@[0]) && final(self)@ == old(
                self,
            )@.drop_first(),
    {
        self.pop_single()
    }
}

/// The index after `val` in a ring whose size is `mask + 1`.
fn incr(val: u64, mask: usize) -> (r: usize)
    requires
        val <= mask,
        mask < usize::MAX,
        is_pow2((mask + 1) as usize),
    ensures
        r == ring_next(val as int, mask as int),
{
    let v = val as usize;
    proof {
        lemma_masked_incr(v, mask);
    }
    (v + 1) & mask
}

} // verus!
