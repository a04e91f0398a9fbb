//! Messages: one that owns its payload, and one whose payload lives in a bucket allocator.
use vstd::prelude::*;

use crate::bucket_allocator::{chain_alloc, splice, write_data, Allocation, BucketAllocator, BucketView};
use crate::MessageId;

verus! {

/// A message that owns its payload.
#[derive(Clone)]
pub struct OwnedMessage {
    pub id: MessageId,
    pub payload: Vec<u8>,
}

impl OwnedMessage {
    /// An empty message with room for `capacity` bytes.
    pub fn new(id: MessageId, capacity: usize) -> (m: Self)
        ensures
            m.id == id,
            m.payload@ == Seq::<u8>::empty(),
    {
        Self { id, payload: Vec::with_capacity(capacity) }
    }

    pub fn as_mut_slice(&mut self) -> (s: &mut [u8])
        ensures
            s@ == old(self).payload@,
            final(s)@ == final(self).payload@,
            final(self).id == old(self).id,
    {
        self.payload.as_mut_slice()
    }

    pub fn as_slice(&self) -> (s: &[u8])
        ensures
            s@ == self.payload@,
    {
        self.payload.as_slice()
    }

    /// Appends `buf` to the payload; returns the number of bytes written, all of them.
    pub fn write(&mut self, buf: &[u8]) -> (n: usize)
        ensures
            n == buf@.len(),
            final(self).payload@ == old(self).payload@ + buf@,
            final(self).id == old(self).id,
    {
        let mut i: usize = 0;
        while i < buf.len()
            invariant
                i <= buf@.len(),
                self.payload@ == old(self).payload@ + buf@.subrange(0, i as int),
                self.id == old(self).id,
            decreases buf@.len() - i,
        {
            self.payload.push(buf[i]);
            i = i + 1;
            assert(self.payload@ =~= old(self).payload@ + buf@.subrange(0, i as int));
        }
        assert(buf@.subrange(0, buf@.len() as int) =~= buf@);
        buf.len()
    }
}

impl std::ops::Deref for OwnedMessage {
    type Target = [u8];

    fn deref(&self) -> (s: &[u8])
        ensures
            s@ == self.payload@,
    {
        self.as_slice()
    }
}

/// A message whose payload lives in a bucket of a `BucketAllocator`.
pub struct ManagedMessage {
    pub id: MessageId,
    data: Allocation,
    len: usize,
    capacity: usize,
}

impl ManagedMessage {
    /// The message's id.
    pub closed spec fn spec_id(&self) -> MessageId {
        self.id
    }

    /// Where the payload's room starts in the allocator.
    pub closed spec fn data(&self) -> Allocation {
        self.data
    }

    /// Bytes written so far.
    pub closed spec fn len(&self) -> nat {
        self.len as nat
    }

    /// Room for the payload.
    pub closed spec fn capacity(&self) -> nat {
        self.capacity as nat
    }

    /// The room of the message lies inside a bucket of `allocator`, as a block that is still live.
    pub open spec fn valid_in(&self, allocator: &BucketAllocator) -> bool {
        &&& allocator.wf()
        &&& self.data().bucket < allocator@.len()
        &&& self.data().offset + self.capacity() <= allocator@[self.data().bucket as int].len
        &&& allocator@[self.data().bucket as int].live.contains((self.data().offset as nat, self.capacity()))
        &&& self.len() <= self.capacity()
    }

    /// The payload written so far.
    pub open spec fn content(&self, allocator: &BucketAllocator) -> Seq<u8> {
        allocator@[self.data().bucket as int].data.subrange(
            self.data().offset as int,
            self.data().offset + self.len(),
        )
    }

    /// An empty message with room for `capacity` bytes, taken from `allocator`.
    pub fn new(id: MessageId, capacity: usize, allocator: &mut BucketAllocator) -> (m: Self)
        requires
            old(allocator).wf(),
            old(allocator).within_limits(capacity as nat, 1),
        ensures
            m.spec_id() == id,
            m.len() == 0,
            m.capacity() == capacity,
            (m.data().bucket as nat, m.data().offset as nat, final(allocator)@) == chain_alloc(
                old(allocator)@,
                capacity as nat,
                1,
            ),
            m.valid_in(final(allocator)),
    {
        let ghost pre = *allocator;
        proof {
            pre.lemma_wf();
            crate::bucket_allocator::lemma_chain_alloc(pre@, capacity as nat, 1);
        }
        let data = allocator.allocate(capacity);
        Self { id, data, len: 0, capacity }
    }

    /// Writes as much of `buf` as there is room left for; returns the number of bytes written.
    pub fn write(&mut self, allocator: &mut BucketAllocator, buf: &[u8]) -> (n: usize)
        requires
            old(self).valid_in(old(allocator)),
        ensures
            n == (if buf@.len() <= old(self).capacity() - old(self).len() {
                buf@.len() as int
            } else {
                old(self).capacity() - old(self).len()
            }),
            final(self).spec_id() == old(self).spec_id(),
            final(self).data() == old(self).data(),
            final(self).capacity() == old(self).capacity(),
            final(self).len() == old(self).len() + n,
            final(self).valid_in(final(allocator)),
            final(allocator)@ == (if n == 0 {
                old(allocator)@
            } else {
                old(allocator)@.update(
                    old(self).data().bucket as int,
                    BucketView {
                        data: write_data(
                            old(allocator)@[old(self).data().bucket as int].data,
                            old(self).data().offset + old(self).len(),
                            buf@.subrange(0, n as int),
                        ),
                        ..old(allocator)@[old(self).data().bucket as int]
                    },
                )
            }),
    {
        proof {
            allocator.lemma_wf();
        }
        // at most the remaining capacity
        let room = self.capacity - self.len;
        let to_write = if buf.len() <= room {
            buf.len()
        } else {
            room
        };
        if to_write > 0 {
            let mut part: Vec<u8> = Vec::new();
            let mut i: usize = 0;
            while i < to_write
                invariant
                    i <= to_write <= buf@.len(),
                    part@ == buf@.subrange(0, i as int),
                decreases to_write - i,
            {
                part.push(buf[i]);
                i = i + 1;
                assert(part@ =~= buf@.subrange(0, i as int));
            }
            allocator.write(
                Allocation { bucket: self.data.bucket, offset: self.data.offset + self.len },
                part.as_slice(),
            );
            self.len = self.len + to_write;
        }
        to_write
    }

    /// The payload written so far.
    pub fn as_slice(&self, allocator: &BucketAllocator) -> (s: Vec<u8>)
        requires
            self.valid_in(allocator),
        ensures
            s@ == self.content(allocator),
    {
        allocator.read(self.data, self.len)
    }

    /// The payload written so far, to be changed in place: what is written through the slice
    /// lands in the allocator's buffer, and nothing else changes.
    pub fn as_mut_slice<'a>(&self, allocator: &'a mut BucketAllocator) -> (s: &'a mut [u8])
        requires
            self.valid_in(old(allocator)),
        ensures
            s@ == self.content(old(allocator)),
            final(allocator)@ == old(allocator)@.update(
                self.data().bucket as int,
                BucketView {
                    len: splice(
                        old(allocator)@[self.data().bucket as int].data,
                        self.data().offset as int,
                        self.len() as int,
                        final(s)@,
                    ).len(),
                    data: splice(
                        old(allocator)@[self.data().bucket as int].data,
                        self.data().offset as int,
                        self.len() as int,
                        final(s)@,
                    ),
                    ..old(allocator)@[self.data().bucket as int]
                },
            ),
            final(s)@.len() == s@.len() ==> self.valid_in(final(allocator)),
    {
        proof {
            allocator.lemma_wf();
        }
        allocator.slice_mut(self.data, self.len)
    }

    /// Gives the message's room back to `allocator`.
    pub fn release(self, allocator: &mut BucketAllocator)
        requires
            self.valid_in(old(allocator)),
        ensures
            final(allocator).wf(),
            final(allocator)@ == old(allocator)@.update(
                self.data().bucket as int,
                crate::bucket_allocator::dealloc_step(
                    old(allocator)@[self.data().bucket as int],
                    self.data().offset as nat,
                    self.capacity(),
                ),
            ),
    {
        allocator.deallocate(self.data, self.capacity);
    }
}

} // verus!
