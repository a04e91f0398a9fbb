//! A queue of bounded queues, one per producer: producers push into their own queue, and
//! consumers pop from any producer or from a given one.
use uuid::Uuid;
use vstd::prelude::*;

use crate::queue_error::{is_pow2, QueueError};
use crate::spmcfifo::SpmcFifo;

verus! {

#[verifier::external_type_specification]
#[verifier::external_body]
pub struct ExUuid(uuid::Uuid);

/// Whether two producer ids are the same: `Uuid`'s `==`, which `uuid` derives, so that it
/// compares the ids' 16 bytes; the contract claims that it holds exactly of equal ids.
#[verifier::external_body]
fn same_id(a: &Uuid, b: &Uuid) -> (r: bool)
    ensures
        r == (*a == *b),
{
    a == b
}

/// One bounded queue per producer.
pub struct BoundedQueue<T> {
    queues: Vec<(Uuid, SpmcFifo<T>)>,
    default_capacity: usize,
}

impl<T> BoundedQueue<T> {
    spec fn has(&self, id: Uuid) -> bool {
        exists|i: int| 0 <= i < self.queues@.len() && self.queues@[i].0 == id
    }

    spec fn index_of(&self, id: Uuid) -> int {
        choose|i: int| 0 <= i < self.queues@.len() && self.queues@[i].0 == id
    }

    /// The messages of each producer, the oldest first.
    pub closed spec fn items(&self) -> Map<Uuid, Seq<T>> {
        Map::new(|id: Uuid| self.has(id), |id: Uuid| self.queues@[self.index_of(id)].1@)
    }

    /// The capacity of each producer's queue.
    pub closed spec fn capacities(&self) -> Map<Uuid, nat> {
        Map::new(|id: Uuid| self.has(id), |id: Uuid| self.queues@[self.index_of(id)].1.capacity())
    }

    /// The size of the queues that `push` creates.
    pub closed spec fn default_capacity(&self) -> nat {
        self.default_capacity as nat
    }

    /// Every queue is well formed and no producer has two queues.
    pub closed spec fn wf(&self) -> bool {
        &&& forall|i: int| 0 <= i < self.queues@.len() ==> (#[trigger] self.queues@[i]).1.wf()
        &&& forall|i: int, j: int|
            0 <= i < self.queues@.len() && 0 <= j < self.queues@.len() && i != j ==> #[trigger] self.queues@[i].0
                != #[trigger] self.queues@[j].0
    }

    /// The queue at index `i` is the one of its producer.
    proof fn lemma_at(&self, i: int)
        requires
            self.wf(),
            0 <= i < self.queues@.len(),
        ensures
            self.items().contains_key(self.queues@[i].0),
            self.index_of(self.queues@[i].0) == i,
            self.items()[self.queues@[i].0] == self.queues@[i].1@,
            self.capacities()[self.queues@[i].0] == self.queues@[i].1.capacity(),
    {
        assert(self.has(self.queues@[i].0));
    }

    /// Replacing the queue at index `i` by one of the same producer.
    proof fn lemma_update(&self, pre: Self, i: int, q: SpmcFifo<T>)
        requires
            pre.wf(),
            0 <= i < pre.queues@.len(),
            q.wf(),
            self.queues@ == pre.queues@.update(i, (pre.queues@[i].0, q)),
            self.default_capacity == pre.default_capacity,
        ensures
            self.wf(),
            self.items() == pre.items().insert(pre.queues@[i].0, q@),
            self.capacities() == pre.capacities().insert(pre.queues@[i].0, q.capacity()),
    {
        let id = pre.queues@[i].0;
        assert forall|k: Uuid| #[trigger] self.has(k) <==> pre.has(k) by {
            if self.has(k) {
                let j = self.index_of(k);
                assert(pre.queues@[j].0 == k);
            }
            if pre.has(k) {
                let j = pre.index_of(k);
                assert(self.queues@[j].0 == k);
            }
        }
        assert forall|k: Uuid| #[trigger] self.has(k) && k != id implies self.index_of(k) == pre.index_of(k) by {
            let j = pre.index_of(k);
            assert(self.queues@[j].0 == k);
        }
        self.lemma_at(i);
        assert(self.items() =~= pre.items().insert(id, q@));
        assert(self.capacities() =~= pre.capacities().insert(id, q.capacity()));
    }

    pub fn new(capacity: usize) -> (b: Self)
        ensures
            b.wf(),
            b.items() == Map::<Uuid, Seq<T>>::empty(),
            b.capacities() == Map::<Uuid, nat>::empty(),
            b.default_capacity() == capacity,
    {
        let b = Self { queues: Vec::new(), default_capacity: capacity };
        assert(b.items() =~= Map::<Uuid, Seq<T>>::empty());
        assert(b.capacities() =~= Map::<Uuid, nat>::empty());
        b
    }

    /// The index of the queue of `id`, if any.
    fn find(&self, id: Uuid) -> (r: Option<usize>)
        requires
            self.wf(),
        ensures
            match r {
                Some(i) => i < self.queues@.len() && self.queues@[i as int].0 == id,
                None => !self.items().contains_key(id),
            },
    {
        let mut i: usize = 0;
        while i < self.queues.len()
            invariant
                i <= self.queues@.len(),
                forall|j: int| 0 <= j < i ==> self.queues@[j].0 != id,
            decreases self.queues@.len() - i,
        {
            if same_id(&self.queues[i].0, &id) {
                return Some(i);
            }
            i = i + 1;
        }
        None
    }

    /// Whether no producer has a message queued.
    pub fn is_empty(&self) -> (b: bool)
        requires
            self.wf(),
        ensures
            b == forall|id: Uuid| #[trigger] self.items().contains_key(id) ==> self.items()[id].len() == 0,
    {
        let mut i: usize = 0;
        while i < self.queues.len()
            invariant
                self.wf(),
                i <= self.queues@.len(),
                forall|j: int| 0 <= j < i ==> (#[trigger] self.queues@[j]).1@.len() == 0,
            decreases self.queues@.len() - i,
        {
            if !self.queues[i].1.is_empty() {
                proof {
                    self.lemma_at(i as int);
                }
                return false;
            }
            i = i + 1;
        }
        proof {
            assert forall|id: Uuid| #[trigger] self.items().contains_key(id) implies self.items()[id].len()
                == 0 by {
                let j = self.index_of(id);
                self.lemma_at(j);
            }
        }
        true
    }

    /// Pushes `item` into the queue of producer `id`; the first push of a producer creates its
    /// queue, of the default size.
    pub fn push(&mut self, id: Uuid, item: T) -> (r: Result<(), QueueError>)
        requires
            old(self).wf(),
            !old(self).items().contains_key(id) ==> old(self).default_capacity() >= 1,
        ensures
            final(self).wf(),
            final(self).default_capacity() == old(self).default_capacity(),
            old(self).items().contains_key(id) ==> {
                let q = old(self).items()[id];
                final(self).capacities() == old(self).capacities() && if q.len() < old(self).capacities()[id] {
                    r == Ok::<(), QueueError>(()) && final(self).items() == old(self).items().insert(
                        id,
                        q.push(item),
                    )
                } else {
                    r == Err::<(), QueueError>(QueueError::Full) && final(self).items() == old(self).items()
                }
            },
            !old(self).items().contains_key(id) ==> {
                let size = old(self).default_capacity() as usize;
                if !is_pow2(size) {
                    r == Err::<(), QueueError>(QueueError::BadSize(size)) && final(self).items()
                        == old(self).items() && final(self).capacities() == old(self).capacities()
                } else if size == 1 {
                    r == Err::<(), QueueError>(QueueError::Full) && final(self).items() == old(self).items() && final(self).capacities() == old(self).capacities()
                } else {
                    &&& r == Ok::<(), QueueError>(())
                    &&& final(self).items() == old(self).items().insert(id, seq![item])
                    &&& final(self).capacities() == old(self).capacities().insert(id, (size - 1) as nat)
                }
            },
    {
        // if this queue already exists just push the item
        if let Some(i) = self.find(id) {
            proof {
                self.lemma_at(i as int);
            }
            let ghost pre = *self;
            let mut entry = self.queues.remove(i);
            proof {
                entry.1.lemma_len_bound();
            }
            let r = entry.1.push(item);
            self.queues.insert(i, entry);
            proof {
                assert(self.queues@ =~= pre.queues@.update(i as int, (id, self.queues@[i as int].1)));
                self.lemma_update(pre, i as int, self.queues@[i as int].1);
                assert(self.capacities() =~= pre.capacities());
                if r is Err {
                    assert(self.items() =~= pre.items());
                }
            }
            return r;
        }
        // create the new queue and push the item
        let mut q = match SpmcFifo::new(self.default_capacity) {
            Ok(q) => q,
            Err(e) => {
                return Err(e);
            },
        };
        match q.push(item) {
            Ok(()) => {},
            Err(e) => {
                return Err(e);
            },
        }
        let ghost pre = *self;
        let ghost qv = q@;
        let ghost cap = q.capacity();
        // insert our new queue into the backend
        self.queues.push((id, q));
        proof {
            self.lemma_push(pre, id, qv, cap);
        }
        Ok(())
    }

    /// Adding the queue of a producer that had none.
    proof fn lemma_push(&self, pre: Self, id: Uuid, qv: Seq<T>, cap: nat)
        requires
            pre.wf(),
            !pre.items().contains_key(id),
            self.queues@.len() == pre.queues@.len() + 1,
            forall|j: int| 0 <= j < pre.queues@.len() ==> self.queues@[j] == pre.queues@[j],
            self.queues@.last().0 == id,
            self.queues@.last().1.wf(),
            self.queues@.last().1@ == qv,
            self.queues@.last().1.capacity() == cap,
        ensures
            self.wf(),
            self.items() == pre.items().insert(id, qv),
            self.capacities() == pre.capacities().insert(id, cap),
    {
        let n = pre.queues@.len() as int;
        assert forall|j: int| 0 <= j < n implies pre.queues@[j].0 != id by {
            if pre.queues@[j].0 == id {
                assert(pre.has(id));
            }
        }
        assert forall|k: Uuid| #[trigger] self.has(k) <==> (pre.has(k) || k == id) by {
            if self.has(k) && k != id {
                let j = self.index_of(k);
                assert(pre.queues@[j].0 == k);
            }
            if pre.has(k) {
                let j = pre.index_of(k);
                assert(self.queues@[j].0 == k);
            }
            if k == id {
                assert(self.queues@[n].0 == k);
            }
        }
        assert forall|k: Uuid| #[trigger] pre.has(k) implies self.index_of(k) == pre.index_of(k) by {
            let j = pre.index_of(k);
            assert(self.queues@[j].0 == k);
        }
        self.lemma_at(n);
        assert(self.items() =~= pre.items().insert(id, qv));
        assert(self.capacities() =~= pre.capacities().insert(id, cap));
    }

    /// Registers `queue` as the queue of producer `id`, in place of its old queue, if any.
    ///
    /// This method is intended to be used when you want to use custom queues for given producers.
    /// For the default behaviour just skip this and use `push` directly.
    pub fn register_producer(&mut self, id: Uuid, queue: SpmcFifo<T>) -> (r: Result<(), QueueError>)
        requires
            old(self).wf(),
            queue.wf(),
        ensures
            final(self).wf(),
            r is Ok,
            final(self).default_capacity() == old(self).default_capacity(),
            final(self).items() == old(self).items().insert(id, queue@),
            final(self).capacities() == old(self).capacities().insert(id, queue.capacity()),
    {
        let ghost qv = queue@;
        let ghost cap = queue.capacity();
        match self.find(id) {
            Some(i) => {
                let ghost pre = *self;
                self.queues.set(i, (id, queue));
                proof {
                    self.lemma_update(pre, i as int, self.queues@[i as int].1);
                }
            },
            None => {
                let ghost pre = *self;
                self.queues.push((id, queue));
                proof {
                    self.lemma_push(pre, id, qv, cap);
                }
            },
        }
        Ok(())
    }

    /// Removes the queue of producer `id`, with what it holds.
    pub fn remove_producer(&mut self, id: Uuid)
        requires
            old(self).wf(),
        ensures
            final(self).wf(),
            final(self).default_capacity() == old(self).default_capacity(),
            final(self).items() == old(self).items().remove(id),
            final(self).capacities() == old(self).capacities().remove(id),
    {
        if let Some(i) = self.find(id) {
            let ghost pre = *self;
            proof {
                self.lemma_at(i as int);
            }
            let _ = self.queues.remove(i);
            proof {
                assert forall|k: Uuid| #[trigger] self.has(k) <==> (pre.has(k) && k != id) by {
                    if self.has(k) {
                        let j = self.index_of(k);
                        if j < i {
                            assert(pre.queues@[j].0 == k);
                        } else {
                            assert(pre.queues@[j + 1].0 == k);
                        }
                    }
                    if pre.has(k) && k != id {
                        let j = pre.index_of(k);
                        if j < i {
                            assert(self.queues@[j].0 == k);
                        } else {
                            assert(self.queues@[j - 1].0 == k);
                        }
                    }
                }
                assert forall|k: Uuid| #[trigger] self.has(k) implies self.queues@[self.index_of(k)]
                    == pre.queues@[pre.index_of(k)] by {
                    let j = self.index_of(k);
                    if j < i {
                        pre.lemma_at(j);
                    } else {
                        pre.lemma_at(j + 1);
                    }
                }
                assert(self.items() =~= pre.items().remove(id));
                assert(self.capacities() =~= pre.capacities().remove(id));
            }
        } else {
            proof {
                assert(self.items() =~= old(self).items().remove(id));
                assert(self.capacities() =~= old(self).capacities().remove(id));
            }
        }
    }

    /// Pop from any producer: the oldest message of some producer that has one.
    pub fn pop_any(&mut self) -> (r: Option<T>)
        requires
            old(self).wf(),
        ensures
            final(self).wf(),
            final(self).default_capacity() == old(self).default_capacity(),
            final(self).capacities() == old(self).capacities(),
            match r {
                None => final(self).items() == old(self).items() && forall|id: Uuid|
                    #[trigger] old(self).items().contains_key(id) ==> old(self).items()[id].len() == 0,
                Some(x) => exists|id: Uuid|
                    #![trigger old(self).items()[id]]
                    old(self).items().contains_key(id) && old(self).items()[id].len() > 0 && x == old(self).items()[id][0] && final(self).items() == old(self).items().insert(
                        id,
                        old(self).items()[id].drop_first(),
                    ),
            },
    {
        let mut i: usize = 0;
        while i < self.queues.len()
            invariant
                self.wf(),
                *self == *old(self),
                i <= self.queues@.len(),
                forall|j: int| 0 <= j < i ==> (#[trigger] self.queues@[j]).1@.len() == 0,
            decreases self.queues@.len() - i,
        {
            if !self.queues[i].1.is_empty() {
                let pre = Ghost(*self);
                proof {
                    self.lemma_at(i as int);
                }
                let popped = self.pop_at(i, pre);
                return popped;
            }
            i = i + 1;
        }
        proof {
            assert forall|id: Uuid| #[trigger] self.items().contains_key(id) implies self.items()[id].len()
                == 0 by {
                let j = self.index_of(id);
                self.lemma_at(j);
            }
        }
        None
    }

    /// Pops the queue at index `i`.
    fn pop_at(&mut self, i: usize, pre: Ghost<Self>) -> (r: Option<T>)
        requires
            old(self).wf(),
            *old(self) == pre@,
            i < old(self).queues@.len(),
        ensures
            final(self).wf(),
            final(self).default_capacity() == old(self).default_capacity(),
            final(self).capacities() == old(self).capacities(),
            ({
                let id = old(self).queues@[i as int].0;
                let q = old(self).items()[id];
                &&& old(self).items().contains_key(id)
                &&& q.len() == 0 ==> r is None && final(self).items() == old(self).items()
                &&& q.len() > 0 ==> r == Some(q[0]) && final(self).items() == old(self).items().insert(
                    id,
                    q.drop_first(),
                )
            }),
    {
        proof {
            self.lemma_at(i as int);
        }
        let id = self.queues[i].0;
        let mut entry = self.queues.remove(i);
        let r = entry.1.pop();
        self.queues.insert(i, entry);
        proof {
            assert(self.queues@ =~= pre@.queues@.update(i as int, (id, self.queues@[i as int].1)));
            self.lemma_update(pre@, i as int, self.queues@[i as int].1);
            if pre@.items()[id].len() == 0 {
                assert(self.items() =~= pre@.items());
            }
        }
        r
    }

    /// Pops the oldest message of producer `id`.
    pub fn pop_from(&mut self, id: Uuid) -> (r: Result<Option<T>, QueueError>)
        requires
            old(self).wf(),
        ensures
            final(self).wf(),
            final(self).default_capacity() == old(self).default_capacity(),
            final(self).capacities() == old(self).capacities(),
            !old(self).items().contains_key(id) ==> r == Err::<Option<T>, QueueError>(
                QueueError::QueueNotFound,
            ) && final(self).items() == old(self).items(),
            old(self).items().contains_key(id) ==> {
                let q = old(self).items()[id];
                &&& q.len() == 0 ==> r == Ok::<Option<T>, QueueError>(None) && final(self).items()
                    == old(self).items()
                &&& q.len() > 0 ==> r == Ok::<Option<T>, QueueError>(Some(q[0])) && final(self).items() == old(self).items().insert(id, q.drop_first())
            },
    {
        match self.find(id) {
            None => Err(QueueError::QueueNotFound),
            Some(i) => {
                let pre = Ghost(*self);
                Ok(self.pop_at(i, pre))
            },
        }
    }

    /// Empties the queue of producer `id`.
    pub fn clear(&mut self, id: Uuid) -> (r: Result<(), QueueError>)
        requires
            old(self).wf(),
        ensures
            final(self).wf(),
            final(self).default_capacity() == old(self).default_capacity(),
            final(self).capacities() == old(self).capacities(),
            !old(self).items().contains_key(id) ==> r == Err::<(), QueueError>(QueueError::QueueNotFound)
                && final(self).items() == old(self).items(),
            old(self).items().contains_key(id) ==> r == Ok::<(), QueueError>(()) && final(self).items()
                == old(self).items().insert(id, Seq::<T>::empty()),
    {
        match self.find(id) {
            None => Err(QueueError::QueueNotFound),
            Some(i) => {
                proof {
                    self.lemma_at(i as int);
                }
                let ghost pre = *self;
                let mut entry = self.queues.remove(i);
                entry.1.clear();
                self.queues.insert(i, entry);
                proof {
                    assert(self.queues@ =~= pre.queues@.update(i as int, (id, self.queues@[i as int].1)));
                    self.lemma_update(pre, i as int, self.queues@[i as int].1);
                }
                Ok(())
            },
        }
    }
}

} // verus!
