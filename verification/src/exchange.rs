//! The queues of a server, by name: single producer, multi consumer queues of messages.
use vstd::prelude::*;

use crate::message::OwnedMessage;
use crate::queue_error::is_pow2;
use crate::spmcfifo::SpmcFifo;
use crate::MessageId;

verus! {

/// `n` is a power of two, for 64-bit values.
pub open spec fn is_pow2_u64(n: u64) -> bool {
    n >= 1 && n & ((n - 1) as u64) == 0
}

/// The smallest power of two that is at least `v`.
pub fn round_up_to_pow_2(v: u64) -> (r: u64)
    requires
        1 <= v <= 0x8000_0000_0000_0000,
    ensures
        is_pow2_u64(r),
        v <= r,
        r < 2 * v,
{
    let v0 = v;
    let mut v = v - 1;
    v = v | (v >> 1);
    v = v | (v >> 2);
    v = v | (v >> 4);
    v = v | (v >> 8);
    v = v | (v >> 16);
    v = v | (v >> 32);
    assert(v < 0xffff_ffff_ffff_ffffu64 && (v + 1) as u64 >= v0 && ((v + 1) as u64) < 2 * v0 && ((
    v + 1) as u64) & (v as u64) == 0u64) by (bit_vector)
        requires
            1u64 <= v0 <= 0x8000_0000_0000_0000u64,
            v == ({
                let a = (v0 - 1) as u64;
                let b = a | (a >> 1u64);
                let c = b | (b >> 2u64);
                let d = c | (c >> 4u64);
                let e = d | (d >> 8u64);
                let f = e | (e >> 16u64);
                f | (f >> 32u64)
            }),
    ;
    v + 1
}

/// The state of a queue.
pub struct QueueState {
    /// The id that the next pushed message gets.
    pub next_id: u64,
    /// The messages in the queue, the oldest first.
    pub items: Seq<OwnedMessage>,
    /// The most messages the queue holds.
    pub capacity: nat,
    pub has_producer: bool,
    /// Number of connected, active clients.
    pub clients: u64,
    /// Responses to messages, by message id, in the order they came in.
    pub responses: Seq<(MessageId, Seq<u8>)>,
}

/// The state of a queue that was just made.
pub open spec fn new_queue_state(capacity: nat) -> QueueState {
    QueueState {
        next_id: 0,
        items: Seq::empty(),
        capacity,
        has_producer: false,
        clients: 0,
        responses: Seq::empty(),
    }
}

/// No message id has two responses.
pub open spec fn responses_unique(r: Seq<(MessageId, Seq<u8>)>) -> bool {
    forall|i: int, j: int| 0 <= i < r.len() && 0 <= j < r.len() && i != j ==> #[trigger] r[i].0 != #[trigger] r[j].0
}

/// Single producer - multi consumer queue.
pub struct SpmcQueue {
    pub next_id: MessageId,
    pub queue: SpmcFifo<OwnedMessage>,
    pub has_producer: bool,
    /// number of connected, active clients
    pub clients: u64,
    pub name: String,
    pub responses: Vec<(MessageId, Vec<u8>)>,
}

impl SpmcQueue {
    pub open spec fn wf(&self) -> bool {
        &&& self.queue.wf()
        &&& responses_unique(self.state().responses)
    }

    pub open spec fn state(&self) -> QueueState {
        QueueState {
            next_id: self.next_id.0,
            items: self.queue@,
            capacity: self.queue.capacity(),
            has_producer: self.has_producer,
            clients: self.clients,
            responses: Seq::new(
                self.responses@.len(),
                |i: int| (self.responses@[i].0, self.responses@[i].1@),
            ),
        }
    }

    /// A queue named `name` for `size - 1` messages, the size rounded up to a power of two.
    pub fn new(size: u64, name: String) -> (q: Self)
        requires
            1 <= size <= isize::MAX,
        ensures
            q.wf(),
            q.name == name,
            q.state() == new_queue_state(q.state().capacity),
            is_pow2_u64((q.state().capacity + 1) as u64),
            size <= q.state().capacity + 1 < 2 * size,
    {
        let mut size = size;
        if (size & (size - 1)) != 0 {
            size = round_up_to_pow_2(size);
        }
        let ghost rounded = size;
        let u = size as usize;
        assert(u & ((u - 1) as usize) == 0usize) by (bit_vector)
            requires
                u as u64 == size,
                size >= 1u64,
                size & ((size - 1) as u64) == 0u64,
        ;
        let queue = SpmcFifo::new(u).expect("Failed to create the internal queue");
        let q = Self {
            next_id: MessageId(0),
            queue,
            has_producer: false,
            clients: 0,
            responses: Vec::new(),
            name,
        };
        assert(q.state().responses =~= Seq::empty());
        assert(q.state() =~= new_queue_state(q.state().capacity));
        q
    }
}

/// The queues of the server by name.
pub struct SpmcExchange {
    pub queues: Vec<SpmcQueue>,
}

impl View for SpmcExchange {
    type V = Map<Seq<char>, QueueState>;

    closed spec fn view(&self) -> Map<Seq<char>, QueueState> {
        Map::new(|n: Seq<char>| self.has_name(n), |n: Seq<char>| self.queues@[self.index_of(n)].state())
    }
}

impl SpmcExchange {
    pub closed spec fn has_name(&self, n: Seq<char>) -> bool {
        exists|i: int| 0 <= i < self.queues@.len() && self.queues@[i].name@ == n
    }

    pub closed spec fn index_of(&self, n: Seq<char>) -> int {
        choose|i: int| 0 <= i < self.queues@.len() && self.queues@[i].name@ == n
    }

    /// Every queue is well formed and no two queues have the same name.
    pub closed spec fn wf(&self) -> bool {
        &&& forall|i: int| 0 <= i < self.queues@.len() ==> (#[trigger] self.queues@[i]).wf()
        &&& forall|i: int, j: int|
            0 <= i < self.queues@.len() && 0 <= j < self.queues@.len() && i != j
                ==> #[trigger] self.queues@[i].name@ != #[trigger] self.queues@[j].name@
    }

    /// The queue at index `i` is the one that its name maps to.
    pub proof fn lemma_state_at(&self, i: int)
        requires
            self.wf(),
            0 <= i < self.queues@.len(),
        ensures
            self@.contains_key(self.queues@[i].name@),
            self.index_of(self.queues@[i].name@) == i,
            self@[self.queues@[i].name@] == self.queues@[i].state(),
            self.queues@[i].wf(),
    {
        assert(self.has_name(self.queues@[i].name@));
    }

    /// An exchange without queues.
    pub fn new() -> (e: Self)
        ensures
            e.wf(),
            e@ == Map::<Seq<char>, QueueState>::empty(),
    {
        let e = SpmcExchange { queues: Vec::new() };
        assert(e@ =~= Map::<Seq<char>, QueueState>::empty());
        e
    }

    /// Whether a queue is named `name`.
    pub fn contains_key(&self, name: &String) -> (b: bool)
        requires
            self.wf(),
        ensures
            b == self@.contains_key(name@),
    {
        self.find(name).is_some()
    }

    /// The index of the queue named `name`, if any.
    pub fn find(&self, name: &String) -> (r: Option<usize>)
        requires
            self.wf(),
        ensures
            match r {
                Some(i) => i < self.queues@.len() && self.queues@[i as int].name@ == name@
                    && self@.contains_key(name@) && self.index_of(name@) == i,
                None => !self@.contains_key(name@),
            },
    {
        let mut i: usize = 0;
        while i < self.queues.len()
            invariant
                self.wf(),
                i <= self.queues@.len(),
                forall|j: int| 0 <= j < i ==> self.queues@[j].name@ != name@,
            decreases self.queues@.len() - i,
        {
            if self.queues[i].name == *name {
                proof {
                    self.lemma_state_at(i as int);
                }
                return Some(i);
            }
            i = i + 1;
        }
        None
    }

    /// Brings back at index `i` the queue that `take` took out of `pre`, changed into `q`.
    pub(crate) fn restore(&mut self, i: usize, q: SpmcQueue, pre: Ghost<SpmcExchange>)
        requires
            pre@.wf(),
            i < pre@.queues@.len(),
            old(self).queues@ == pre@.queues@.remove(i as int),
            q.wf(),
            q.name@ == pre@.queues@[i as int].name@,
        ensures
            final(self).wf(),
            final(self)@ == pre@@.insert(q.name@, q.state()),
            final(self).queues@ == pre@.queues@.update(i as int, q),
    {
        let ghost n = q.name@;
        let ghost st = q.state();
        let ghost p = pre@;
        self.queues.insert(i, q);
        proof {
            assert(self.queues@ =~= p.queues@.update(i as int, q));
            assert forall|m: Seq<char>| #[trigger] self.has_name(m) <==> p.has_name(m) by {
                if self.has_name(m) {
                    let j = self.index_of(m);
                    assert(p.queues@[j].name@ == m);
                }
                if p.has_name(m) {
                    let j = p.index_of(m);
                    assert(self.queues@[j].name@ == m);
                }
            }
            assert forall|m: Seq<char>| #[trigger] self.has_name(m) && m != n implies self.index_of(m)
                == p.index_of(m) by {
                let j = self.index_of(m);
                let k = p.index_of(m);
                assert(self.queues@[k].name@ == m);
            }
            self.lemma_state_at(i as int);
            assert(self@ =~= p@.insert(n, st));
        }
    }

    /// Adds `q`, whose name no queue has yet; returns its index.
    pub(crate) fn add(&mut self, q: SpmcQueue) -> (i: usize)
        requires
            old(self).wf(),
            q.wf(),
            !old(self)@.contains_key(q.name@),
        ensures
            final(self).wf(),
            final(self)@ == old(self)@.insert(q.name@, q.state()),
            i < final(self).queues@.len(),
            final(self).queues@[i as int] == q,
    {
        let ghost n = q.name@;
        let ghost st = q.state();
        let i = self.queues.len();
        self.queues.push(q);
        proof {
            assert forall|j: int| 0 <= j < old(self).queues@.len() implies old(self).queues@[j].name@ != n by {
                if old(self).queues@[j].name@ == n {
                    assert(old(self).has_name(n));
                }
            }
            assert forall|m: Seq<char>| #[trigger] self.has_name(m) && m != n implies old(self).has_name(m)
                && self.index_of(m) == old(self).index_of(m) by {
                let j = self.index_of(m);
                assert(old(self).queues@[j].name@ == m);
                let k = old(self).index_of(m);
                assert(self.queues@[k].name@ == m);
            }
            assert forall|m: Seq<char>| #[trigger] old(self).has_name(m) implies self.has_name(m) by {
                let k = old(self).index_of(m);
                assert(self.queues@[k].name@ == m);
            }
            self.lemma_state_at(i as int);
            assert(self@ =~= old(self)@.insert(n, st));
        }
        i
    }

    /// Takes the queue at index `i` out of the exchange, for a change (`restore` brings it back)
    /// or for good.
    pub(crate) fn take(&mut self, i: usize) -> (q: SpmcQueue)
        requires
            old(self).wf(),
            i < old(self).queues@.len(),
        ensures
            q == old(self).queues@[i as int],
            q.wf(),
            final(self).queues@ == old(self).queues@.remove(i as int),
            final(self).wf(),
            final(self)@ == old(self)@.remove(q.name@),
            old(self)@.contains_key(q.name@),
            old(self)@[q.name@] == q.state(),
    {
        proof {
            self.lemma_state_at(i as int);
        }
        let ghost n = self.queues@[i as int].name@;
        let q = self.queues.remove(i);
        proof {
            assert forall|m: Seq<char>| #[trigger] self.has_name(m) <==> (old(self).has_name(m) && m != n) by {
                if self.has_name(m) {
                    let j = self.index_of(m);
                    if j < i {
                        assert(old(self).queues@[j].name@ == m);
                    } else {
                        assert(old(self).queues@[j + 1].name@ == m);
                    }
                }
                if old(self).has_name(m) && m != n {
                    let k = old(self).index_of(m);
                    if k < i {
                        assert(self.queues@[k].name@ == m);
                    } else {
                        assert(self.queues@[k - 1].name@ == m);
                    }
                }
            }
            assert forall|m: Seq<char>| #[trigger] self.has_name(m) implies self.queues@[self.index_of(m)].state()
                == old(self).queues@[old(self).index_of(m)].state() by {
                let j = self.index_of(m);
                if j < i {
                    old(self).lemma_state_at(j);
                } else {
                    old(self).lemma_state_at(j + 1);
                }
            }
            assert(self@ =~= old(self)@.remove(n));
        }
        q
    }
}

} // verus!
