//! Open-addressing hash table with linear probing: the storage of a `MessageMap`.
use std::sync::Arc;
use vstd::arithmetic::div_mod::{lemma_mod_self_0, lemma_small_mod};
use vstd::prelude::*;

use crate::message_map::Key;
use crate::MessageId;

verus! {

/// Position `d` steps after `home` in a ring of `cap` slots.
pub open spec fn probe_pos(home: int, d: int, cap: int) -> int {
    if home + d < cap {
        home + d
    } else {
        home + d - cap
    }
}

/// Steps from the home slot of `key` to slot `j` in a ring of `cap` slots.
pub open spec fn probe_dist(key: u32, j: int, cap: int) -> int {
    let home = key as int % cap;
    if j >= home {
        j - home
    } else {
        j + cap - home
    }
}

/// Number of used slots (non-zero keys) among the first `n` of `keys`.
pub open spec fn used_count(keys: Seq<u32>, n: int) -> nat
    decreases n,
{
    if n <= 0 {
        0
    } else {
        used_count(keys, n - 1) + (if keys[n - 1] != 0 {
            1nat
        } else {
            0nat
        })
    }
}

pub struct Table<T> {
    pub keys: Vec<u32>,
    pub values: Vec<Option<(MessageId, Arc<T>)>>,
}

impl<T> Table<T> {
    pub open spec fn cap(&self) -> int {
        self.keys@.len() as int
    }

    /// The slot of `key`, for a key that is in the table.
    pub open spec fn slot_of(&self, key: u32) -> int {
        choose|j: int| 0 <= j < self.cap() && self.keys@[j] == key
    }

    pub open spec fn has_key(&self, key: u32) -> bool {
        key != 0 && exists|j: int| 0 <= j < self.cap() && self.keys@[j] == key
    }

    /// The entries of the table by key.
    pub open spec fn entries(&self) -> Map<u32, (MessageId, Arc<T>)> {
        Map::new(|k: u32| self.has_key(k), |k: u32| self.values@[self.slot_of(k)]->0)
    }

    /// Every used slot holds a value, no key is stored twice, and every slot on the way from a
    /// key's home slot to the key's slot is used.
    pub open spec fn wf(&self) -> bool {
        &&& self.values@.len() == self.keys@.len()
        &&& forall|j: int| 0 <= j < self.cap() ==> (#[trigger] self.keys@[j] != 0 <==> self.values@[j] is Some)
        &&& forall|i: int, j: int|
            0 <= i < self.cap() && 0 <= j < self.cap() && i != j && self.keys@[i] != 0 ==> #[trigger] self.keys@[i]
                != #[trigger] self.keys@[j]
        &&& forall|j: int, d: int|
            0 <= j < self.cap() && self.keys@[j] != 0 && 0 <= d < probe_dist(self.keys@[j], j, self.cap())
                ==> #[trigger] self.keys@[probe_pos(self.keys@[j] as int % self.cap(), d, self.cap())] != 0
    }

    /// The number of used slots.
    pub open spec fn used(&self) -> nat {
        used_count(self.keys@, self.cap())
    }

    /// There is one entry per used slot.
    pub proof fn lemma_entries_len(&self)
        requires
            self.wf(),
        ensures
            self.entries().dom().finite(),
            self.entries().len() == self.used(),
    {
        self.lemma_entries_prefix(self.cap());
        assert(self.entries().dom() =~= Set::new(
            |k: u32| k != 0 && exists|i: int| 0 <= i < self.cap() && self.keys@[i] == k,
        ));
    }

    /// The keys of the first `n` slots: one per used slot.
    proof fn lemma_entries_prefix(&self, n: int)
        requires
            self.wf(),
            0 <= n <= self.cap(),
        ensures
            ({
                let ks = Set::new(|k: u32| k != 0 && exists|i: int| 0 <= i < n && self.keys@[i] == k);
                ks.finite() && ks.len() == used_count(self.keys@, n)
            }),
        decreases n,
    {
        let ks = Set::new(|k: u32| k != 0 && exists|i: int| 0 <= i < n && self.keys@[i] == k);
        if n == 0 {
            assert(ks =~= Set::<u32>::empty());
        } else {
            self.lemma_entries_prefix(n - 1);
            let prev = Set::new(|k: u32| k != 0 && exists|i: int| 0 <= i < n - 1 && self.keys@[i] == k);
            let key = self.keys@[n - 1];
            if key != 0 {
                assert(!prev.contains(key)) by {
                    if prev.contains(key) {
                        let i = choose|i: int| 0 <= i < n - 1 && self.keys@[i] == key;
                        assert(self.keys@[i] == self.keys@[n - 1]);
                    }
                }
                assert(ks =~= prev.insert(key));
            } else {
                assert(ks =~= prev);
            }
        }
    }

    pub fn new(cap: usize) -> (t: Self)
        ensures
            t.wf(),
            t.cap() == cap,
            t.entries() == Map::<u32, (MessageId, Arc<T>)>::empty(),
            t.used() == 0,
    {
        let mut keys: Vec<u32> = Vec::with_capacity(cap);
        let mut values: Vec<Option<(MessageId, Arc<T>)>> = Vec::with_capacity(cap);
        let mut i: usize = 0;
        while i < cap
            invariant
                i <= cap,
                keys@.len() == i,
                values@.len() == i,
                forall|j: int| 0 <= j < i ==> keys@[j] == 0 && values@[j] is None,
            decreases cap - i,
        {
            keys.push(0);
            values.push(None);
            i = i + 1;
        }
        let t = Self { keys, values };
        proof {
            assert(t.entries() =~= Map::<u32, (MessageId, Arc<T>)>::empty());
            lemma_used_count_zero(t.keys@, cap as int);
        }
        t
    }

    /// Stores `val` under `key` and returns its slot; overwrites the old value, if any.
    ///
    /// Assumes that the table has room for the key: a free slot, or the key itself.
    ///
    /// The key takes its own slot when it is in the table, and otherwise the first free slot on
    /// its probe path: from its home slot `key % cap` on, one slot at a time, round the ring.
    /// No other slot changes.
    pub fn insert(&mut self, key: Key, val: (MessageId, Arc<T>)) -> (slot: usize)
        requires
            old(self).wf(),
            key.0 != 0,
            old(self).has_key(key.0) || old(self).used() < old(self).cap(),
        ensures
            final(self).wf(),
            final(self).cap() == old(self).cap(),
            final(self).entries() == old(self).entries().insert(key.0, val),
            slot < final(self).cap(),
            final(self).keys@ == old(self).keys@.update(slot as int, key.0),
            final(self).values@ == old(self).values@.update(slot as int, Some(val)),
            old(self).has_key(key.0) ==> old(self).keys@[slot as int] == key.0,
            !old(self).has_key(key.0) ==> old(self).keys@[slot as int] == 0 && forall|e: int|
                0 <= e < probe_dist(key.0, slot as int, old(self).cap()) ==> #[trigger] old(self).keys@[probe_pos(
                    key.0 as int % old(self).cap(),
                    e,
                    old(self).cap(),
                )] != 0,
            final(self).keys@[slot as int] == key.0,
            final(self).used() == old(self).used() + (if old(self).has_key(key.0) {
                0nat
            } else {
                1nat
            }),
    {
        let cap = self.keys.len();
        proof {
            if !self.has_key(key.0) {
                lemma_free_slot(self.keys@, cap as int);
            }
        }
        let ghost home = key.0 as int % cap as int;
        let mut i = key.0 as usize % cap;
        let mut d: usize = 0;
        while d <= cap
            invariant
                self.wf(),
                self == old(self),
                cap == self.cap(),
                cap > 0,
                d <= cap + 1,
                d <= cap ==> i == probe_pos(home, d as int, cap as int),
                0 <= home < cap,
                home == key.0 as int % cap as int,
                key.0 != 0,
                self.has_key(key.0) || exists|j: int| 0 <= j < cap && self.keys@[j] == 0,
                forall|e: int|
                    0 <= e < d ==> #[trigger] self.keys@[probe_pos(home, e, cap as int)] != 0
                        && self.keys@[probe_pos(home, e, cap as int)] != key.0,
            decreases cap + 1 - d,
        {
            let k = self.keys[i];
            proof {
                if d == cap {
                    assert(probe_pos(home, d as int, cap as int) == probe_pos(home, 0, cap as int));
                    assert(self.keys@[probe_pos(home, 0, cap as int)] != 0);
                }
            }
            if k == 0 {
                let ghost pre = *self;
                self.keys.set(i, key.0);
                self.values.set(i, Some(val));
                proof {
                    self.lemma_insert_fresh(pre, i as int, key.0, val, d as int);
                }
                return i;
            } else if k == key.0 {
                let ghost pre = *self;
                self.values.set(i, Some(val));
                proof {
                    assert(pre.slot_of(key.0) == i) by {
                        assert(pre.keys@[i as int] == key.0);
                    }
                    assert(self.keys@ == pre.keys@);
                    assert(pre.keys@.update(i as int, key.0) =~= pre.keys@);
                    assert forall|kk: u32| #[trigger] self.has_key(kk) implies self.slot_of(kk) == pre.slot_of(kk) by {
                    }
                    assert(self.entries() =~= pre.entries().insert(key.0, val));
                }
                return i;
            }
            proof {
                if d == cap {
                    self.lemma_probe_full(home, key.0);
                }
            }
            proof {
                lemma_ring_succ(i as int, cap as int);
            }
            i = (i + 1) % cap;
            d = d + 1;
        }
        proof {
            self.lemma_probe_full(home, key.0);
        }
        0
    }

    /// A probe that met neither `key` nor a free slot in `cap` steps met every slot.
    pub proof fn lemma_probe_full(&self, home: int, key: u32)
        requires
            self.wf(),
            self.cap() > 0,
            0 <= home < self.cap(),
            key != 0,
            home == key as int % self.cap(),
            forall|e: int|
                0 <= e < self.cap() ==> #[trigger] self.keys@[probe_pos(home, e, self.cap())] != 0
                    && self.keys@[probe_pos(home, e, self.cap())] != key,
        ensures
            !self.has_key(key),
            forall|j: int| 0 <= j < self.cap() ==> self.keys@[j] != 0,
    {
        assert forall|j: int| 0 <= j < self.cap() implies self.keys@[j] != 0 && self.keys@[j] != key by {
            let e = probe_dist(key, j, self.cap());
            assert(probe_pos(home, e, self.cap()) == j);
        }
    }

    /// A key is absent when a probe for it reaches a free slot first.
    pub proof fn lemma_absent_behind_free(&self, home: int, key: u32, d: int)
        requires
            self.wf(),
            key != 0,
            0 <= home < self.cap(),
            home == key as int % self.cap(),
            0 <= d < self.cap(),
            self.keys@[probe_pos(home, d, self.cap())] == 0,
            forall|e: int|
                0 <= e < d ==> #[trigger] self.keys@[probe_pos(home, e, self.cap())] != 0
                    && self.keys@[probe_pos(home, e, self.cap())] != key,
        ensures
            !self.has_key(key),
    {
        let cap = self.cap();
        assert forall|j: int| 0 <= j < cap implies self.keys@[j] != key by {
            if self.keys@[j] == key {
                let e = probe_dist(key, j, cap);
                assert(probe_pos(home, e, cap) == j);
                if e > d {
                    assert(self.keys@[probe_pos(self.keys@[j] as int % cap, d, cap)] != 0);
                }
            }
        }
    }

    /// Filling the free slot that a probe for `key` reached after `d` steps.
    proof fn lemma_insert_fresh(&self, pre: Self, i: int, key: u32, val: (MessageId, Arc<T>), d: int)
        requires
            pre.wf(),
            key != 0,
            0 <= i < pre.cap(),
            pre.keys@[i] == 0,
            0 <= d < pre.cap(),
            i == probe_pos(key as int % pre.cap(), d, pre.cap()),
            forall|e: int|
                0 <= e < d ==> #[trigger] pre.keys@[probe_pos(key as int % pre.cap(), e, pre.cap())] != 0
                    && pre.keys@[probe_pos(key as int % pre.cap(), e, pre.cap())] != key,
            self.keys@ == pre.keys@.update(i, key),
            self.values@ == pre.values@.update(i, Some(val)),
        ensures
            self.wf(),
            !pre.has_key(key),
            probe_dist(key, i, pre.cap()) == d,
            self.entries() == pre.entries().insert(key, val),
            used_count(self.keys@, self.cap()) == used_count(pre.keys@, pre.cap()) + 1,
    {
        let cap = pre.cap();
        let home = key as int % cap;
        // the key is not in the table: its slot would lie further than the free slot `i`
        assert forall|j: int| 0 <= j < cap implies pre.keys@[j] != key by {
            if pre.keys@[j] == key {
                let e = probe_dist(key, j, cap);
                assert(probe_pos(home, e, cap) == j);
                if e < d {
                } else if e > d {
                    assert(pre.keys@[probe_pos(pre.keys@[j] as int % cap, d, cap)] != 0);
                }
            }
        }
        assert(probe_dist(key, i, cap) == d);
        assert forall|a: int, b: int|
            0 <= a < cap && 0 <= b < cap && a != b && self.keys@[a] != 0 implies #[trigger] self.keys@[a]
            != #[trigger] self.keys@[b] by {
        }
        assert forall|j: int, e: int|
            0 <= j < cap && self.keys@[j] != 0 && 0 <= e < probe_dist(self.keys@[j], j, cap) implies #[trigger] self.keys@[probe_pos(
            self.keys@[j] as int % cap,
            e,
            cap,
        )] != 0 by {
            if j != i {
                assert(pre.keys@[probe_pos(pre.keys@[j] as int % cap, e, cap)] != 0);
            } else {
                assert(pre.keys@[probe_pos(home, e, cap)] != 0);
            }
        }
        assert forall|kk: u32| #[trigger] self.has_key(kk) && kk != key implies self.slot_of(kk)
            == pre.slot_of(kk) && pre.has_key(kk) by {
            let j = self.slot_of(kk);
            assert(pre.keys@[j] == kk);
        }
        assert(self.slot_of(key) == i) by {
            assert(self.keys@[i] == key);
        }
        assert forall|kk: u32| pre.has_key(kk) implies #[trigger] self.has_key(kk) by {
            let j = pre.slot_of(kk);
            assert(self.keys@[j] == kk);
        }
        assert(self.entries() =~= pre.entries().insert(key, val));
        lemma_used_count_update(pre.keys@, i, key, cap);
    }
}

/// The slot after `i` in a ring of `cap` slots.
pub proof fn lemma_ring_succ(i: int, cap: int)
    requires
        0 <= i < cap,
    ensures
        (i + 1) % cap == (if i + 1 < cap {
            i + 1
        } else {
            0
        }),
{
    if i + 1 < cap {
        lemma_small_mod((i + 1) as nat, cap as nat);
    } else {
        lemma_mod_self_0(cap);
    }
}

proof fn lemma_used_count_zero(keys: Seq<u32>, n: int)
    requires
        0 <= n <= keys.len(),
        forall|j: int| 0 <= j < n ==> keys[j] == 0,
    ensures
        used_count(keys, n) == 0,
    decreases n,
{
    if n > 0 {
        lemma_used_count_zero(keys, n - 1);
    }
}

/// Using a free slot adds one to the count.
proof fn lemma_used_count_update(keys: Seq<u32>, i: int, key: u32, n: int)
    requires
        0 <= i < n <= keys.len(),
        keys[i] == 0,
        key != 0,
    ensures
        used_count(keys.update(i, key), n) == used_count(keys, n) + 1,
    decreases n,
{
    if n - 1 > i {
        lemma_used_count_update(keys, i, key, n - 1);
    } else {
        lemma_used_count_same(keys, keys.update(i, key), i);
    }
}

/// The count over a prefix on which two key sequences agree is the same.
proof fn lemma_used_count_same(a: Seq<u32>, b: Seq<u32>, n: int)
    requires
        0 <= n <= a.len(),
        n <= b.len(),
        forall|j: int| 0 <= j < n ==> a[j] == b[j],
    ensures
        used_count(a, n) == used_count(b, n),
    decreases n,
{
    if n > 0 {
        lemma_used_count_same(a, b, n - 1);
    }
}

/// Fewer used slots than slots leave a free one.
pub proof fn lemma_free_slot(keys: Seq<u32>, n: int)
    requires
        0 <= n <= keys.len(),
        used_count(keys, n) < n,
    ensures
        exists|j: int| 0 <= j < n && keys[j] == 0,
    decreases n,
{
    if n > 0 {
        if keys[n - 1] != 0 {
            lemma_free_slot(keys, n - 1);
            let j = choose|j: int| 0 <= j < n - 1 && keys[j] == 0;
            assert(0 <= j < n && keys[j] == 0);
        }
    }
}

/// The count of used slots is at most the number of slots.
pub proof fn lemma_used_count_bound(keys: Seq<u32>, n: int)
    requires
        0 <= n <= keys.len(),
    ensures
        used_count(keys, n) <= n,
    decreases n,
{
    if n > 0 {
        lemma_used_count_bound(keys, n - 1);
    }
}

} // verus!
