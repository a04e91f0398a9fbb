//! Map from message ids to shared values: an open-addressing hash table keyed by a 32-bit
//! hash of the id, grown by half whenever an insert would fill more than 70% of its slots.
use std::sync::Arc;
use vstd::arithmetic::div_mod::{lemma_mod_mod, lemma_mod_multiples_vanish, lemma_mul_mod_noop_left, lemma_small_mod};
use vstd::prelude::*;

use crate::table::{lemma_used_count_bound, used_count, Table};
use crate::MessageId;

verus! {

/// One round of the key mixer on a value below 2^32 (or, for the first round of a 64-bit id,
/// any value): xor-shift, then multiply modulo 2^32.
pub open spec fn mix(x: u64) -> u64 {
    ((((x >> 16u64) ^ x) as int * 0x45d0f3b) % 0x1_0000_0000) as u64
}

/// The key of a 64-bit value: two mixing rounds and a final xor-shift; zero counts as one.
pub open spec fn key_of(k: u64) -> u32 {
    let a = mix(
        if k >= 1 {
            k
        } else {
            1
        },
    );
    let b = mix(a);
    ((b >> 16u64) ^ b) as u32
}

/// The key of a message id.
pub open spec fn id_key(id: MessageId) -> u32 {
    key_of(id.0)
}

/// Hashed key of a message; zero marks a free slot of the table.
#[derive(Debug, Clone, Copy, Eq, PartialEq, Structural, Ord, PartialOrd)]
pub struct Key(pub u32);

impl Default for Key {
    fn default() -> (k: Self)
        ensures
            k.0 == 0,
    {
        Key(0)
    }
}

const MASK: u64 = 0xffff_ffff;

impl Key {
    pub fn from_u32(key: u32) -> (k: Self)
        ensures
            k.0 == key_of(key as u64),
            k.0 != 0,
    {
        let mut key: u64 = if key >= 1 {
            key as u64
        } else {
            1
        };  // ensure non-zero key
        proof {
            lemma_mix_nonzero(key);
        }
        key = mix_round(key);
        proof {
            lemma_mix_nonzero(key);
        }
        key = mix_round(key);
        let r = ((key >> 16) ^ key) & MASK;
        proof {
            let b = key;
            assert(((b >> 16u64) ^ b) & 0xffff_ffffu64 == ((b >> 16u64) ^ b) && ((b >> 16u64) ^ b)
                != 0 && ((b >> 16u64) ^ b) < 0x1_0000_0000u64) by (bit_vector)
                requires
                    0 < b < 0x1_0000_0000u64,
            ;
        }
        Self(r as u32)
    }

    pub fn from_u64(key: u64) -> (k: Self)
        ensures
            k.0 == key_of(key),
    {
        let mut key: u64 = if key >= 1 {
            key
        } else {
            1
        };  // ensure non-zero key
        key = mix_round(key);
        key = mix_round(key);
        let r = ((key >> 16) ^ key) & MASK;
        proof {
            let b = key;
            assert(((b >> 16u64) ^ b) & 0xffff_ffffu64 == ((b >> 16u64) ^ b) && ((b >> 16u64) ^ b)
                < 0x1_0000_0000u64) by (bit_vector)
                requires
                    b < 0x1_0000_0000u64,
            ;
        }
        Self(r as u32)
    }
}

/// One mixing round: xor-shift, multiply (wrapping) and keep the low 32 bits.
fn mix_round(key: u64) -> (r: u64)
    ensures
        r == mix(key),
        r < 0x1_0000_0000,
{
    let y = (key >> 16) ^ key;
    let p = y.wrapping_mul(0x45d0f3b);
    let r = p & MASK;
    proof {
        assert(p & 0xffff_ffffu64 == p % 0x1_0000_0000u64) by (bit_vector);
        assert(p == (y as int * 0x45d0f3b) % 0x1_0000_0000_0000_0000);
        lemma_mod_mod(y as int * 0x45d0f3b, 0x1_0000_0000, 0x1_0000_0000);
    }
    r
}

/// A round of the mixer maps a non-zero value below 2^32 to a non-zero value below 2^32.
proof fn lemma_mix_nonzero(x: u64)
    requires
        0 < x < 0x1_0000_0000,
    ensures
        0 < mix(x) < 0x1_0000_0000,
{
    let y = (x >> 16u64) ^ x;
    assert(0 < y < 0x1_0000_0000u64) by (bit_vector)
        requires
            0 < x < 0x1_0000_0000u64,
            y == (x >> 16u64) ^ x,
    ;
    let p = (y * 0x45d0f3bu64) as u64;
    assert(p == y * 0x45d0f3b);
    assert(p % 0x1_0000_0000u64 != 0) by (bit_vector)
        requires
            0 < y < 0x1_0000_0000u64,
            p == y * 0x45d0f3bu64,
    ;
}

/// The key of every id below 2^32 is non-zero.
pub proof fn lemma_small_id_key_nonzero(id: MessageId)
    requires
        id.0 < 0x1_0000_0000,
    ensures
        id_key(id) != 0,
{
    let k: u64 = if id.0 >= 1 {
        id.0
    } else {
        1
    };
    lemma_mix_nonzero(k);
    let a = mix(k);
    lemma_mix_nonzero(a);
    let b = mix(a);
    assert(((b >> 16u64) ^ b) != 0 && ((b >> 16u64) ^ b) < 0x1_0000_0000u64) by (bit_vector)
        requires
            0 < b < 0x1_0000_0000u64,
    ;
}

/// A mixing round undone, for a value below 2^32: multiply by the inverse of the multiplier
/// modulo 2^32, then undo the xor-shift, which is its own inverse below 2^32.
pub open spec fn unmix(z: u64) -> u64 {
    let y = ((z as int * 0x23bcf1f3) % 0x1_0000_0000) as u64;
    (y >> 16u64) ^ y
}

/// The value below 2^32 (and not zero) whose key is `key`.
pub open spec fn unkey(key: u32) -> u64 {
    unmix(unmix((key as u64 >> 16u64) ^ key as u64))
}

/// The xor-shift by 16 bits maps values below 2^32 to values below 2^32, and undoes itself.
proof fn lemma_xorshift(x: u64)
    requires
        x < 0x1_0000_0000,
    ensures
        (x >> 16u64) ^ x < 0x1_0000_0000,
        (((x >> 16u64) ^ x) >> 16u64) ^ ((x >> 16u64) ^ x) == x,
{
    assert((x >> 16u64) ^ x < 0x1_0000_0000u64 && (((x >> 16u64) ^ x) >> 16u64) ^ ((x >> 16u64) ^ x)
        == x) by (bit_vector)
        requires
            x < 0x1_0000_0000u64,
    ;
}

/// Multiplying by the mixer's multiplier modulo 2^32 is undone by its inverse.
proof fn lemma_unmultiply(y: int)
    requires
        0 <= y < 0x1_0000_0000,
    ensures
        ((y * 0x45d0f3b) % 0x1_0000_0000) * 0x23bcf1f3 % 0x1_0000_0000 == y,
{
    let m = 0x1_0000_0000int;
    lemma_mul_mod_noop_left(y * 0x45d0f3b, 0x23bcf1f3, m);
    assert((y * 0x45d0f3b) * 0x23bcf1f3 == 0x1_0000_0000 * (y * 10219916) + y) by (nonlinear_arith);
    lemma_mod_multiples_vanish(y * 10219916, y, m);
    lemma_small_mod(y as nat, m as nat);
}

/// A mixing round is undone by `unmix`, below 2^32.
proof fn lemma_unmix_mix(x: u64)
    requires
        x < 0x1_0000_0000,
    ensures
        mix(x) < 0x1_0000_0000,
        unmix(mix(x)) == x,
{
    let y = (x >> 16u64) ^ x;
    lemma_xorshift(x);
    lemma_unmultiply(y as int);
    assert((mix(x) as int * 0x23bcf1f3) % 0x1_0000_0000 == y);
}

/// The key of a value `k` with `1 <= k < 2^32` gives `k` back.
proof fn lemma_unkey_key(k: u64)
    requires
        1 <= k < 0x1_0000_0000,
    ensures
        unkey(key_of(k)) == k,
{
    lemma_unmix_mix(k);
    let a = mix(k);
    lemma_unmix_mix(a);
    let b = mix(a);
    lemma_xorshift(b);
    let f = (b >> 16u64) ^ b;
    assert(f as u32 as u64 == f);
}

/// Two 32-bit values get the same key exactly when they are equal, zero counting as one: each
/// step of the mixer is one-to-one below 2^32.
pub proof fn law_key_injective(a: u32, b: u32)
    ensures
        key_of(a as u64) == key_of(b as u64) <==> (if a >= 1 {
            a
        } else {
            1
        }) == (if b >= 1 {
            b
        } else {
            1
        }),
{
    let a1: u64 = if a >= 1 {
        a as u64
    } else {
        1
    };
    let b1: u64 = if b >= 1 {
        b as u64
    } else {
        1
    };
    lemma_unkey_key(a1);
    lemma_unkey_key(b1);
    assert(key_of(a as u64) == key_of(a1));
    assert(key_of(b as u64) == key_of(b1));
}

/// Ids from 1 to `u32::MAX` have distinct keys, none of them zero.
pub proof fn law_id_key_injective(a: MessageId, b: MessageId)
    requires
        1 <= a.0 < 0x1_0000_0000,
        1 <= b.0 < 0x1_0000_0000,
    ensures
        id_key(a) != 0,
        id_key(a) == id_key(b) <==> a == b,
{
    lemma_small_id_key_nonzero(a);
    law_key_injective(a.0 as u32, b.0 as u32);
    assert(a.0 as u32 as u64 == a.0);
    assert(b.0 as u32 as u64 == b.0);
}

/// A second handle on a shared value.
#[verifier::external_body]
fn share<T>(a: &Arc<T>) -> (r: Arc<T>)
    ensures
        r == *a,
{
    Arc::clone(a)
}

/// Map from message ids to shared values. Each id is stored under its key (`id_key`); ids with
/// the same key share an entry, the last one inserted holding it.
pub struct MessageMap<T> {
    /// Number of inserts so far.
    count: usize,
    table: Table<T>,
}

/// The most inserts a map takes: beyond that its table would not fit in memory.
pub open spec fn max_inserts() -> int {
    usize::MAX as int / 64
}

impl<T> View for MessageMap<T> {
    type V = Map<u32, (MessageId, Arc<T>)>;

    /// The entries by key.
    closed spec fn view(&self) -> Map<u32, (MessageId, Arc<T>)> {
        self.table.entries()
    }
}

impl<T> MessageMap<T> {
    /// Number of slots of the table.
    pub closed spec fn slots(&self) -> nat {
        self.table.cap() as nat
    }

    /// The number of inserts so far.
    pub closed spec fn spec_len(&self) -> nat {
        self.count as nat
    }

    /// The table has a free slot, keeps at most 70% of its slots per insert, and fits in memory.
    pub closed spec fn wf(&self) -> bool {
        &&& self.table.wf()
        &&& 16 <= self.table.cap() <= usize::MAX / 16
        &&& self.table.used() <= self.count
        &&& 10 * self.count <= 7 * self.table.cap()
    }

    pub fn with_capacity(capacity: usize) -> (m: Self)
        requires
            capacity <= usize::MAX / 16,
        ensures
            m.wf(),
            m@ == Map::<u32, (MessageId, Arc<T>)>::empty(),
            m.spec_len() == 0,
            m.slots() == (if capacity >= 16 {
                capacity
            } else {
                16
            }),
    {
        let mut res = Self { count: 0, table: Table::new(0) };
        proof {
            assert(used_count(res.table.keys@, 0) == 0);
        }
        let cap = if capacity >= 16 {
            capacity
        } else {
            16
        };
        res.adjust_size(cap);
        res
    }

    /// The value of `id`, or of the id last inserted with the same key.
    pub fn get(&self, id: MessageId) -> (r: Option<Arc<T>>)
        requires
            self.wf(),
            id_key(id) != 0,
        ensures
            match r {
                Some(v) => self@.contains_key(id_key(id)) && v == self@[id_key(id)].1,
                None => !self@.contains_key(id_key(id)),
            },
    {
        let key = Key::from_u64(id.0);
        let cap = self.table.keys.len();
        let ghost home = key.0 as int % cap as int;
        proof {
            lemma_used_count_bound(self.table.keys@, cap as int);
            crate::table::lemma_free_slot(self.table.keys@, cap as int);
        }
        let mut ind = key.0 as usize % cap;
        let mut d: usize = 0;
        loop
            invariant
                self.wf(),
                cap == self.table.cap(),
                key.0 == id_key(id),
                key.0 != 0,
                0 <= home < cap,
                home == key.0 as int % cap as int,
                d < cap,
                ind == crate::table::probe_pos(home, d as int, cap as int),
                exists|j: int| 0 <= j < cap && self.table.keys@[j] == 0,
                forall|e: int|
                    0 <= e < d ==> #[trigger] self.table.keys@[crate::table::probe_pos(home, e, cap as int)]
                        != 0 && self.table.keys@[crate::table::probe_pos(home, e, cap as int)] != key.0,
            decreases cap - d,
        {
            let k = self.table.keys[ind];
            if k == key.0 {
                proof {
                    assert(self.table.keys@[ind as int] == key.0);
                    assert(self.table.has_key(key.0));
                    assert(self.table.slot_of(key.0) == ind);
                }
                let v = self.table.values[ind].as_ref().unwrap();
                return Some(share(&v.1));
            } else if k == 0 {
                proof {
                    self.table.lemma_absent_behind_free(home, key.0, d as int);
                }
                return None;
            }
            proof {
                if d + 1 == cap {
                    self.table.lemma_probe_full(home, key.0);
                }
            }
            proof {
                crate::table::lemma_ring_succ(ind as int, cap as int);
            }
            ind = (ind + 1) % cap;
            d = d + 1;
        }
    }

    /// The map grows before an insert would fill more than 70% of its slots.
    pub proof fn law_load_factor(&self)
        requires
            self.wf(),
        ensures
            10 * self.spec_len() <= 7 * self.slots(),
            self@.len() <= self.spec_len() < self.slots(),
    {
        lemma_used_count_bound(self.table.keys@, self.table.cap());
        self.table.lemma_entries_len();
    }

    /// The number of inserts so far.
    pub fn len(&self) -> (n: usize)
        ensures
            n == self.spec_len(),
    {
        self.count
    }

    /// Stores `value` under the key of `id`, replacing what the key held.
    pub fn insert(&mut self, id: MessageId, value: T)
        requires
            old(self).wf(),
            id_key(id) != 0,
            old(self).spec_len() < max_inserts(),
        ensures
            final(self).wf(),
            final(self)@ == old(self)@.insert(id_key(id), (id, Arc::new(value))),
            final(self).spec_len() == old(self).spec_len() + 1,
    {
        let count = self.count;
        let cap = self.table.keys.len();
        // more than 70% of the slots would be used: grow first
        if 10 * (count + 1) > 7 * cap {
            self.grow(cap);
        }
        let key = Key::from_u64(id.0);
        proof {
            lemma_used_count_bound(self.table.keys@, self.table.cap());
        }
        self.table.insert(key, (id, Arc::new(value)));
        self.count = count + 1;
    }

    fn grow(&mut self, current_cap: usize)
        requires
            old(self).wf(),
            current_cap == old(self).table.cap(),
            10 * (old(self).count + 1) > 7 * current_cap,
            old(self).count < max_inserts(),
        ensures
            final(self).table.wf(),
            final(self)@ == old(self)@,
            final(self).count == old(self).count,
            final(self).table.used() == old(self).table.used(),
            10 * (final(self).count + 1) <= 7 * final(self).table.cap(),
            16 <= final(self).table.cap() <= usize::MAX / 16,
    {
        let base = if current_cap >= 3 {
            current_cap
        } else {
            3
        };
        let new_cap = base * 3 / 2;
        self.adjust_size(new_cap);
    }

    /// Moves the entries into a table of `capacity` slots, unless the table has that many already.
    fn adjust_size(&mut self, capacity: usize)
        requires
            old(self).table.wf(),
            old(self).table.used() <= old(self).count,
            capacity <= usize::MAX / 16,
        ensures
            final(self).table.wf(),
            final(self)@ == old(self)@,
            final(self).count == old(self).count,
            final(self).table.used() == old(self).table.used(),
            final(self).table.cap() == (if old(self).table.cap() >= capacity {
                old(self).table.cap()
            } else {
                capacity as int
            }),
    {
        let cap = self.table.keys.len();
        if cap >= capacity {
            return ;
        }
        // allocate new buffers
        let mut new_kvs: Table<T> = Table::new(capacity);
        proof {
            assert forall|k: u32| !(#[trigger] new_kvs.entries().contains_key(k)) by {
                assert(!Map::<u32, (MessageId, Arc<T>)>::empty().contains_key(k));
            }
        }
        // copy current
        let mut j: usize = 0;
        while j < cap
            invariant
                self.table.wf(),
                self.table == old(self).table,
                cap == self.table.cap(),
                cap < capacity,
                j <= cap,
                new_kvs.wf(),
                new_kvs.cap() == capacity,
                new_kvs.used() == used_count(self.table.keys@, j as int),
                forall|k: u32|
                    #[trigger] new_kvs.entries().contains_key(k) <==> (k != 0 && exists|i: int|
                        0 <= i < j && self.table.keys@[i] == k),
                forall|k: u32| #[trigger] new_kvs.entries().contains_key(k) ==> new_kvs.entries()[k] == self@[k],
            decreases cap - j,
        {
            let key = self.table.keys[j];
            if key != 0 {
                proof {
                    lemma_used_count_bound(self.table.keys@, j as int);
                    assert(!new_kvs.entries().contains_key(key)) by {
                        if new_kvs.entries().contains_key(key) {
                            let i = choose|i: int| 0 <= i < j && self.table.keys@[i] == key;
                            assert(self.table.keys@[i] == self.table.keys@[j as int]);
                        }
                    }
                    assert(!new_kvs.has_key(key));
                }
                let (id, val) = self.table.values[j].as_ref().unwrap();
                let ghost before = new_kvs;
                new_kvs.insert(Key(key), (*id, share(val)));
                proof {
                    assert(self.table.has_key(key));
                    assert(self.table.slot_of(key) == j);
                    assert forall|k: u32| #[trigger] new_kvs.entries().contains_key(k) <==> (k != 0
                        && exists|i: int| 0 <= i < j + 1 && self.table.keys@[i] == k) by {
                        if k == key {
                            assert(self.table.keys@[j as int] == k);
                        }
                        if k != key && k != 0 && (exists|i: int| 0 <= i < j + 1 && self.table.keys@[i] == k) {
                            let i = choose|i: int| 0 <= i < j + 1 && self.table.keys@[i] == k;
                            assert(i != j);
                        }
                    }
                }
            } else {
                proof {
                    assert forall|k: u32| #[trigger] new_kvs.entries().contains_key(k) <==> (k != 0
                        && exists|i: int| 0 <= i < j + 1 && self.table.keys@[i] == k) by {
                        if k != 0 && (exists|i: int| 0 <= i < j + 1 && self.table.keys@[i] == k) {
                            let i = choose|i: int| 0 <= i < j + 1 && self.table.keys@[i] == k;
                            assert(i != j);
                        }
                    }
                }
            }
            j = j + 1;
        }
        proof {
            assert forall|k: u32| #[trigger] new_kvs.entries().contains_key(k) <==> self@.contains_key(k) by {
                if self@.contains_key(k) {
                    let i = self.table.slot_of(k);
                    assert(self.table.keys@[i] == k);
                }
            }
            assert(new_kvs.entries() =~= self@);
        }
        // swap with the current
        self.table = new_kvs;
    }
}

/// The entries that the inserts `ins`, in this order, leave in an empty map.
pub open spec fn inserted<T>(ins: Seq<(MessageId, Arc<T>)>) -> Map<u32, (MessageId, Arc<T>)>
    decreases ins.len(),
{
    if ins.len() == 0 {
        Map::empty()
    } else {
        inserted(ins.drop_last()).insert(id_key(ins.last().0), ins.last())
    }
}

/// What a read gives back of writes, for ids from 1 to `u32::MAX`: after the inserts `ins` into
/// an empty map, the id `id` has an entry exactly when it was inserted, and the entry is its
/// last insert.
pub proof fn law_get_after_inserts<T>(ins: Seq<(MessageId, Arc<T>)>, id: MessageId)
    requires
        forall|i: int| 0 <= i < ins.len() ==> 1 <= (#[trigger] ins[i]).0.0 < 0x1_0000_0000,
        1 <= id.0 < 0x1_0000_0000,
    ensures
        inserted(ins).contains_key(id_key(id)) <==> exists|i: int| 0 <= i < ins.len() && (#[trigger] ins[i]).0 == id,
        forall|i: int|
            0 <= i < ins.len() && (#[trigger] ins[i]).0 == id && (forall|j: int| i < j < ins.len() ==> ins[j].0 != id)
                ==> inserted(ins)[id_key(id)] == ins[i],
    decreases ins.len(),
{
    if ins.len() > 0 {
        let rest = ins.drop_last();
        let last = ins.last();
        assert forall|i: int| 0 <= i < rest.len() implies 1 <= (#[trigger] rest[i]).0.0 < 0x1_0000_0000 by {
            assert(rest[i] == ins[i]);
        }
        law_get_after_inserts(rest, id);
        law_id_key_injective(last.0, id);
        if last.0 != id {
            assert((exists|i: int| 0 <= i < ins.len() && (#[trigger] ins[i]).0 == id) ==> exists|i: int|
                0 <= i < rest.len() && (#[trigger] rest[i]).0 == id) by {
                if exists|i: int| 0 <= i < ins.len() && (#[trigger] ins[i]).0 == id {
                    let i = choose|i: int| 0 <= i < ins.len() && (#[trigger] ins[i]).0 == id;
                    assert(rest[i] == ins[i]);
                }
            }
            assert((exists|i: int| 0 <= i < rest.len() && (#[trigger] rest[i]).0 == id) ==> exists|i: int|
                0 <= i < ins.len() && (#[trigger] ins[i]).0 == id) by {
                if exists|i: int| 0 <= i < rest.len() && (#[trigger] rest[i]).0 == id {
                    let i = choose|i: int| 0 <= i < rest.len() && (#[trigger] rest[i]).0 == id;
                    assert(rest[i] == ins[i]);
                }
            }
            assert forall|i: int|
                0 <= i < ins.len() && (#[trigger] ins[i]).0 == id && (forall|j: int| i < j < ins.len() ==> ins[j].0 != id)
                    implies inserted(ins)[id_key(id)] == ins[i] by {
                assert(i < rest.len());
                assert(rest[i] == ins[i]);
                assert forall|j: int| i < j < rest.len() implies rest[j].0 != id by {
                    assert(rest[j] == ins[j]);
                }
            }
        } else {
            assert(ins[ins.len() - 1].0 == id);
            assert forall|i: int|
                0 <= i < ins.len() && (#[trigger] ins[i]).0 == id && (forall|j: int| i < j < ins.len() ==> ins[j].0 != id)
                    implies inserted(ins)[id_key(id)] == ins[i] by {
                if i < ins.len() - 1 {
                    assert(ins[ins.len() - 1].0 == id);
                }
            }
        }
    }
}

/// What a read gives back of a write: right after `insert(id, v)`, `get(id)` gives `v`, and
/// every other key keeps its entry.
pub proof fn law_get_after_insert<T>(m: Map<u32, (MessageId, Arc<T>)>, id: MessageId, v: Arc<T>, k: u32)
    ensures
        m.insert(id_key(id), (id, v)).contains_key(id_key(id)),
        m.insert(id_key(id), (id, v))[id_key(id)].1 == v,
        k != id_key(id) ==> (m.insert(id_key(id), (id, v)).contains_key(k) == m.contains_key(k)),
        k != id_key(id) && m.contains_key(k) ==> m.insert(id_key(id), (id, v))[k] == m[k],
{
}

} // verus!
