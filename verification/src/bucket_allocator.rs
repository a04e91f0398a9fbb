//! Bump allocator for message payloads.
//!
//! An allocator is a chain of buckets. Each bucket is a byte buffer that hands
//! out its bytes from front to back (`head`) and counts the bytes that are not
//! given back yet (`bytes_out`); when every byte of a bucket is given back, the
//! bucket starts over from its beginning. A request that no bucket of the chain
//! can serve appends a new, larger bucket to the chain.
//!
//! The view of a bucket also holds the blocks that it handed out and that are not
//! given back yet (`live`): a block is given back once, and an allocation never
//! shares a byte with a live block.
//!
//! An allocation is named by the index of its bucket in the chain and the
//! offset of its first byte in that bucket's buffer; alignment is that of the
//! offset.
use vstd::prelude::*;

use crate::queue_error::{is_pow2, lemma_mask_is_mod};

verus! {

/// The state of one bucket of the chain.
pub struct BucketView {
    /// Length of the bucket's buffer.
    pub len: nat,
    /// Offset of the first byte not handed out yet.
    pub head: nat,
    /// Bytes of the buffer that are not counted as given back yet.
    pub bytes_out: nat,
    /// Whether the bytes behind `head` are counted as given back. The bucket then serves
    /// nothing until it starts over: those bytes would be counted back twice.
    pub tail_given: bool,
    /// The blocks handed out and not given back yet, as offset and size, oldest first.
    pub live: Seq<(nat, nat)>,
    /// The bytes of the buffer.
    pub data: Seq<u8>,
}

/// Where an allocation starts: the bucket's index in the chain and the offset in its buffer.
#[derive(Clone, Copy, Debug, PartialEq, Eq, Structural)]
pub struct Allocation {
    pub bucket: usize,
    pub offset: usize,
}

/// Bytes to skip from `offset` to the next multiple of `alignment`.
pub open spec fn align_diff(offset: int, alignment: int) -> int {
    if offset % alignment == 0 {
        0
    } else {
        alignment - offset % alignment
    }
}

/// The total size of the blocks `live`.
pub open spec fn live_sum(live: Seq<(nat, nat)>) -> nat
    decreases live.len(),
{
    if live.len() == 0 {
        0
    } else {
        live_sum(live.drop_last()) + live.last().1
    }
}

/// Two blocks, as offset and size, share no byte.
pub open spec fn disjoint(a: (nat, nat), b: (nat, nat)) -> bool {
    a.1 == 0 || b.1 == 0 || a.0 + a.1 <= b.0 || b.0 + b.1 <= a.0
}

/// The block `blk` shares no byte with any block of `live`.
pub open spec fn fresh_in(live: Seq<(nat, nat)>, blk: (nat, nat)) -> bool {
    forall|j: int| 0 <= j < live.len() ==> disjoint(#[trigger] live[j], blk)
}

/// What holds of every bucket: its head and buffer fit; the count of bytes out is the bytes
/// behind the head (unless counted as given back) and the live blocks; every live block lies in
/// the buffer, before the head unless it is empty; and no two live blocks share a byte.
pub open spec fn bucket_inv(b: BucketView) -> bool {
    &&& b.head <= b.len <= isize::MAX
    &&& b.bytes_out == (if b.tail_given {
        0
    } else {
        (b.len - b.head) as nat
    }) + live_sum(b.live)
    &&& forall|j: int|
        0 <= j < b.live.len() ==> (#[trigger] b.live[j]).0 + b.live[j].1 <= b.len && (b.live[j].1 > 0
            ==> b.live[j].0 + b.live[j].1 <= b.head)
    &&& forall|i: int, j: int|
        0 <= i < b.live.len() && 0 <= j < b.live.len() && i != j ==> disjoint(
            #[trigger] b.live[i],
            #[trigger] b.live[j],
        )
}

/// A bucket of `len` zero bytes, fresh from the system.
pub open spec fn fresh_bucket(len: nat) -> BucketView {
    BucketView {
        len,
        head: 0,
        bytes_out: len,
        tail_given: false,
        live: Seq::empty(),
        data: Seq::new(len, |i: int| 0u8),
    }
}

/// What a request for `size` bytes aligned to `alignment` does to one bucket: the offset that it
/// gets there, if the bucket serves it, and the bucket afterwards.
///
/// A bucket whose tail is counted as given back serves nothing. Otherwise it serves the
/// request behind `head` when it fits. When it does not, and the request is smaller than two
/// thirds of the buffer, the bytes behind `head` are counted as given back, on the assumption
/// that later requests will not fit there either; if no live block is left then, the bucket
/// starts over from its beginning, where the request is served.
pub open spec fn bucket_step(b: BucketView, size: nat, alignment: nat) -> (Option<nat>, BucketView) {
    let diff = align_diff(b.head as int, alignment as int);
    let off = (b.head + diff) as nat;
    if b.tail_given {
        (None, b)
    } else if off + size <= b.len {
        (
            Some(off),
            BucketView {
                head: off + size,
                bytes_out: (b.bytes_out - diff) as nat,
                live: b.live.push((off, size)),
                ..b
            },
        )
    } else if size < b.len * 2 / 3 {
        let remaining = (b.len - b.head) as nat;
        if b.bytes_out == remaining {
            (Some(0), BucketView { head: size, bytes_out: b.len, live: b.live.push((0, size)), ..b })
        } else {
            (None, BucketView { bytes_out: (b.bytes_out - remaining) as nat, tail_given: true, ..b })
        }
    } else {
        (None, b)
    }
}

/// Length of the bucket that is added behind a bucket of length `last_len` for a request of `size` bytes.
pub open spec fn grown_len(last_len: nat, size: nat) -> nat {
    (if last_len >= size {
        last_len
    } else {
        size
    }) * 3 / 2
}

/// What a request for `size` bytes aligned to `alignment` does to a chain of buckets: the
/// allocation that it gets and the chain afterwards. The buckets are tried in order; when none
/// serves it, a new bucket is appended, which serves it from its beginning.
pub open spec fn chain_alloc(c: Seq<BucketView>, size: nat, alignment: nat) -> (nat, nat, Seq<BucketView>)
    decreases c.len(),
{
    if c.len() == 0 {
        (0, 0, c)
    } else {
        let (o, b) = bucket_step(c[0], size, alignment);
        match o {
            Some(off) => (0, off, c.update(0, b)),
            None => if c.len() == 1 {
                let l = grown_len(b.len, size);
                (1, 0, seq![b, BucketView { head: size, live: seq![(0nat, size)], ..fresh_bucket(l) }])
            } else {
                let (k, off, rest) = chain_alloc(c.drop_first(), size, alignment);
                (k + 1, off, seq![b] + rest)
            },
        }
    }
}

/// The index of the live block `blk` of a bucket.
pub open spec fn live_index(live: Seq<(nat, nat)>, blk: (nat, nat)) -> int {
    choose|j: int| 0 <= j < live.len() && live[j] == blk
}

/// What giving back the live block of `size` bytes at `offset` does to a bucket: the block is
/// no longer live, and once every byte is given back the bucket starts over from its beginning.
pub open spec fn dealloc_step(b: BucketView, offset: nat, size: nat) -> BucketView {
    let live = b.live.remove(live_index(b.live, (offset, size)));
    if b.bytes_out == size {
        BucketView { head: 0, bytes_out: b.len, tail_given: false, live, ..b }
    } else {
        BucketView { bytes_out: (b.bytes_out - size) as nat, live, ..b }
    }
}

/// Adding a block adds its size.
proof fn lemma_live_sum_push(live: Seq<(nat, nat)>, blk: (nat, nat))
    ensures
        live_sum(live.push(blk)) == live_sum(live) + blk.1,
{
    assert(live.push(blk).drop_last() =~= live);
}

/// Removing a block takes its size away.
proof fn lemma_live_sum_remove(live: Seq<(nat, nat)>, i: int)
    requires
        0 <= i < live.len(),
    ensures
        live_sum(live.remove(i)) + live[i].1 == live_sum(live),
    decreases live.len(),
{
    if i == live.len() - 1 {
        assert(live.remove(i) =~= live.drop_last());
    } else {
        lemma_live_sum_remove(live.drop_last(), i);
        assert(live.remove(i).drop_last() =~= live.drop_last().remove(i));
        assert(live.remove(i).last() == live.last());
    }
}

/// When the live blocks add up to nothing, every one of them is empty.
proof fn lemma_live_sum_zero(live: Seq<(nat, nat)>)
    requires
        live_sum(live) == 0,
    ensures
        forall|j: int| 0 <= j < live.len() ==> (#[trigger] live[j]).1 == 0,
    decreases live.len(),
{
    if live.len() > 0 {
        lemma_live_sum_zero(live.drop_last());
        assert forall|j: int| 0 <= j < live.len() implies (#[trigger] live[j]).1 == 0 by {
            if j < live.len() - 1 {
                assert(live[j] == live.drop_last()[j]);
            }
        }
    }
}

/// A step of a request keeps a bucket's invariant and its buffer; a block that it serves is
/// aligned, lies in the buffer right before the new head, shares no byte with a live block,
/// and becomes live.
pub proof fn lemma_bucket_step(b: BucketView, size: nat, alignment: nat)
    requires
        bucket_inv(b),
        alignment >= 1,
    ensures
        ({
            let (o, b2) = bucket_step(b, size, alignment);
            &&& bucket_inv(b2)
            &&& b2.len == b.len && b2.data == b.data
            &&& match o {
                Some(off) => {
                    &&& off % alignment == 0
                    &&& off + size <= b.len
                    &&& b2.head == off + size
                    &&& fresh_in(b.live, (off, size))
                    &&& b2.live == b.live.push((off, size))
                },
                None => b2.live == b.live,
            }
        }),
{
    let (o, b2) = bucket_step(b, size, alignment);
    let h = b.head as int;
    let a = alignment as int;
    let diff = align_diff(h, a);
    assert(0 <= diff < a);
    assert((h + diff) % a == 0) by {
        if h % a != 0 {
            assert(h == a * (h / a) + h % a) by (nonlinear_arith)
                requires a > 0;
            assert(h + (a - h % a) == a * (h / a + 1)) by (nonlinear_arith)
                requires h == a * (h / a) + h % a;
            assert((a * (h / a + 1)) % a == 0) by (nonlinear_arith)
                requires a > 0;
        }
    }
    assert(0nat % alignment == 0);
    if b.tail_given {
    } else if h + diff + size <= b.len {
        let off = (h + diff) as nat;
        lemma_live_sum_push(b.live, (off, size));
        assert forall|j: int| 0 <= j < b2.live.len() implies (#[trigger] b2.live[j]).0 + b2.live[j].1
            <= b2.len && (b2.live[j].1 > 0 ==> b2.live[j].0 + b2.live[j].1 <= b2.head) by {
            if j < b.live.len() {
                assert(b2.live[j] == b.live[j]);
            }
        }
        assert forall|i: int, j: int|
            0 <= i < b2.live.len() && 0 <= j < b2.live.len() && i != j implies disjoint(
            #[trigger] b2.live[i],
            #[trigger] b2.live[j],
        ) by {
            if i < b.live.len() {
                assert(b2.live[i] == b.live[i]);
            }
            if j < b.live.len() {
                assert(b2.live[j] == b.live[j]);
            }
        }
    } else if size < b.len * 2 / 3 {
        let remaining = (b.len - b.head) as nat;
        if b.bytes_out == remaining {
            lemma_live_sum_zero(b.live);
            lemma_live_sum_push(b.live, (0, size));
            assert forall|j: int| 0 <= j < b2.live.len() implies (#[trigger] b2.live[j]).0
                + b2.live[j].1 <= b2.len && (b2.live[j].1 > 0 ==> b2.live[j].0 + b2.live[j].1
                <= b2.head) by {
                if j < b.live.len() {
                    assert(b2.live[j] == b.live[j]);
                }
            }
            assert forall|i: int, j: int|
                0 <= i < b2.live.len() && 0 <= j < b2.live.len() && i != j implies disjoint(
                #[trigger] b2.live[i],
                #[trigger] b2.live[j],
            ) by {
                if i < b.live.len() {
                    assert(b2.live[i] == b.live[i]);
                }
                if j < b.live.len() {
                    assert(b2.live[j] == b.live[j]);
                }
            }
        }
    }
}

/// Giving back a live block keeps a bucket's invariant and its buffer, and the block is no
/// longer live.
pub proof fn lemma_dealloc_step(b: BucketView, offset: nat, size: nat)
    requires
        bucket_inv(b),
        b.live.contains((offset, size)),
    ensures
        ({
            let b2 = dealloc_step(b, offset, size);
            let k = live_index(b.live, (offset, size));
            &&& bucket_inv(b2)
            &&& b2.len == b.len && b2.data == b.data
            &&& b2.head <= b.head
            &&& 0 <= k < b.live.len() && b.live[k] == (offset, size)
            &&& b2.live == b.live.remove(k)
        }),
{
    let k = live_index(b.live, (offset, size));
    let b2 = dealloc_step(b, offset, size);
    let live = b.live.remove(k);
    b.live.remove_ensures(k);
    lemma_live_sum_remove(b.live, k);
    if b.bytes_out == size {
        lemma_live_sum_zero(live);
    }
    assert forall|j: int| 0 <= j < live.len() implies (#[trigger] live[j]).0 + live[j].1 <= b2.len && (
    live[j].1 > 0 ==> live[j].0 + live[j].1 <= b2.head) by {
        if j < k {
            assert(live[j] == b.live[j]);
        } else {
            assert(live[j] == b.live[j + 1]);
        }
    }
    assert forall|i: int, j: int|
        0 <= i < live.len() && 0 <= j < live.len() && i != j implies disjoint(
        #[trigger] live[i],
        #[trigger] live[j],
    ) by {
        let i0 = if i < k { i } else { i + 1 };
        let j0 = if j < k { j } else { j + 1 };
        assert(live[i] == b.live[i0]);
        assert(live[j] == b.live[j0]);
    }
}

/// `data` with its `len` bytes from `offset` on replaced by `mid`.
pub open spec fn splice(data: Seq<u8>, offset: int, len: int, mid: Seq<u8>) -> Seq<u8> {
    data.subrange(0, offset) + mid + data.subrange(offset + len, data.len() as int)
}

/// Changing bytes of a bucket in place keeps the invariant and the total length of the chain.
proof fn lemma_splice_keeps(c: Seq<BucketView>, k: int, offset: int, len: int, mid: Seq<u8>)
    requires
        chain_sound(c),
        0 <= k < c.len(),
        0 <= offset,
        0 <= len,
        offset + len <= c[k].len,
        c[k].data.len() == c[k].len,
        mid.len() == len,
    ensures
        ({
            let d = splice(c[k].data, offset, len, mid);
            let c2 = c.update(k, BucketView { len: d.len(), data: d, ..c[k] });
            chain_sound(c2) && chain_total(c2) == chain_total(c)
        }),
{
    let d = splice(c[k].data, offset, len, mid);
    let b = BucketView { len: d.len(), data: d, ..c[k] };
    assert(d.len() == c[k].len);
    lemma_total_update(c, k, b);
    assert(bucket_inv(c[k]));
    assert forall|i: int| 0 <= i < c.update(k, b).len() implies bucket_inv(#[trigger] c.update(k, b)[i]) by {
        if i != k {
            assert(c.update(k, b)[i] == c[i]);
        }
    }
}

/// Replacing a bucket by one of the same length keeps the total.
proof fn lemma_total_update(c: Seq<BucketView>, k: int, b: BucketView)
    requires
        0 <= k < c.len(),
        b.len == c[k].len,
    ensures
        chain_total(c.update(k, b)) == chain_total(c),
    decreases c.len(),
{
    if k > 0 {
        lemma_total_update(c.drop_first(), k - 1, b);
        assert(c.update(k, b).drop_first() =~= c.drop_first().update(k - 1, b));
    } else {
        assert(c.update(k, b).drop_first() =~= c.drop_first());
    }
}

/// Every bucket of the chain keeps its invariant.
pub open spec fn chain_sound(c: Seq<BucketView>) -> bool {
    forall|i: int| 0 <= i < c.len() ==> bucket_inv(#[trigger] c[i])
}

/// Total length of the buffers of a chain.
pub open spec fn chain_total(c: Seq<BucketView>) -> nat
    decreases c.len(),
{
    if c.len() == 0 {
        0
    } else {
        c[0].len + chain_total(c.drop_first())
    }
}

/// The buffer of a bucket with `bytes` written from `offset` on.
pub open spec fn write_data(data: Seq<u8>, offset: int, bytes: Seq<u8>) -> Seq<u8> {
    Seq::new(
        data.len(),
        |i: int|
            if offset <= i < offset + bytes.len() {
                bytes[i - offset]
            } else {
                data[i]
            },
    )
}

/// An allocation is served at an offset that is a multiple of the alignment, inside the buffer
/// of a bucket of the chain, right before that bucket's new `head`, and shares no byte with a
/// block of that bucket that is still live; it becomes live there, and the other buckets keep
/// their live blocks. The buckets keep their buffers; at most one bucket is added, at the end,
/// and only when the allocation is served there.
pub proof fn lemma_chain_alloc(c: Seq<BucketView>, size: nat, alignment: nat)
    requires
        c.len() >= 1,
        chain_sound(c),
        alignment >= 1,
        chain_alloc(c, size, alignment).2.len() > c.len() ==> grown_len(c.last().len, size) <= isize::MAX,
    ensures
        ({
            let (k, off, c2) = chain_alloc(c, size, alignment);
            &&& c2.len() == c.len() || c2.len() == c.len() + 1
            &&& k < c2.len()
            &&& off % alignment == 0
            &&& off + size <= c2[k as int].len
            &&& c2[k as int].head == off + size
            &&& k < c.len() ==> fresh_in(c[k as int].live, (off, size)) && c2[k as int].live == c[k as int].live.push(
                (off, size),
            )
            &&& forall|i: int| 0 <= i < c.len() && i != k ==> (#[trigger] c2[i]).live == c[i].live
            &&& forall|i: int| 0 <= i < c.len() ==> (#[trigger] c2[i]).len == c[i].len && c2[i].data == c[i].data
            &&& c2.len() == c.len() + 1 ==> k == c.len() && c2.last() == BucketView {
                head: size,
                live: seq![(0nat, size)],
                ..fresh_bucket(grown_len(c.last().len, size))
            }
            &&& chain_sound(c2)
            &&& chain_total(c2) == chain_total(c) + (if c2.len() == c.len() {
                0
            } else {
                grown_len(c.last().len, size)
            })
        }),
    decreases c.len(),
{
    reveal_with_fuel(chain_total, 2);
    let (o, b) = bucket_step(c[0], size, alignment);
    let (k, off, c2) = chain_alloc(c, size, alignment);
    assert(bucket_inv(c[0]));
    lemma_bucket_step(c[0], size, alignment);
    assert(0nat % alignment == 0);
    match o {
        Some(off0) => {
            assert(chain_total(c2) == chain_total(c)) by {
                assert(c2.drop_first() =~= c.drop_first());
            }
            assert forall|i: int| 0 <= i < c2.len() implies bucket_inv(#[trigger] c2[i]) by {
                if i > 0 {
                    assert(c2[i] == c[i]);
                }
            }
        },
        None => {
            if c.len() == 1 {
                let l = grown_len(b.len, size);
                let nb = BucketView { head: size, live: seq![(0nat, size)], ..fresh_bucket(l) };
                assert(c2.drop_first() =~= seq![c2[1]]);
                assert(seq![c2[1]].drop_first() =~= Seq::<BucketView>::empty());
                assert(c.drop_first() =~= Seq::<BucketView>::empty());
                assert(size <= l);
                assert(live_sum(nb.live) == size) by {
                    lemma_live_sum_push(Seq::<(nat, nat)>::empty(), (0nat, size));
                    assert(Seq::<(nat, nat)>::empty().push((0nat, size)) =~= nb.live);
                }
                assert(bucket_inv(nb));
                assert(fresh_in(Seq::<(nat, nat)>::empty(), (0nat, size)));
                assert forall|i: int| 0 <= i < c2.len() implies bucket_inv(#[trigger] c2[i]) by {
                    if i == 1 {
                        assert(c2[i] == nb);
                    }
                }
            } else {
                let rest = c.drop_first();
                assert forall|i: int| 0 <= i < rest.len() implies bucket_inv(#[trigger] rest[i]) by {
                    assert(rest[i] == c[i + 1]);
                }
                lemma_chain_alloc(rest, size, alignment);
                let (k1, off1, rest2) = chain_alloc(rest, size, alignment);
                assert((seq![b] + rest2).drop_first() =~= rest2);
                assert forall|i: int| 0 <= i < c.len() implies (#[trigger] c2[i]).len == c[i].len
                    && c2[i].data == c[i].data && (i != k ==> c2[i].live == c[i].live) by {
                    if i > 0 {
                        assert(c2[i] == rest2[i - 1]);
                        assert(c[i] == rest[i - 1]);
                    }
                }
                assert forall|i: int| 0 <= i < c2.len() implies bucket_inv(#[trigger] c2[i]) by {
                    if i > 0 {
                        assert(c2[i] == rest2[i - 1]);
                    }
                }
                if k < c.len() {
                    assert(c2[k as int] == rest2[k - 1]);
                    assert(c[k as int] == rest[k - 1]);
                }
            }
        },
    }
}

/// An allocation is aligned, lies inside the buffer of one bucket, and shares no byte with any
/// block of the chain that is handed out and not given back (blocks of other buckets lie in
/// other buffers); it becomes live itself, and the chain's capacity never decreases.
pub proof fn law_allocation_is_fresh(c: Seq<BucketView>, size: nat, alignment: nat)
    requires
        c.len() >= 1,
        chain_sound(c),
        alignment >= 1,
        chain_alloc(c, size, alignment).2.len() > c.len() ==> grown_len(c.last().len, size) <= isize::MAX,
    ensures
        ({
            let (k, off, c2) = chain_alloc(c, size, alignment);
            &&& off % alignment == 0
            &&& k < c2.len() && off + size <= c2[k as int].len
            &&& k < c.len() ==> fresh_in(c[k as int].live, (off, size))
            &&& c2[k as int].live.last() == (off, size)
            &&& chain_total(c2) >= chain_total(c)
            &&& chain_sound(c2)
        }),
{
    lemma_chain_alloc(c, size, alignment);
    let (k, off, c2) = chain_alloc(c, size, alignment);
    if k < c.len() {
        assert(c2[k as int].live == c[k as int].live.push((off, size)));
    }
}

/// A bucket that handed out all its bytes at once starts over when they come back.
pub proof fn law_reuse_after_release(len: nat)
    ensures
        bucket_step(fresh_bucket(len), len, 1).0 == Some(0nat),
        dealloc_step(bucket_step(fresh_bucket(len), len, 1).1, 0, len) == fresh_bucket(len),
{
    assert(0int % 1 == 0);
    let b1 = bucket_step(fresh_bucket(len), len, 1).1;
    assert(b1.live =~= seq![(0nat, len)]);
    assert(b1.live[0] == (0nat, len));
    let k = live_index(b1.live, (0nat, len));
    assert(k == 0);
    assert(b1.live.remove(0) =~= Seq::<(nat, nat)>::empty());
}

/// A bucket serves a request at or behind its head and moves the head past it; it serves at
/// its start, behind the head, only when it starts over, once no block of it is live but
/// empty ones. A bucket whose tail is counted as given back serves nothing.
pub proof fn law_bump(b: BucketView, size: nat, alignment: nat)
    requires
        alignment >= 1,
        bucket_inv(b),
    ensures
        ({
            let (o, b2) = bucket_step(b, size, alignment);
            &&& b2.len == b.len && b2.data == b.data
            &&& b.tail_given ==> o is None && b2 == b
            &&& match o {
                Some(off) => b2.head == off + size && (off >= b.head || (off == 0 && forall|j: int|
                    0 <= j < b.live.len() ==> (#[trigger] b.live[j]).1 == 0)),
                None => b2.head == b.head,
            }
        }),
{
    let (o, b2) = bucket_step(b, size, alignment);
    lemma_bucket_step(b, size, alignment);
    if !b.tail_given && b.bytes_out == b.len - b.head {
        lemma_live_sum_zero(b.live);
    }
}

/// Giving a block back never changes a bucket's buffer, and never moves its head forward.
pub proof fn law_dealloc_keeps_buffer(b: BucketView, offset: nat, size: nat)
    requires
        bucket_inv(b),
        b.live.contains((offset, size)),
    ensures
        dealloc_step(b, offset, size).len == b.len,
        dealloc_step(b, offset, size).data == b.data,
        dealloc_step(b, offset, size).head <= b.head,
{
    lemma_dealloc_step(b, offset, size);
}

/// Multi-threaded allocator. Assuming a single 'producer' thread and multiple 'consumer' threads.
///
/// Only a single thread may call 'allocate' at a time, however any number of threads may call
/// 'deallocate' at the same time.
pub struct BucketAllocator {
    buffer: Vec<u8>,
    head: usize,
    bytes_out: usize,
    tail_given: bool,
    live: Ghost<Seq<(nat, nat)>>,
    next: Option<Box<BucketAllocator>>,
}

impl View for BucketAllocator {
    type V = Seq<BucketView>;

    /// The buckets of the chain, this one first.
    closed spec fn view(&self) -> Seq<BucketView> {
        self.chain()
    }
}

impl BucketAllocator {
    spec fn bucket_view(&self) -> BucketView {
        BucketView {
            len: self.buffer@.len(),
            head: self.head as nat,
            bytes_out: self.bytes_out as nat,
            tail_given: self.tail_given,
            live: self.live@,
            data: self.buffer@,
        }
    }

    spec fn chain(&self) -> Seq<BucketView>
        decreases self,
    {
        match &self.next {
            Some(n) => seq![self.bucket_view()] + n.chain(),
            None => seq![self.bucket_view()],
        }
    }

    pub closed spec fn wf(&self) -> bool {
        &&& chain_sound(self@)
        &&& chain_total(self@) <= usize::MAX
        &&& self@.len() <= usize::MAX
    }

    /// The machine limits that a request for `size` bytes aligned to `alignment` must stay in:
    /// when no bucket of the chain serves it, the bucket that is added fits in memory, and so
    /// does its index.
    pub open spec fn within_limits(&self, size: nat, alignment: nat) -> bool {
        chain_alloc(self@, size, alignment).2.len() > self@.len() ==> {
            &&& grown_len(self@.last().len, size) <= isize::MAX
            &&& chain_total(self@) + grown_len(self@.last().len, size) <= usize::MAX
            &&& self@.len() < usize::MAX
        }
    }

    proof fn lemma_chain(&self)
        ensures
            self@.len() >= 1,
            self@[0] == self.bucket_view(),
            self.next is None ==> self@.len() == 1,
            self.next matches Some(n) ==> self@.drop_first() == n@ && self@.last() == n@.last(),
            chain_total(self@) == self.buffer@.len() + (match &self.next {
                Some(n) => chain_total(n@),
                None => 0,
            }),
            forall|i: int| 0 <= i < self@.len() ==> (#[trigger] self@[i]).data.len() == self@[i].len,
            chain_sound(self@) <==> bucket_inv(self.bucket_view()) && (self.next matches Some(n) ==> chain_sound(
                n@,
            )),
        decreases self,
    {
        reveal_with_fuel(chain_total, 2);
        match &self.next {
            Some(n) => {
                n.lemma_chain();
                assert(self@.drop_first() =~= n@);
                assert forall|i: int| 1 <= i < self@.len() implies #[trigger] self@[i] == n@[i - 1] by {
                }
                if chain_sound(self@) {
                    assert forall|i: int| 0 <= i < n@.len() implies bucket_inv(#[trigger] n@[i]) by {
                        assert(n@[i] == self@[i + 1]);
                    }
                    assert(chain_sound(n@));
                    assert(bucket_inv(self@[0]));
                }
                if bucket_inv(self.bucket_view()) && chain_sound(n@) {
                    assert forall|i: int| 0 <= i < self@.len() implies bucket_inv(#[trigger] self@[i]) by {
                        if i > 0 {
                            assert(self@[i] == n@[i - 1]);
                        }
                    }
                }
            },
            None => {
                assert(self@ == seq![self.bucket_view()]);
                if chain_sound(self@) {
                    assert(bucket_inv(self@[0]));
                }
            },
        }
    }

    /// What a well-formed allocator guarantees of its chain.
    pub proof fn lemma_wf(&self)
        requires
            self.wf(),
        ensures
            self@.len() >= 1,
            chain_sound(self@),
            chain_total(self@) <= usize::MAX,
            forall|i: int| 0 <= i < self@.len() ==> (#[trigger] self@[i]).data.len() == self@[i].len,
    {
        self.lemma_chain();
    }

    pub fn new(capacity: usize) -> (a: Self)
        requires
            capacity <= isize::MAX,
        ensures
            a.wf(),
            a@ == seq![fresh_bucket(capacity as nat)],
            a@.len() == 1,
            a@.last() == fresh_bucket(capacity as nat),
            chain_total(a@) == capacity,
    {
        let a = BucketAllocator {
            buffer: vec![0u8; capacity],
            head: 0,
            bytes_out: capacity,
            tail_given: false,
            live: Ghost(Seq::empty()),
            next: None,
        };
        proof {
            a.lemma_chain();
            reveal_with_fuel(chain_total, 2);
            assert(a.buffer@ =~= fresh_bucket(capacity as nat).data);
            assert(a@ =~= seq![fresh_bucket(capacity as nat)]);
        }
        a
    }

    /// Total capacity of this allocator chain.
    pub fn capacity(&self) -> (c: usize)
        requires
            self.wf(),
        ensures
            c == chain_total(self@),
        decreases self@.len(),
    {
        proof {
            self.lemma_chain();
        }
        match &self.next {
            Some(n) => {
                proof {
                    n.lemma_chain();
                }
                self.buffer.len() + n.capacity()
            },
            None => self.buffer.len(),
        }
    }

    /// Allocates `size` bytes whose offset is a multiple of `alignment`.
    ///
    /// # Safety
    ///
    /// 1 producer thread is allowed per allocator
    pub fn allocate_aligned(&mut self, size: usize, alignment: usize) -> (r: Allocation)
        requires
            old(self).wf(),
            is_pow2(alignment),
            old(self).within_limits(size as nat, alignment as nat),
        ensures
            final(self).wf(),
            (r.bucket as nat, r.offset as nat, final(self)@) == chain_alloc(
                old(self)@,
                size as nat,
                alignment as nat,
            ),
            r.bucket < final(self)@.len(),
            r.offset as nat % (alignment as nat) == 0,
            r.offset + size <= final(self)@[r.bucket as int].len,
            r.bucket < old(self)@.len() ==> fresh_in(old(self)@[r.bucket as int].live, (r.offset as nat, size as nat))
                && final(self)@[r.bucket as int].live == old(self)@[r.bucket as int].live.push(
                (r.offset as nat, size as nat),
            ),
            r.bucket == old(self)@.len() ==> final(self)@[r.bucket as int].live == seq![(r.offset as nat, size as nat)],
            forall|i: int|
                0 <= i < old(self)@.len() && i != r.bucket ==> (#[trigger] final(self)@[i]).live == old(self)@[i].live,
            forall|i: int| 0 <= i < old(self)@.len() ==> (#[trigger] final(self)@[i]).len == old(self)@[i].len,
            final(self)@.len() == old(self)@.len() ==> final(self)@.last().len == old(self)@.last().len
                && chain_total(final(self)@) == chain_total(old(self)@),
            final(self)@.len() != old(self)@.len() ==> final(self)@.len() == old(self)@.len() + 1
                && final(self)@.last().len == grown_len(old(self)@.last().len, size as nat)
                && chain_total(final(self)@) == chain_total(old(self)@) + grown_len(old(self)@.last().len, size as nat),
    {
        proof {
            self.lemma_wf();
            lemma_chain_alloc(self@, size as nat, alignment as nat);
        }
        self.allocate_from(size, alignment)
    }

    /// Allocates `size` bytes.
    ///
    /// # Safety
    ///
    /// 1 producer thread is allowed per allocator
    pub fn allocate(&mut self, size: usize) -> (r: Allocation)
        requires
            old(self).wf(),
            old(self).within_limits(size as nat, 1),
        ensures
            final(self).wf(),
            (r.bucket as nat, r.offset as nat, final(self)@) == chain_alloc(
                old(self)@,
                size as nat,
                1,
            ),
            r.bucket < final(self)@.len(),
            r.offset as nat % (1) == 0,
            r.offset + size <= final(self)@[r.bucket as int].len,
            r.bucket < old(self)@.len() ==> fresh_in(old(self)@[r.bucket as int].live, (r.offset as nat, size as nat))
                && final(self)@[r.bucket as int].live == old(self)@[r.bucket as int].live.push(
                (r.offset as nat, size as nat),
            ),
            r.bucket == old(self)@.len() ==> final(self)@[r.bucket as int].live == seq![(r.offset as nat, size as nat)],
            forall|i: int|
                0 <= i < old(self)@.len() && i != r.bucket ==> (#[trigger] final(self)@[i]).live == old(self)@[i].live,
            forall|i: int| 0 <= i < old(self)@.len() ==> (#[trigger] final(self)@[i]).len == old(self)@[i].len,
            final(self)@.len() == old(self)@.len() ==> final(self)@.last().len == old(self)@.last().len
                && chain_total(final(self)@) == chain_total(old(self)@),
            final(self)@.len() != old(self)@.len() ==> final(self)@.len() == old(self)@.len() + 1
                && final(self)@.last().len == grown_len(old(self)@.last().len, size as nat)
                && chain_total(final(self)@) == chain_total(old(self)@) + grown_len(old(self)@.last().len, size as nat),
    {
        assert(1usize & 0usize == 0usize) by (bit_vector);
        let r = self.allocate_aligned(size, 1);
        r
    }

    #[verifier::rlimit(30)]
    fn allocate_from(&mut self, size: usize, alignment: usize) -> (r: Allocation)
        requires
            old(self).wf(),
            is_pow2(alignment),
            old(self).within_limits(size as nat, alignment as nat),
        ensures
            final(self).wf(),
            (r.bucket as nat, r.offset as nat, final(self)@) == chain_alloc(
                old(self)@,
                size as nat,
                alignment as nat,
            ),
        decreases old(self)@.len(),
    {
        proof {
            self.lemma_chain();
            lemma_chain_alloc(self@, size as nat, alignment as nat);
        }
        let ghost pre = *self;
        let len = self.buffer.len();
        match self.serve(size, alignment) {
            Some(offset) => {
                proof {
                    self.lemma_chain();
                    assert(self@ =~= pre@.update(0, self.bucket_view()));
                }
                Allocation { bucket: 0, offset }
            },
            None => {
                let ghost stepped = *self;
                match self.next.take() {
                    Some(mut n) => {
                        proof {
                            n.lemma_chain();
                            lemma_chain_alloc(n@, size as nat, alignment as nat);
                        }
                        let ghost n_pre = *n;
                        let r = n.allocate_from(size, alignment);
                        self.next = Some(n);
                        proof {
                            self.lemma_chain();
                            stepped.lemma_chain();
                            assert(self@ =~= seq![stepped.bucket_view()] + n@);
                            assert(pre@.drop_first() =~= n_pre@);
                        }
                        Allocation { bucket: r.bucket + 1, offset: r.offset }
                    },
                    None => {
                        let l = if len >= size {
                            len
                        } else {
                            size
                        };
                        let mut n = BucketAllocator::new(l * 3 / 2);
                        proof {
                            n.lemma_chain();
                        }
                        let offset = match n.serve(size, alignment) {
                            Some(offset) => offset,
                            None => {
                                proof {
                                    assert(false);
                                }
                                0
                            },
                        };
                        self.next = Some(Box::new(n));
                        proof {
                            n.lemma_chain();
                            self.lemma_chain();
                            assert(self@ =~= seq![stepped.bucket_view(), n.bucket_view()]);
                        }
                        Allocation { bucket: 1, offset }
                    },
                }
            },
        }
    }

    /// One bucket's part of an allocation; see `bucket_step`.
    fn serve(&mut self, size: usize, alignment: usize) -> (r: Option<usize>)
        requires
            bucket_inv(old(self).bucket_view()),
            is_pow2(alignment),
        ensures
            final(self).buffer@ == old(self).buffer@,
            final(self).next == old(self).next,
            (match r {
                Some(o) => Some(o as nat),
                None => None::<nat>,
            }, final(self).bucket_view()) == bucket_step(
                old(self).bucket_view(),
                size as nat,
                alignment as nat,
            ),
        decreases old(self).head,
    {
        if self.tail_given {
            // the bytes behind the head are counted as given back already
            return None;
        }
        let len = self.buffer.len();
        let head = self.head;
        proof {
            lemma_pow2_below_half(alignment);
        }
        let (diff, offset) = align(head, alignment);
        if offset <= len && size <= len - offset {
            // can allocate in this bucket
            self.head = offset + size;
            // decrement bytes out by the number of bytes skipped
            self.bytes_out = self.bytes_out - diff;
            self.live = Ghost(self.live@.push((offset as nat, size as nat)));
            return Some(offset);
        }
        if size < len * 2 / 3 {
            let remaining = len - head;
            let out = self.bytes_out;
            if out == remaining {
                // all allocations have been deallocated
                proof {
                    lemma_live_sum_zero(self.live@);
                    assert(0int % (alignment as int) == 0);
                    assert(head > 0);
                    assert(size <= len);
                }
                self.reset(len);
                proof {
                    assert(bucket_inv(self.bucket_view()));
                }
                let r = self.serve(size, alignment);
                proof {
                    assert(align_diff(0, alignment as int) == 0);
                }
                return r;
            }
            // assume that future allocations will fail, so don't serve those bytes
            self.bytes_out = out - remaining;
            self.tail_given = true;
        }
        None
    }

    /// Gives back the block of `size` bytes at `ptr`, which this allocator handed out and which
    /// was not given back yet.
    ///
    /// # Safety
    ///
    /// Multiple calls with the same `ptr` result in wrong counts.
    pub fn deallocate(&mut self, ptr: Allocation, size: usize)
        requires
            old(self).wf(),
            ptr.bucket < old(self)@.len(),
            old(self)@[ptr.bucket as int].live.contains((ptr.offset as nat, size as nat)),
        ensures
            final(self).wf(),
            final(self)@ == old(self)@.update(
                ptr.bucket as int,
                dealloc_step(old(self)@[ptr.bucket as int], ptr.offset as nat, size as nat),
            ),
            chain_total(final(self)@) == chain_total(old(self)@),
        decreases old(self)@.len(),
    {
        proof {
            self.lemma_chain();
        }
        if ptr.bucket != 0 {
            // `ptr` was not allocated by this bucket
            let mut n = self.next.take().unwrap();
            proof {
                n.lemma_chain();
                assert(n@[ptr.bucket - 1] == old(self)@[ptr.bucket as int]);
            }
            n.deallocate(Allocation { bucket: ptr.bucket - 1, offset: ptr.offset }, size);
            self.next = Some(n);
            proof {
                self.lemma_chain();
                n.lemma_chain();
                assert(self@ =~= old(self)@.update(
                    ptr.bucket as int,
                    dealloc_step(old(self)@[ptr.bucket as int], ptr.offset as nat, size as nat),
                ));
                lemma_total_update(
                    old(self)@,
                    ptr.bucket as int,
                    dealloc_step(old(self)@[ptr.bucket as int], ptr.offset as nat, size as nat),
                );
            }
            return ;
        }
        // the ptr belongs to this bucket
        let ghost b0 = self.bucket_view();
        let ghost blk = (ptr.offset as nat, size as nat);
        proof {
            lemma_dealloc_step(b0, blk.0, blk.1);
            lemma_live_sum_remove(b0.live, live_index(b0.live, blk));
        }
        let len = self.buffer.len();
        let out = self.bytes_out;
        self.live = Ghost(self.live@.remove(live_index(self.live@, blk)));
        if out == size {
            self.reset(len);
        } else {
            self.bytes_out = out - size;
        }
        proof {
            self.lemma_chain();
            assert(self.bucket_view() == dealloc_step(b0, blk.0, blk.1));
            assert(self@ =~= old(self)@.update(0, dealloc_step(old(self)@[0], blk.0, blk.1)));
            lemma_total_update(old(self)@, 0, dealloc_step(old(self)@[0], blk.0, blk.1));
        }
    }

    fn reset(&mut self, len: usize)
        ensures
            final(self).bytes_out == len,
            final(self).head == 0,
            !final(self).tail_given,
            final(self).live == old(self).live,
            final(self).buffer == old(self).buffer,
            final(self).next == old(self).next,
    {
        self.bytes_out = len;
        self.head = 0;
        self.tail_given = false;
    }

    /// Writes `bytes` into the bucket of `at`, from its offset on.
    pub fn write(&mut self, at: Allocation, bytes: &[u8])
        requires
            old(self).wf(),
            at.bucket < old(self)@.len(),
            at.offset + bytes@.len() <= old(self)@[at.bucket as int].len,
        ensures
            final(self).wf(),
            final(self)@ == old(self)@.update(
                at.bucket as int,
                BucketView {
                    data: write_data(old(self)@[at.bucket as int].data, at.offset as int, bytes@),
                    ..old(self)@[at.bucket as int]
                },
            ),
        decreases old(self)@.len(),
    {
        proof {
            self.lemma_chain();
        }
        if at.bucket != 0 {
            let mut n = self.next.take().unwrap();
            proof {
                n.lemma_chain();
            }
            n.write(Allocation { bucket: at.bucket - 1, offset: at.offset }, bytes);
            self.next = Some(n);
            proof {
                self.lemma_chain();
                n.lemma_chain();
                assert(self@ =~= old(self)@.update(
                    at.bucket as int,
                    BucketView {
                        data: write_data(old(self)@[at.bucket as int].data, at.offset as int, bytes@),
                        ..old(self)@[at.bucket as int]
                    },
                ));
                lemma_total_update(
                    old(self)@,
                    at.bucket as int,
                    BucketView {
                        data: write_data(old(self)@[at.bucket as int].data, at.offset as int, bytes@),
                        ..old(self)@[at.bucket as int]
                    },
                );
            }
            return ;
        }
        let mut i: usize = 0;
        while i < bytes.len()
            invariant
                i <= bytes@.len(),
                at.offset + bytes@.len() <= self.buffer@.len() <= isize::MAX,
                self.buffer@.len() == old(self).buffer@.len(),
                self.head == old(self).head,
                self.bytes_out == old(self).bytes_out,
                self.tail_given == old(self).tail_given,
                self.live == old(self).live,
                self.next == old(self).next,
                forall|j: int|
                    0 <= j < self.buffer@.len() ==> #[trigger] self.buffer@[j] == (if at.offset <= j
                        < at.offset + i {
                        bytes@[j - at.offset]
                    } else {
                        old(self).buffer@[j]
                    }),
            decreases bytes@.len() - i,
        {
            self.buffer.set(at.offset + i, bytes[i]);
            i = i + 1;
        }
        proof {
            assert(self.buffer@ =~= write_data(old(self).buffer@, at.offset as int, bytes@));
            self.lemma_chain();
            assert(self@ =~= old(self)@.update(
                0,
                BucketView {
                    data: write_data(old(self)@[0].data, at.offset as int, bytes@),
                    ..old(self)@[0]
                },
            ));
            lemma_total_update(
                old(self)@,
                0,
                BucketView {
                    data: write_data(old(self)@[0].data, at.offset as int, bytes@),
                    ..old(self)@[0]
                },
            );
        }
    }

    /// The `len` bytes of the bucket of `at` from its offset on.
    pub fn read(&self, at: Allocation, len: usize) -> (r: Vec<u8>)
        requires
            self.wf(),
            at.bucket < self@.len(),
            at.offset + len <= self@[at.bucket as int].len,
        ensures
            r@ == self@[at.bucket as int].data.subrange(at.offset as int, at.offset + len),
        decreases self@.len(),
    {
        proof {
            self.lemma_chain();
        }
        if at.bucket != 0 {
            match &self.next {
                Some(n) => {
                    proof {
                        n.lemma_chain();
                    }
                    return n.read(Allocation { bucket: at.bucket - 1, offset: at.offset }, len);
                },
                None => {
                    return Vec::new();
                },
            }
        }
        let mut r: Vec<u8> = Vec::new();
        let mut i: usize = 0;
        while i < len
            invariant
                i <= len,
                at.offset + len <= self.buffer@.len() <= isize::MAX,
                r@ == self.buffer@.subrange(at.offset as int, at.offset + i),
            decreases len - i,
        {
            r.push(self.buffer[at.offset + i]);
            i = i + 1;
            assert(r@ =~= self.buffer@.subrange(at.offset as int, at.offset + i));
        }
        r
    }

    /// The `len` bytes of the bucket of `at` from its offset on, to be changed in place: what is
    /// written through the slice lands in the bucket's buffer, and nothing else changes.
    pub fn slice_mut(&mut self, at: Allocation, len: usize) -> (s: &mut [u8])
        requires
            old(self).wf(),
            at.bucket < old(self)@.len(),
            at.offset + len <= old(self)@[at.bucket as int].len,
        ensures
            s@ == old(self)@[at.bucket as int].data.subrange(at.offset as int, at.offset + len),
            final(self)@ == old(self)@.update(
                at.bucket as int,
                BucketView {
                    len: splice(old(self)@[at.bucket as int].data, at.offset as int, len as int, final(s)@).len(),
                    data: splice(old(self)@[at.bucket as int].data, at.offset as int, len as int, final(s)@),
                    ..old(self)@[at.bucket as int]
                },
            ),
            final(s)@.len() == s@.len() ==> final(self).wf(),
        decreases old(self)@.len(),
    {
        proof {
            self.lemma_chain();
            let c = self@;
            let k = at.bucket as int;
            assert forall|mid: Seq<u8>| mid.len() == len implies ({
                let d = #[trigger] splice(c[k].data, at.offset as int, len as int, mid);
                let c2 = c.update(k, BucketView { len: d.len(), data: d, ..c[k] });
                chain_sound(c2) && chain_total(c2) == chain_total(c) && c2.len() == c.len()
            }) by {
                lemma_splice_keeps(c, k, at.offset as int, len as int, mid);
            }
        }
        if at.bucket != 0 {
            proof {
                let n = self.next->0;
                n.lemma_chain();
                assert(n@[at.bucket - 1] == old(self)@[at.bucket as int]);
            }
            let n = self.next.as_mut().unwrap();
            let s = n.slice_mut(Allocation { bucket: at.bucket - 1, offset: at.offset }, len);
            return s;
        }
        self.own_slice_mut(at.offset, len)
    }

    /// `slice_mut` on this bucket's own buffer.
    fn own_slice_mut(&mut self, offset: usize, len: usize) -> (s: &mut [u8])
        requires
            offset + len <= old(self).buffer@.len(),
        ensures
            s@ == old(self).buffer@.subrange(offset as int, offset + len),
            final(self).buffer@ == splice(old(self).buffer@, offset as int, len as int, final(s)@),
            final(self).head == old(self).head,
            final(self).bytes_out == old(self).bytes_out,
            final(self).tail_given == old(self).tail_given,
            final(self).live == old(self).live,
            final(self).next == old(self).next,
    {
        let (_, rest) = self.buffer.as_mut_slice().split_at_mut(offset);
        let (s, _) = rest.split_at_mut(len);
        s
    }

    /// Whether a bucket follows this one in the chain.
    pub fn has_next(&self) -> (b: bool)
        ensures
            b == (self@.len() > 1),
    {
        proof {
            self.lemma_chain();
            if let Some(n) = &self.next {
                n.lemma_chain();
            }
        }
        self.next.is_some()
    }
}

/// A power of two that fits in a `usize` is at most one more than `isize::MAX`.
proof fn lemma_pow2_below_half(a: usize)
    requires
        is_pow2(a),
    ensures
        a - 1 <= isize::MAX,
{
    let b = (a - 1) as usize;
    assert((b + b) as usize == b + b) by (bit_vector)
        requires
            a >= 1usize,
            a & b == 0usize,
            b == (a - 1) as usize,
    ;
    assert(b + b <= usize::MAX);
    assert(isize::MAX * 2 + 1 == usize::MAX);
}

/// Return the aligned offset and the difference from the initial one.
fn align(offset: usize, alignment: usize) -> (r: (usize, usize))
    requires
        is_pow2(alignment),
        offset + alignment <= usize::MAX,
    ensures
        r.0 == align_diff(offset as int, alignment as int),
        r.1 == offset + r.0,
        r.0 < alignment,
{
    let modulo = offset & (alignment - 1);
    proof {
        lemma_mask_is_mod(offset, alignment);
    }
    // alignment - modulo if modulo is not 0
    // else the offset is already aligned
    let diff = (alignment - modulo) * ((modulo != 0) as usize);
    (diff, offset + diff)
}

} // verus!
