//! Block extents and facts about sums of block sizes.
//!
//! A block is a contiguous extent of bytes inside the heap region,
//! described by its starting address and total size in bytes (header
//! included). Both free and allocated regions are described this way.

use vstd::prelude::*;

verus! {

use crate::arith::{lemma_multiple_diff, lemma_multiple_ge};

/// Size in bytes of the bookkeeping header that precedes every block.
pub const HEADER_SIZE: usize = 8;

/// Allocation granularity: block addresses and sizes are multiples of this.
pub const UNIT: usize = 8;

/// One contiguous extent of heap bytes: `[addr, addr + size)`.
#[derive(Clone, Copy, PartialEq, Eq, Structural, Debug)]
pub struct Block {
    pub addr: usize,
    pub size: usize,
}

/// The first address past the block.
pub open spec fn blk_end(b: Block) -> int {
    b.addr + b.size
}

/// Two extents share no byte.
pub open spec fn disjoint(a: Block, b: Block) -> bool {
    blk_end(a) <= b.addr || blk_end(b) <= a.addr
}

/// The blocks of `s` stand in strictly ascending address order, with a
/// gap between any two neighbours (adjacent free blocks are always
/// merged, so a well-formed free list never holds two touching blocks).
pub open spec fn address_ordered(s: Seq<Block>) -> bool {
    forall|i: int| 0 <= i < s.len() - 1 ==> blk_end(#[trigger] s[i]) < s[i + 1].addr
}

/// In an address-ordered sequence, every earlier block ends before any
/// later block starts.
pub proof fn lemma_order_chain(s: Seq<Block>, i: int, j: int)
    requires
        address_ordered(s),
        0 <= i < j < s.len(),
    ensures
        blk_end(s[i]) < s[j].addr,
    decreases j - i,
{
    if j > i + 1 {
        lemma_order_chain(s, i, j - 1);
    }
}

/// The total number of bytes covered by the blocks of `s`.
pub open spec fn sum_sizes(s: Seq<Block>) -> int
    decreases s.len(),
{
    if s.len() == 0 {
        0
    } else {
        s[0].size + sum_sizes(s.drop_first())
    }
}

pub proof fn lemma_sum_nonneg(s: Seq<Block>)
    ensures
        sum_sizes(s) >= 0,
    decreases s.len(),
{
    if s.len() > 0 {
        lemma_sum_nonneg(s.drop_first());
    }
}

pub proof fn lemma_sum_concat(a: Seq<Block>, b: Seq<Block>)
    ensures
        sum_sizes(a + b) == sum_sizes(a) + sum_sizes(b),
    decreases a.len(),
{
    if a.len() == 0 {
        assert(a + b =~= b);
    } else {
        assert((a + b).drop_first() =~= a.drop_first() + b);
        lemma_sum_concat(a.drop_first(), b);
    }
}

pub proof fn lemma_sum_empty()
    ensures
        sum_sizes(Seq::<Block>::empty()) == 0,
{
}

pub proof fn lemma_sum_singleton(b: Block)
    ensures
        sum_sizes(seq![b]) == b.size,
{
    lemma_sum_empty();
    assert(seq![b].drop_first() =~= Seq::<Block>::empty());
}

pub proof fn lemma_sum_push(s: Seq<Block>, b: Block)
    ensures
        sum_sizes(s.push(b)) == sum_sizes(s) + b.size,
{
    assert(s.push(b) =~= s + seq![b]);
    lemma_sum_concat(s, seq![b]);
    lemma_sum_singleton(b);
}

pub proof fn lemma_sum_insert(s: Seq<Block>, i: int, b: Block)
    requires
        0 <= i <= s.len(),
    ensures
        sum_sizes(s.insert(i, b)) == sum_sizes(s) + b.size,
{
    assert(s =~= s.take(i) + s.skip(i));
    assert(s.insert(i, b) =~= s.take(i) + seq![b] + s.skip(i));
    lemma_sum_concat(s.take(i), s.skip(i));
    lemma_sum_concat(s.take(i) + seq![b], s.skip(i));
    lemma_sum_concat(s.take(i), seq![b]);
    lemma_sum_singleton(b);
}

pub proof fn lemma_sum_remove(s: Seq<Block>, i: int)
    requires
        0 <= i < s.len(),
    ensures
        sum_sizes(s.remove(i)) == sum_sizes(s) - s[i].size,
{
    assert(s =~= s.take(i) + seq![s[i]] + s.skip(i + 1));
    assert(s.remove(i) =~= s.take(i) + s.skip(i + 1));
    lemma_sum_concat(s.take(i), s.skip(i + 1));
    lemma_sum_concat(s.take(i) + seq![s[i]], s.skip(i + 1));
    lemma_sum_concat(s.take(i), seq![s[i]]);
    lemma_sum_singleton(s[i]);
}

pub proof fn lemma_sum_update(s: Seq<Block>, i: int, b: Block)
    requires
        0 <= i < s.len(),
    ensures
        sum_sizes(s.update(i, b)) == sum_sizes(s) - s[i].size + b.size,
{
    assert(s.update(i, b) =~= s.remove(i).insert(i, b));
    lemma_sum_remove(s, i);
    lemma_sum_insert(s.remove(i), i, b);
}

pub proof fn lemma_sum_take_succ(s: Seq<Block>, i: int)
    requires
        0 <= i < s.len(),
    ensures
        sum_sizes(s.take(i + 1)) == sum_sizes(s.take(i)) + s[i].size,
{
    assert(s.take(i + 1) =~= s.take(i) + seq![s[i]]);
    lemma_sum_concat(s.take(i), seq![s[i]]);
    lemma_sum_singleton(s[i]);
}

pub proof fn lemma_sum_take_le(s: Seq<Block>, k: int)
    requires
        0 <= k <= s.len(),
    ensures
        sum_sizes(s.take(k)) <= sum_sizes(s),
{
    assert(s =~= s.take(k) + s.skip(k));
    lemma_sum_concat(s.take(k), s.skip(k));
    lemma_sum_nonneg(s.skip(k));
}

/// A block lies inside `[lo, hi)`, is big enough to hold a header, and
/// respects the allocation granularity.
pub open spec fn block_in_range(b: Block, lo: int, hi: int) -> bool {
    &&& lo <= b.addr
    &&& blk_end(b) <= hi
    &&& b.size >= UNIT
    &&& (b.addr as int) % (UNIT as int) == 0
    &&& (b.size as int) % (UNIT as int) == 0
}

/// The structural well-formedness of a free list `s` and a set of
/// allocated blocks `a` over the region `[lo, hi)`: the free list is
/// address-ordered with gaps, every block is in range and granular, and
/// allocated blocks overlap neither each other nor any free block.
pub open spec fn views_inv(s: Seq<Block>, a: Seq<Block>, lo: int, hi: int) -> bool {
    &&& address_ordered(s)
    &&& (forall|i: int| 0 <= i < s.len() ==> block_in_range(#[trigger] s[i], lo, hi))
    &&& (forall|i: int| 0 <= i < a.len() ==> block_in_range(#[trigger] a[i], lo, hi))
    &&& (forall|i: int, j: int|
        0 <= i < a.len() && 0 <= j < a.len() && i != j ==> disjoint(
            #[trigger] a[i],
            #[trigger] a[j],
        ))
    &&& (forall|i: int, j: int|
        0 <= i < s.len() && 0 <= j < a.len() ==> disjoint(#[trigger] s[i], #[trigger] a[j]))
}

/// The free list after carving an allocation of `full` bytes, preceded by
/// `pad` bytes of front padding, out of the block at `idx`: the padding
/// and the tail that remain (when non-empty) stay free in place.
#[verifier::opaque]
pub open spec fn carve_seq(s: Seq<Block>, idx: int, pad: int, full: int) -> Seq<Block> {
    let b = s[idx];
    let rest = b.size - pad - full;
    let p1 = Block { addr: b.addr, size: pad as usize };
    let p2 = Block { addr: (b.addr + pad + full) as usize, size: rest as usize };
    if pad > 0 && rest > 0 {
        s.update(idx, p1).insert(idx + 1, p2)
    } else if pad > 0 {
        s.update(idx, p1)
    } else if rest > 0 {
        s.update(idx, p2)
    } else {
        s.remove(idx)
    }
}

/// Carving out an allocation leaves the free list address-ordered, with
/// every block in range, and removes exactly `pad + full + rest` minus
/// the padding and tail bytes — that is, `full` bytes — from its sum.
#[verifier::rlimit(60)]
proof fn lemma_carve_free(s: Seq<Block>, lo: int, hi: int, idx: int, pad: int, full: int)
    requires
        address_ordered(s),
        forall|i: int| 0 <= i < s.len() ==> block_in_range(#[trigger] s[i], lo, hi),
        0 <= lo,
        hi <= usize::MAX,
        0 <= idx < s.len(),
        0 <= pad,
        UNIT <= full,
        pad + full <= s[idx].size,
        pad % (UNIT as int) == 0,
        full % (UNIT as int) == 0,
    ensures
        address_ordered(carve_seq(s, idx, pad, full)),
        forall|i: int|
            0 <= i < carve_seq(s, idx, pad, full).len() ==> block_in_range(
                #[trigger] carve_seq(s, idx, pad, full)[i],
                lo,
                hi,
            ),
        sum_sizes(carve_seq(s, idx, pad, full)) == sum_sizes(s) - full,
{
    reveal(carve_seq);
    let b = s[idx];
    let rest = b.size - pad - full;
    let p1 = Block { addr: b.addr, size: pad as usize };
    let p2 = Block { addr: (b.addr + pad + full) as usize, size: rest as usize };
    let s2 = carve_seq(s, idx, pad, full);
    if pad > 0 {
        lemma_multiple_ge(pad, UNIT as int);
    }
    lemma_multiple_diff(b.size as int, pad, UNIT as int);
    lemma_multiple_diff(b.size as int - pad, full, UNIT as int);
    if rest > 0 {
        lemma_multiple_ge(rest, UNIT as int);
    }
    lemma_multiple_diff(b.addr as int, pad, UNIT as int);
    lemma_multiple_diff(b.addr as int + pad, full, UNIT as int);
    if pad > 0 && rest > 0 {
        lemma_sum_update(s, idx, p1);
        lemma_sum_insert(s.update(idx, p1), idx + 1, p2);
        assert forall|t: int| 0 <= t < s2.len() - 1 implies blk_end(#[trigger] s2[t])
            < s2[t + 1].addr by {
            if t < idx - 1 || t > idx + 1 {
                assert(s2[t] == s[if t <= idx { t } else { t - 1 }]);
                assert(s2[t + 1] == s[if t + 1 <= idx { t + 1 } else { t }]);
            }
        }
    } else if pad > 0 {
        lemma_sum_update(s, idx, p1);
    } else if rest > 0 {
        lemma_sum_update(s, idx, p2);
    } else {
        lemma_sum_remove(s, idx);
        assert forall|t: int| 0 <= t < s2.len() - 1 implies blk_end(#[trigger] s2[t])
            < s2[t + 1].addr by {
            if t == idx - 1 && idx < s.len() - 1 {
                lemma_order_chain(s, t, idx + 1);
            }
        }
    }
}

/// The block carved out of a free block stays inside the region and is
/// disjoint from every already-allocated block, so the allocated side
/// stays well-formed when it is added.
#[verifier::rlimit(60)]
proof fn lemma_carve_alloc(s: Seq<Block>, a: Seq<Block>, lo: int, hi: int, idx: int, pad: int, full: int)
    requires
        views_inv(s, a, lo, hi),
        0 <= lo,
        hi <= usize::MAX,
        0 <= idx < s.len(),
        0 <= pad,
        UNIT <= full,
        pad + full <= s[idx].size,
        pad % (UNIT as int) == 0,
        full % (UNIT as int) == 0,
    ensures
        ({
            let nb = Block { addr: (s[idx].addr + pad) as usize, size: full as usize };
            let a2 = a.push(nb);
            &&& block_in_range(nb, lo, hi)
            &&& (forall|i: int| 0 <= i < a2.len() ==> block_in_range(#[trigger] a2[i], lo, hi))
            &&& (forall|i: int, j: int|
                0 <= i < a2.len() && 0 <= j < a2.len() && i != j ==> disjoint(
                    #[trigger] a2[i],
                    #[trigger] a2[j],
                ))
            &&& sum_sizes(a2) == sum_sizes(a) + full
        }),
{
    let b = s[idx];
    let nb = Block { addr: (b.addr + pad) as usize, size: full as usize };
    let a2 = a.push(nb);
    lemma_multiple_diff(b.addr as int, pad, UNIT as int);
    lemma_sum_push(a, nb);
    assert forall|m: int, m2: int|
        0 <= m < a2.len() && 0 <= m2 < a2.len() && m != m2 implies disjoint(
        #[trigger] a2[m],
        #[trigger] a2[m2],
    ) by {
        if m < a.len() && m2 < a.len() {
            assert(disjoint(a[m], a[m2]));
        } else if m < a.len() {
            assert(disjoint(s[idx], a[m]));
        } else {
            assert(disjoint(s[idx], a[m2]));
        }
    }
}

/// After a carve, no block left on the free list overlaps any allocated
/// block, the newly allocated one included.
#[verifier::rlimit(60)]
proof fn lemma_carve_cross(s: Seq<Block>, a: Seq<Block>, lo: int, hi: int, idx: int, pad: int, full: int)
    requires
        views_inv(s, a, lo, hi),
        0 <= lo,
        hi <= usize::MAX,
        0 <= idx < s.len(),
        0 <= pad,
        UNIT <= full,
        pad + full <= s[idx].size,
        pad % (UNIT as int) == 0,
        full % (UNIT as int) == 0,
    ensures
        ({
            let s2 = carve_seq(s, idx, pad, full);
            let a2 = a.push(Block { addr: (s[idx].addr + pad) as usize, size: full as usize });
            forall|t: int, m: int|
                0 <= t < s2.len() && 0 <= m < a2.len() ==> disjoint(
                    #[trigger] s2[t],
                    #[trigger] a2[m],
                )
        }),
{
    reveal(carve_seq);
    let b = s[idx];
    let rest = b.size - pad - full;
    let nb = Block { addr: (b.addr + pad) as usize, size: full as usize };
    let s2 = carve_seq(s, idx, pad, full);
    let a2 = a.push(nb);
    assert forall|t: int| 0 <= t < s.len() && t != idx implies disjoint(#[trigger] s[t], b) by {
        if t < idx {
            lemma_order_chain(s, t, idx);
        } else {
            lemma_order_chain(s, idx, t);
        }
    }
    assert forall|t: int, m: int|
        0 <= t < s2.len() && 0 <= m < a2.len() implies disjoint(
        #[trigger] s2[t],
        #[trigger] a2[m],
    ) by {
        let keep = pad > 0 || rest > 0;
        let to = if pad > 0 && rest > 0 {
            if t <= idx { t } else { t - 1 }
        } else if keep {
            t
        } else {
            if t < idx { t } else { t + 1 }
        };
        if to != idx {
            assert(s2[t] == s[to]);
            if m < a.len() {
                assert(disjoint(s[to], a[m]));
            } else {
                assert(disjoint(s[to], b));
            }
        } else {
            if m < a.len() {
                assert(disjoint(s[idx], a[m]));
            }
        }
    }
}

/// Carving an allocation out of a free block preserves all structural
/// invariants, keeps the new allocated block inside the region and
/// disjoint from everything still free or already allocated, and moves
/// exactly `full` bytes from the free side to the allocated side.
pub proof fn lemma_carve(s: Seq<Block>, a: Seq<Block>, lo: int, hi: int, idx: int, pad: int, full: int)
    requires
        views_inv(s, a, lo, hi),
        0 <= lo,
        hi <= usize::MAX,
        0 <= idx < s.len(),
        0 <= pad,
        UNIT <= full,
        pad + full <= s[idx].size,
        pad % (UNIT as int) == 0,
        full % (UNIT as int) == 0,
    ensures
        views_inv(
            carve_seq(s, idx, pad, full),
            a.push(Block { addr: (s[idx].addr + pad) as usize, size: full as usize }),
            lo,
            hi,
        ),
        sum_sizes(carve_seq(s, idx, pad, full)) == sum_sizes(s) - full,
        sum_sizes(a.push(Block { addr: (s[idx].addr + pad) as usize, size: full as usize }))
            == sum_sizes(a) + full,
{
    lemma_carve_free(s, lo, hi, idx, pad, full);
    lemma_carve_alloc(s, a, lo, hi, idx, pad, full);
    lemma_carve_cross(s, a, lo, hi, idx, pad, full);
}

/// The free list after giving the extent `ext` back at sorted position
/// `j`: `ext` is merged into the free block that ends exactly where it
/// starts and/or the one that starts exactly where it ends, so that no
/// two adjacent free blocks remain.
#[verifier::opaque]
pub open spec fn coalesce_seq(s: Seq<Block>, j: int, ext: Block) -> Seq<Block> {
    let merge_prev = j > 0 && blk_end(s[j - 1]) == ext.addr;
    let merge_next = j < s.len() && blk_end(ext) == s[j].addr;
    if merge_prev && merge_next {
        s.update(
            j - 1,
            Block {
                addr: s[j - 1].addr,
                size: (s[j - 1].size + ext.size + s[j].size) as usize,
            },
        ).remove(j)
    } else if merge_prev {
        s.update(j - 1, Block { addr: s[j - 1].addr, size: (s[j - 1].size + ext.size) as usize })
    } else if merge_next {
        s.update(j, Block { addr: ext.addr, size: (ext.size + s[j].size) as usize })
    } else {
        s.insert(j, ext)
    }
}

/// Giving an extent back to the free list at its sorted position, with
/// coalescing, keeps the list address-ordered and in range and grows its
/// sum by exactly the extent's size.
#[verifier::rlimit(60)]
pub proof fn lemma_coalesce_free(s: Seq<Block>, lo: int, hi: int, j: int, ext: Block)
    requires
        address_ordered(s),
        forall|i: int| 0 <= i < s.len() ==> block_in_range(#[trigger] s[i], lo, hi),
        block_in_range(ext, lo, hi),
        0 <= lo,
        hi <= usize::MAX,
        0 <= j <= s.len(),
        forall|t: int| 0 <= t < j ==> blk_end(#[trigger] s[t]) <= ext.addr,
        j < s.len() ==> blk_end(ext) <= s[j].addr,
    ensures
        address_ordered(coalesce_seq(s, j, ext)),
        forall|i: int|
            0 <= i < coalesce_seq(s, j, ext).len() ==> block_in_range(
                #[trigger] coalesce_seq(s, j, ext)[i],
                lo,
                hi,
            ),
        sum_sizes(coalesce_seq(s, j, ext)) == sum_sizes(s) + ext.size,
{
    reveal(coalesce_seq);
    let s2 = coalesce_seq(s, j, ext);
    let merge_prev = j > 0 && blk_end(s[j - 1]) == ext.addr;
    let merge_next = j < s.len() && blk_end(ext) == s[j].addr;
    if merge_prev {
        lemma_multiple_diff(s[j - 1].size as int, ext.size as int, UNIT as int);
    }
    if merge_next {
        lemma_multiple_diff(ext.size as int, s[j].size as int, UNIT as int);
    }
    if merge_prev && merge_next {
        lemma_multiple_diff(s[j - 1].size as int + ext.size, s[j].size as int, UNIT as int);
        let m = Block {
            addr: s[j - 1].addr,
            size: (s[j - 1].size + ext.size + s[j].size) as usize,
        };
        lemma_sum_update(s, j - 1, m);
        lemma_sum_remove(s.update(j - 1, m), j);
        assert forall|t: int| 0 <= t < s2.len() - 1 implies blk_end(#[trigger] s2[t])
            < s2[t + 1].addr by {
            if t >= j {
                assert(s2[t] == s[t + 1]);
                assert(s2[t + 1] == s[t + 2]);
            }
        }
    } else if merge_prev {
        let m = Block { addr: s[j - 1].addr, size: (s[j - 1].size + ext.size) as usize };
        lemma_sum_update(s, j - 1, m);
    } else if merge_next {
        let m = Block { addr: ext.addr, size: (ext.size + s[j].size) as usize };
        lemma_sum_update(s, j, m);
    } else {
        lemma_sum_insert(s, j, ext);
    }
}

/// Removing one block from the allocated side keeps the rest in range
/// and pairwise disjoint and shrinks the sum by exactly its size.
proof fn lemma_coalesce_alloc(a: Seq<Block>, lo: int, hi: int, k: int)
    requires
        forall|i: int| 0 <= i < a.len() ==> block_in_range(#[trigger] a[i], lo, hi),
        forall|i: int, j: int|
            0 <= i < a.len() && 0 <= j < a.len() && i != j ==> disjoint(
                #[trigger] a[i],
                #[trigger] a[j],
            ),
        0 <= k < a.len(),
    ensures
        forall|i: int| 0 <= i < a.remove(k).len() ==> block_in_range(#[trigger] a.remove(k)[i], lo, hi),
        forall|i: int, j: int|
            0 <= i < a.remove(k).len() && 0 <= j < a.remove(k).len() && i != j ==> disjoint(
                #[trigger] a.remove(k)[i],
                #[trigger] a.remove(k)[j],
            ),
        sum_sizes(a.remove(k)) == sum_sizes(a) - a[k].size,
{
    let a2 = a.remove(k);
    lemma_sum_remove(a, k);
    assert forall|m: int, m2: int|
        0 <= m < a2.len() && 0 <= m2 < a2.len() && m != m2 implies disjoint(
        #[trigger] a2[m],
        #[trigger] a2[m2],
    ) by {
        assert(disjoint(a[if m < k { m } else { m + 1 }], a[if m2 < k { m2 } else { m2 + 1 }]));
    }
}

/// After the freed extent has been merged into the free list, no free
/// block overlaps any still-allocated block.
#[verifier::rlimit(60)]
proof fn lemma_coalesce_cross(s: Seq<Block>, a: Seq<Block>, lo: int, hi: int, j: int, k: int)
    requires
        views_inv(s, a, lo, hi),
        0 <= lo,
        hi <= usize::MAX,
        0 <= k < a.len(),
        0 <= j <= s.len(),
        forall|t: int| 0 <= t < j ==> blk_end(#[trigger] s[t]) <= a[k].addr,
        j < s.len() ==> blk_end(a[k]) <= s[j].addr,
    ensures
        forall|t: int, m: int|
            0 <= t < coalesce_seq(s, j, a[k]).len() && 0 <= m < a.remove(k).len() ==> disjoint(
                #[trigger] coalesce_seq(s, j, a[k])[t],
                #[trigger] a.remove(k)[m],
            ),
{
    reveal(coalesce_seq);
    let ext = a[k];
    let s2 = coalesce_seq(s, j, ext);
    let a2 = a.remove(k);
    let merge_prev = j > 0 && blk_end(s[j - 1]) == ext.addr;
    let merge_next = j < s.len() && blk_end(ext) == s[j].addr;
    assert forall|t: int, m: int|
        0 <= t < s2.len() && 0 <= m < a2.len() implies disjoint(
        #[trigger] s2[t],
        #[trigger] a2[m],
    ) by {
        let mo = if m < k { m } else { m + 1 };
        assert(a2[m] == a[mo]);
        assert(disjoint(ext, a[mo]));
        if merge_prev && merge_next {
            assert(disjoint(s[j - 1], a[mo]));
            assert(disjoint(s[j], a[mo]));
            if t < j - 1 {
                assert(disjoint(s[t], a[mo]));
            } else if t >= j {
                assert(s2[t] == s[t + 1]);
                assert(disjoint(s[t + 1], a[mo]));
            }
        } else if merge_prev {
            assert(disjoint(s[j - 1], a[mo]));
            if t != j - 1 {
                assert(disjoint(s[t], a[mo]));
            }
        } else if merge_next {
            assert(disjoint(s[j], a[mo]));
            if t != j {
                assert(disjoint(s[t], a[mo]));
            }
        } else {
            if t < j {
                assert(disjoint(s[t], a[mo]));
            } else if t > j {
                assert(disjoint(s[t - 1], a[mo]));
            }
        }
    }
}

/// Freeing the allocated block `a[k]` back into the free list at its
/// address-sorted position `j`, with coalescing, preserves all structural
/// invariants and moves exactly `a[k].size` bytes from the allocated side
/// to the free side.
pub proof fn lemma_coalesce(s: Seq<Block>, a: Seq<Block>, lo: int, hi: int, j: int, k: int)
    requires
        views_inv(s, a, lo, hi),
        0 <= lo,
        hi <= usize::MAX,
        0 <= k < a.len(),
        0 <= j <= s.len(),
        forall|t: int| 0 <= t < j ==> (#[trigger] s[t]).addr < a[k].addr,
        j < s.len() ==> s[j].addr >= a[k].addr,
    ensures
        views_inv(coalesce_seq(s, j, a[k]), a.remove(k), lo, hi),
        sum_sizes(coalesce_seq(s, j, a[k])) == sum_sizes(s) + a[k].size,
        sum_sizes(a.remove(k)) == sum_sizes(a) - a[k].size,
{
    let ext = a[k];
    assert forall|t: int| 0 <= t < j implies blk_end(#[trigger] s[t]) <= ext.addr by {
        assert(disjoint(s[t], ext));
    }
    if j < s.len() {
        assert(disjoint(s[j], ext));
        assert(blk_end(ext) <= s[j].addr);
    }
    lemma_coalesce_free(s, lo, hi, j, ext);
    lemma_coalesce_alloc(a, lo, hi, k);
    lemma_coalesce_cross(s, a, lo, hi, j, k);
}

/// Every single block covers at most the whole sum of its sequence.
pub proof fn lemma_sum_bounds_element(s: Seq<Block>, i: int)
    requires
        0 <= i < s.len(),
    ensures
        s[i].size <= sum_sizes(s),
{
    assert(s =~= s.take(i) + seq![s[i]] + s.skip(i + 1));
    lemma_sum_concat(s.take(i) + seq![s[i]], s.skip(i + 1));
    lemma_sum_concat(s.take(i), seq![s[i]]);
    lemma_sum_singleton(s[i]);
    lemma_sum_nonneg(s.take(i));
    lemma_sum_nonneg(s.skip(i + 1));
}

} // verus!
