//! The heap itself: one contiguous byte region, an address-ordered free
//! list, and the first-fit allocate / coalescing deallocate algorithms.
//!
//! Every block of heap memory, free or allocated, carries a
//! [`HEADER_SIZE`]-byte bookkeeping header at its start; the pointer a
//! caller receives is the address just past that header. Addresses and
//! block sizes are kept multiples of [`UNIT`], so a split never leaves a
//! fragment too small to hold a header.

use vstd::prelude::*;

verus! {

use crate::arith::{
    round_up, is_pow2, try_round_up, lemma_round_up, lemma_divides_transitive,
    lemma_multiple_diff, lemma_multiple_ge, lemma_pow2_vs_8, lemma_multiple_of_8_below_max,
};
use vstd::pervasive::VecAdditionalExecFns;
use vstd::arithmetic::div_mod::lemma_mod_self_0;
use crate::block::{
    Block, blk_end, disjoint, block_in_range, views_inv, carve_seq, coalesce_seq, lemma_carve,
    lemma_coalesce, lemma_coalesce_free, lemma_order_chain, lemma_sum_empty, lemma_sum_singleton,
    lemma_sum_take_succ, lemma_sum_take_le, lemma_sum_nonneg, lemma_sum_bounds_element, sum_sizes,
    HEADER_SIZE, UNIT,
};

/// The failure a heap operation can report: no free block satisfies the
/// request. The heap itself stays usable after it.
#[derive(Clone, Copy, PartialEq, Eq, Structural, Debug)]
pub enum AllocError {
    OutOfMemory,
}

/// The full extent a request for `size` usable bytes occupies: its header
/// plus the size rounded up to the allocation granularity.
pub open spec fn full_size(size: int) -> int {
    HEADER_SIZE + round_up(size, UNIT as int)
}

/// The alignment actually used: requests below the granularity are served
/// at granularity alignment, which satisfies them.
pub open spec fn eff_align(align: int) -> int {
    if align < UNIT { UNIT as int } else { align }
}

/// The aligned user address a request would get out of the free block
/// starting at `baddr`: the first address past a header that satisfies
/// the alignment.
pub open spec fn user_start(baddr: int, align: int) -> int {
    round_up(baddr + HEADER_SIZE, eff_align(align))
}

/// The free block `b` can serve a request for `size` bytes at `align`
/// alignment: the aligned user region, front padding included, fits.
pub open spec fn fits(b: Block, size: int, align: int) -> bool {
    user_start(b.addr as int, align) + round_up(size, UNIT as int) <= blk_end(b)
}

/// Whether the free block `b` can serve the request; `rsize` and `a` are
/// the rounded-up size and effective alignment the caller has already
/// computed from `size` and `align`.
fn check_fit(b: Block, rsize: usize, a: usize, size: usize, align: usize) -> (r: bool)
    requires
        rsize == round_up(size as int, UNIT as int),
        a as int == eff_align(align as int),
        b.addr + b.size <= usize::MAX,
        b.addr + HEADER_SIZE <= usize::MAX,
    ensures
        r == fits(b, size as int, align as int),
{
    match try_round_up(b.addr + HEADER_SIZE, a) {
        None => false,
        Some(u) => match u.checked_add(rsize) {
            None => false,
            Some(t) => t <= b.addr + b.size,
        },
    }
}

/// A first-fit heap allocator over one contiguous byte region.
///
/// The region is bound once by [`Heap::init`]. Free memory is an
/// address-ordered list of blocks; allocated memory is tracked only in
/// ghost state, so a caller must hand `deallocate` the same size it gave
/// `allocate` (the triple reconstructs the block's extent).
pub struct Heap {
    start: usize,
    end: usize,
    free: Vec<Block>,
    mem: Vec<u8>,
    allocs: Ghost<Seq<Block>>,
}

impl Heap {
    /// First address of the managed region.
    pub closed spec fn heap_start(self) -> int {
        self.start as int
    }

    /// First address past the managed region.
    pub closed spec fn heap_end(self) -> int {
        self.end as int
    }

    /// The free blocks, in ascending address order.
    pub closed spec fn free_seq(self) -> Seq<Block> {
        self.free@
    }

    /// The currently allocated blocks (ghost bookkeeping only).
    pub closed spec fn alloc_seq(self) -> Seq<Block> {
        self.allocs@
    }

    /// The bytes of the managed region, indexed from `heap_start`.
    pub closed spec fn bytes(self) -> Seq<u8> {
        self.mem@
    }

    /// The byte stored at address `addr`.
    pub open spec fn byte_at(self, addr: int) -> u8 {
        self.bytes()[addr - self.heap_start()]
    }

    /// The heap has been bound to a non-empty region.
    pub open spec fn is_initialized(self) -> bool {
        self.heap_start() < self.heap_end()
    }

    /// The block whose user pointer is `ptr` is currently allocated and
    /// was requested with `size` usable bytes.
    pub open spec fn is_allocated(self, ptr: int, size: int) -> bool {
        exists|i: int|
            0 <= i < self.alloc_seq().len() && (#[trigger] self.alloc_seq()[i]).addr
                + HEADER_SIZE == ptr && self.alloc_seq()[i].size == full_size(size)
    }

    /// Address `addr` lies in the usable part of some allocated block.
    pub open spec fn allocated_byte(self, addr: int) -> bool {
        exists|i: int|
            0 <= i < self.alloc_seq().len() && (#[trigger] self.alloc_seq()[i]).addr
                + HEADER_SIZE <= addr < blk_end(self.alloc_seq()[i])
    }

    /// The heap's well-formedness invariant: the region is granular and
    /// consistent with its byte store; free blocks are address-ordered
    /// with gaps (maximally coalesced), in range and granular; allocated
    /// blocks are in range, granular, pairwise disjoint and disjoint from
    /// every free block; and free plus allocated bytes account for the
    /// whole region.
    pub closed spec fn inv(self) -> bool {
        &&& (self.start as int) % (UNIT as int) == 0
        &&& (self.end as int) % (UNIT as int) == 0
        &&& self.start <= self.end
        &&& self.mem@.len() == self.end - self.start
        &&& views_inv(self.free@, self.allocs@, self.start as int, self.end as int)
        &&& sum_sizes(self.free@) + sum_sizes(self.allocs@) == self.end - self.start
    }

    /// A heap bound to no region yet. Nothing can be allocated until
    /// `init` is called.
    pub fn empty() -> (h: Heap)
        ensures
            h.inv(),
            !h.is_initialized(),
            h.heap_start() == 0,
            h.heap_end() == 0,
            h.free_seq().len() == 0,
            h.alloc_seq().len() == 0,
    {
        let h = Heap {
            start: 0,
            end: 0,
            free: Vec::new(),
            mem: Vec::new(),
            allocs: Ghost(Seq::empty()),
        };
        proof {
            lemma_sum_empty();
        }
        h
    }

    /// Binds the heap to the region `[start, end)`. Must be called
    /// exactly once, before any other operation; the whole region becomes
    /// one free block.
    #[verifier::loop_isolation(false)]
    pub fn init(&mut self, start: usize, end: usize)
        requires
            old(self).inv(),
            !old(self).is_initialized(),
            (start as int) % (UNIT as int) == 0,
            (end as int) % (UNIT as int) == 0,
            start < end,
        ensures
            final(self).inv(),
            final(self).is_initialized(),
            final(self).heap_start() == start,
            final(self).heap_end() == end,
            final(self).alloc_seq().len() == 0,
            final(self).free_seq().len() == 1,
            final(self).free_seq()[0].addr == start,
            final(self).free_seq()[0].size == end - start,
            sum_sizes(final(self).free_seq()) == end - start,
            forall|a: int| start <= a < end ==> final(self).byte_at(a) == 0,
    {
        let size = end - start;
        self.start = start;
        self.end = end;
        let mut f: Vec<Block> = Vec::new();
        f.push(Block { addr: start, size });
        self.free = f;
        let mut m: Vec<u8> = Vec::new();
        while m.len() < size
            invariant
                m@.len() <= size,
                forall|k: int| 0 <= k < m@.len() ==> m@[k] == 0,
            decreases size - m@.len(),
        {
            m.push(0u8);
        }
        self.mem = m;
        self.allocs = Ghost(Seq::empty());
        proof {
            lemma_sum_empty();
            lemma_sum_singleton(Block { addr: start, size });
            assert(self.free@ =~= seq![Block { addr: start, size }]);
            lemma_multiple_diff(end as int, start as int, UNIT as int);
            lemma_multiple_ge(size as int, UNIT as int);
        }
    }

    /// Grows the managed region's upper bound to `new_end`. The new
    /// capacity is merged into the free block that ends exactly at the
    /// old boundary, if there is one; otherwise it becomes a new free
    /// block at the end of the list. The region never shrinks.
    #[verifier::loop_isolation(false)]
    #[verifier::rlimit(100)]
    pub fn extend(&mut self, new_end: usize)
        requires
            old(self).inv(),
            old(self).is_initialized(),
            (new_end as int) % (UNIT as int) == 0,
            new_end >= old(self).heap_end(),
        ensures
            final(self).inv(),
            final(self).is_initialized(),
            final(self).heap_start() == old(self).heap_start(),
            final(self).heap_end() == new_end,
            final(self).alloc_seq() == old(self).alloc_seq(),
            sum_sizes(final(self).free_seq()) == sum_sizes(old(self).free_seq()) + new_end - old(
                self,
            ).heap_end(),
            forall|x: int|
                old(self).heap_start() <= x < old(self).heap_end() ==> final(self).byte_at(x)
                    == old(self).byte_at(x),
    {
        if new_end == self.end {
            return ;
        }
        let old_end = self.end;
        let delta = new_end - old_end;
        let ghost s1 = self.free@;
        let ghost a1 = self.allocs@;
        let ghost m1 = self.mem@;
        let target = self.mem.len() + delta;
        while self.mem.len() < target
            invariant
                self.mem@.len() <= target,
                m1.len() <= self.mem@.len(),
                forall|t: int| 0 <= t < m1.len() ==> self.mem@[t] == m1[t],
                self.free@ == s1,
                self.allocs@ == a1,
                self.start == old(self).start,
                self.end == old(self).end,
            decreases target - self.mem@.len(),
        {
            self.mem.push(0u8);
        }
        let n = self.free.len();
        proof {
            if n > 0 {
                assert(block_in_range(s1[n as int - 1], self.start as int, self.end as int));
            }
            lemma_multiple_diff(new_end as int, old_end as int, UNIT as int);
            lemma_multiple_ge(delta as int, UNIT as int);
        }
        self.merge_free_block(n, old_end, delta);
        self.end = new_end;
        proof {
            let ext = Block { addr: old_end, size: delta };
            assert forall|i: int| 0 <= i < s1.len() implies block_in_range(
                #[trigger] s1[i],
                self.start as int,
                new_end as int,
            ) by {
                assert(block_in_range(s1[i], self.start as int, old_end as int));
            }
            lemma_coalesce_free(s1, self.start as int, new_end as int, s1.len() as int, ext);
            assert forall|t: int, m: int|
                0 <= t < self.free@.len() && 0 <= m < a1.len() implies disjoint(
                #[trigger] self.free@[t],
                #[trigger] a1[m],
            ) by {
                reveal(coalesce_seq);
                assert(block_in_range(a1[m], self.start as int, old_end as int));
                if t < n {
                    assert(disjoint(s1[t], a1[m]));
                }
            }
        }
    }

    /// Reads the byte at `addr`, which must lie in the usable part of an
    /// allocated block.
    pub fn read_byte(&self, addr: usize) -> (r: u8)
        requires
            self.inv(),
            self.allocated_byte(addr as int),
        ensures
            r == self.byte_at(addr as int),
    {
        proof {
            let ad = addr as int;
            let i = choose|i: int|
                0 <= i < self.alloc_seq().len() && (#[trigger] self.alloc_seq()[i]).addr
                    + HEADER_SIZE <= ad < blk_end(self.alloc_seq()[i]);
            assert(block_in_range(self.alloc_seq()[i], self.start as int, self.end as int));
        }
        self.mem[addr - self.start]
    }

    /// Writes `val` to the byte at `addr`, which must lie in the usable
    /// part of an allocated block; no other byte changes.
    pub fn write_byte(&mut self, addr: usize, val: u8)
        requires
            old(self).inv(),
            old(self).allocated_byte(addr as int),
        ensures
            final(self).inv(),
            final(self).heap_start() == old(self).heap_start(),
            final(self).heap_end() == old(self).heap_end(),
            final(self).free_seq() == old(self).free_seq(),
            final(self).alloc_seq() == old(self).alloc_seq(),
            final(self).byte_at(addr as int) == val,
            forall|x: int|
                old(self).heap_start() <= x < old(self).heap_end() && x != addr
                    ==> final(self).byte_at(x) == old(self).byte_at(x),
    {
        proof {
            let ad = addr as int;
            let i = choose|i: int|
                0 <= i < self.alloc_seq().len() && (#[trigger] self.alloc_seq()[i]).addr
                    + HEADER_SIZE <= ad < blk_end(self.alloc_seq()[i]);
            assert(block_in_range(self.alloc_seq()[i], self.start as int, self.end as int));
        }
        let i = addr - self.start;
        self.mem.set(i, val);
    }

    /// First address of the managed region.
    pub fn region_start(&self) -> (r: usize)
        ensures
            r == self.heap_start(),
    {
        self.start
    }

    /// First address past the managed region.
    pub fn region_end(&self) -> (r: usize)
        ensures
            r == self.heap_end(),
    {
        self.end
    }

    /// Number of blocks on the free list.
    pub fn free_block_count(&self) -> (r: usize)
        ensures
            r == self.free_seq().len(),
    {
        self.free.len()
    }

    /// Total free bytes (header space included): the sum of the free
    /// blocks' sizes.
    #[verifier::loop_isolation(false)]
    pub fn free_capacity(&self) -> (r: usize)
        requires
            self.inv(),
        ensures
            r == sum_sizes(self.free_seq()),
    {
        let mut total: usize = 0;
        let mut i: usize = 0;
        proof {
            lemma_sum_nonneg(self.allocs@);
        }
        while i < self.free.len()
            invariant
                i <= self.free@.len(),
                total == sum_sizes(self.free@.take(i as int)),
            decreases self.free@.len() - i,
        {
            proof {
                lemma_sum_take_succ(self.free@, i as int);
                lemma_sum_take_le(self.free@, i as int + 1);
            }
            total = total + self.free[i].size;
            i = i + 1;
        }
        proof {
            assert(self.free@.take(self.free@.len() as int) =~= self.free@);
        }
        total
    }

    /// Serves a request for `size` usable bytes at `align` alignment from
    /// the first free block (in address order) that can hold it, splitting
    /// off whatever front padding and tail remain as free blocks. Returns
    /// the aligned address just past the block's header, or
    /// `OutOfMemory` — leaving the heap untouched — exactly when no free
    /// block fits.
    #[verifier::loop_isolation(false)]
    pub fn allocate_first_fit(&mut self, size: usize, align: usize) -> (r: Result<
        usize,
        AllocError,
    >)
        requires
            old(self).inv(),
            is_pow2(align as int),
        ensures
            final(self).inv(),
            final(self).heap_start() == old(self).heap_start(),
            final(self).heap_end() == old(self).heap_end(),
            final(self).bytes() == old(self).bytes(),
            match r {
                Ok(p) => {
                    &&& (p as int) % (align as int) == 0
                    &&& old(self).heap_start() + HEADER_SIZE <= p
                    &&& p + round_up(size as int, UNIT as int) <= old(self).heap_end()
                    &&& exists|i: int|
                        {
                            &&& 0 <= i < old(self).free_seq().len()
                            &&& fits(#[trigger] old(self).free_seq()[i], size as int, align as int)
                            &&& (forall|k: int|
                                0 <= k < i ==> !fits(
                                    #[trigger] old(self).free_seq()[k],
                                    size as int,
                                    align as int,
                                ))
                            &&& p == user_start(
                                old(self).free_seq()[i].addr as int,
                                align as int,
                            )
                        }
                    &&& final(self).alloc_seq() == old(self).alloc_seq().push(
                        Block {
                            addr: (p - HEADER_SIZE) as usize,
                            size: full_size(size as int) as usize,
                        },
                    )
                    &&& final(self).is_allocated(p as int, size as int)
                    &&& sum_sizes(final(self).free_seq()) == sum_sizes(old(self).free_seq())
                        - full_size(size as int)
                }
                Err(e) => {
                    &&& e == AllocError::OutOfMemory
                    &&& *final(self) == *old(self)
                    &&& forall|k: int|
                        0 <= k < old(self).free_seq().len() ==> !fits(
                            #[trigger] old(self).free_seq()[k],
                            size as int,
                            align as int,
                        )
                },
            },
    {
        // A request so large that header plus rounding cannot be laid out
        // in the address space can never fit in any block.
        if size > usize::MAX - (HEADER_SIZE + UNIT - 1) {
            proof {
                lemma_huge_request_no_fit(self.free@, self.end as int, size as int, align as int);
            }
            return Err(AllocError::OutOfMemory);
        }
        let rsize = match try_round_up(size, UNIT) {
            Some(v) => v,
            None => {
                proof {
                    lemma_round_up(size as int, UNIT as int);
                }
                return Err(AllocError::OutOfMemory);
            },
        };
        proof {
            lemma_round_up(size as int, UNIT as int);
        }
        let a = if align < UNIT {
            UNIT
        } else {
            align
        };
        let mut idx: usize = 0;
        while idx < self.free.len() && !check_fit(self.free[idx], rsize, a, size, align)
            invariant
                idx <= self.free@.len(),
                forall|k: int|
                    0 <= k < idx ==> !fits(#[trigger] self.free@[k], size as int, align as int),
            decreases self.free@.len() - idx,
        {
            idx = idx + 1;
        }
        if idx == self.free.len() {
            return Err(AllocError::OutOfMemory);
        }
        let p = self.alloc_from(idx, size, align, rsize, a);
        Ok(p)
    }

    /// Carves the allocation out of the free block at `idx`, which the
    /// caller has already found to fit the request.
    #[verifier::rlimit(100)]
    fn alloc_from(&mut self, idx: usize, size: usize, align: usize, rsize: usize, a: usize) -> (p:
        usize)
        requires
            old(self).inv(),
            is_pow2(align as int),
            idx < old(self).free_seq().len(),
            rsize == round_up(size as int, UNIT as int),
            rsize <= usize::MAX - HEADER_SIZE,
            a as int == eff_align(align as int),
            fits(old(self).free_seq()[idx as int], size as int, align as int),
        ensures
            final(self).inv(),
            final(self).heap_start() == old(self).heap_start(),
            final(self).heap_end() == old(self).heap_end(),
            final(self).bytes() == old(self).bytes(),
            (p as int) % (align as int) == 0,
            old(self).heap_start() + HEADER_SIZE <= p,
            p + round_up(size as int, UNIT as int) <= old(self).heap_end(),
            p == user_start(old(self).free_seq()[idx as int].addr as int, align as int),
            final(self).alloc_seq() == old(self).alloc_seq().push(
                Block { addr: (p - HEADER_SIZE) as usize, size: full_size(size as int) as usize },
            ),
            final(self).is_allocated(p as int, size as int),
            sum_sizes(final(self).free_seq()) == sum_sizes(old(self).free_seq()) - full_size(
                size as int,
            ),
    {
        let full = HEADER_SIZE + rsize;
        let b = self.free[idx];
        let u = match try_round_up(b.addr + HEADER_SIZE, a) {
            Some(v) => v,
            None => {
                proof {
                    assert(false);
                }
                0
            },
        };
        let ghost s1 = self.free@;
        let ghost a1 = self.allocs@;
        proof {
            lemma_round_up(size as int, UNIT as int);
            lemma_round_up(b.addr + HEADER_SIZE, a as int);
            lemma_pow2_vs_8(align as int);
            if align >= UNIT {
                lemma_mod_self_0(align as int);
            }
            lemma_divides_transitive(u as int, a as int, UNIT as int);
            lemma_divides_transitive(u as int, a as int, align as int);
            lemma_multiple_diff(u as int, UNIT as int, UNIT as int);
            lemma_multiple_diff(u as int - UNIT, b.addr as int, UNIT as int);
            lemma_multiple_diff(rsize as int, UNIT as int, UNIT as int);
        }
        let pad = u - HEADER_SIZE - b.addr;
        let bstart = b.addr + pad;
        let nb = Block { addr: bstart, size: full };
        self.split_free_block(idx, pad, full);
        proof {
            lemma_carve(
                s1,
                a1,
                self.start as int,
                self.end as int,
                idx as int,
                pad as int,
                full as int,
            );
            self.allocs@ = a1.push(nb);
            assert(self.alloc_seq()[a1.len() as int] == nb);
        }
        u
    }

    /// Replaces the free block at `idx` by whatever front padding and tail
    /// remain around an allocation of `full` bytes taken `pad` bytes into
    /// it; pieces of size zero disappear.
    fn split_free_block(&mut self, idx: usize, pad: usize, full: usize)
        requires
            idx < old(self).free@.len(),
            pad + full <= old(self).free@[idx as int].size,
            blk_end(old(self).free@[idx as int]) <= usize::MAX,
        ensures
            final(self).free@ == carve_seq(old(self).free@, idx as int, pad as int, full as int),
            final(self).start == old(self).start,
            final(self).end == old(self).end,
            final(self).mem@ == old(self).mem@,
            final(self).allocs == old(self).allocs,
    {
        proof {
            reveal(carve_seq);
        }
        let n = self.free.len();
        let b = self.free[idx];
        let rest = b.size - (pad + full);
        proof {
            assert(idx < n);
        }
        if pad > 0 {
            self.free.set(idx, Block { addr: b.addr, size: pad });
            if rest > 0 {
                self.free.insert(idx + 1, Block { addr: b.addr + pad + full, size: rest });
            }
        } else {
            if rest > 0 {
                self.free.set(idx, Block { addr: b.addr + pad + full, size: rest });
            } else {
                self.free.remove(idx);
            }
        }
    }

    /// Inserts the freed extent `[bstart, bstart + fullsz)` into the free
    /// list at position `j`, merging it with the block that ends exactly
    /// at `bstart` and/or the one that starts exactly at its end.
    fn merge_free_block(&mut self, j: usize, bstart: usize, fullsz: usize)
        requires
            j <= old(self).free@.len(),
            bstart + fullsz <= usize::MAX,
            j > 0 ==> blk_end(old(self).free@[j - 1]) <= bstart,
            j < old(self).free@.len() ==> bstart + fullsz <= old(self).free@[j as int].addr,
            j < old(self).free@.len() ==> blk_end(old(self).free@[j as int]) <= usize::MAX,
        ensures
            final(self).free@ == coalesce_seq(
                old(self).free@,
                j as int,
                Block { addr: bstart, size: fullsz },
            ),
            final(self).start == old(self).start,
            final(self).end == old(self).end,
            final(self).mem@ == old(self).mem@,
            final(self).allocs == old(self).allocs,
    {
        proof {
            reveal(coalesce_seq);
        }
        let n = self.free.len();
        let mut merge_prev = false;
        if j > 0 {
            let pb = self.free[j - 1];
            if pb.addr + pb.size == bstart {
                merge_prev = true;
            }
        }
        let mut merge_next = false;
        if j < n {
            if bstart + fullsz == self.free[j].addr {
                merge_next = true;
            }
        }
        if merge_prev && merge_next {
            let pb = self.free[j - 1];
            let nx = self.free[j];
            self.free.set(j - 1, Block { addr: pb.addr, size: pb.size + fullsz + nx.size });
            self.free.remove(j);
        } else if merge_prev {
            let pb = self.free[j - 1];
            self.free.set(j - 1, Block { addr: pb.addr, size: pb.size + fullsz });
        } else if merge_next {
            let nx = self.free[j];
            self.free.set(j, Block { addr: bstart, size: fullsz + nx.size });
        } else {
            self.free.insert(j, Block { addr: bstart, size: fullsz });
        }
    }

    /// Gives the block whose user pointer is `ptr` back to the heap. The
    /// caller must pass the same `size` (and `align`) it gave `allocate`:
    /// the pair reconstructs the block's extent, since the heap keeps no
    /// table of allocated blocks. The freed extent re-enters the free
    /// list at its address-sorted position and is merged with any free
    /// block that touches it, so the list stays maximally coalesced.
    #[verifier::loop_isolation(false)]
    #[verifier::rlimit(100)]
    pub fn deallocate(&mut self, ptr: usize, size: usize, _align: usize)
        requires
            old(self).inv(),
            old(self).is_allocated(ptr as int, size as int),
        ensures
            final(self).inv(),
            final(self).heap_start() == old(self).heap_start(),
            final(self).heap_end() == old(self).heap_end(),
            final(self).bytes() == old(self).bytes(),
            !final(self).is_allocated(ptr as int, size as int),
            exists|k: int|
                {
                    &&& 0 <= k < old(self).alloc_seq().len()
                    &&& (#[trigger] old(self).alloc_seq()[k]).addr + HEADER_SIZE == ptr
                    &&& old(self).alloc_seq()[k].size == full_size(size as int)
                    &&& final(self).alloc_seq() == old(self).alloc_seq().remove(k)
                },
            forall|q: int, sz: int|
                #[trigger] old(self).is_allocated(q, sz) && q != ptr ==> final(self).is_allocated(
                    q,
                    sz,
                ),
            sum_sizes(final(self).free_seq()) == sum_sizes(old(self).free_seq()) + full_size(
                size as int,
            ),
    {
        let ghost k = choose|k: int|
            0 <= k < self.alloc_seq().len() && (#[trigger] self.alloc_seq()[k]).addr + HEADER_SIZE
                == ptr && self.alloc_seq()[k].size == full_size(size as int);
        let ghost ext = self.alloc_seq()[k];
        proof {
            assert(block_in_range(ext, self.start as int, self.end as int));
        }
        let bstart = ptr - HEADER_SIZE;
        let rsize = match try_round_up(size, UNIT) {
            Some(v) => v,
            None => {
                proof {
                    assert(false);
                }
                return ;
            },
        };
        let fullsz = HEADER_SIZE + rsize;
        proof {
            assert(fullsz == ext.size);
            assert(bstart == ext.addr);
        }
        let mut j: usize = 0;
        while j < self.free.len() && self.free[j].addr < bstart
            invariant
                j <= self.free@.len(),
                forall|t: int| 0 <= t < j ==> (#[trigger] self.free@[t]).addr < bstart,
            decreases self.free@.len() - j,
        {
            j = j + 1;
        }
        let ghost s1 = self.free@;
        let ghost a1 = self.allocs@;
        proof {
            if j > 0 {
                assert(block_in_range(s1[j as int - 1], self.start as int, self.end as int));
                assert(disjoint(s1[j as int - 1], ext));
            }
            if j < s1.len() {
                assert(block_in_range(s1[j as int], self.start as int, self.end as int));
                assert(disjoint(s1[j as int], ext));
            }
        }
        self.merge_free_block(j, bstart, fullsz);
        proof {
            assert(self.free@ == coalesce_seq(s1, j as int, ext));
            lemma_coalesce(s1, a1, self.start as int, self.end as int, j as int, k);
            self.allocs@ = a1.remove(k);
            assert forall|i: int| 0 <= i < self.alloc_seq().len() implies !((
            #[trigger] self.alloc_seq()[i]).addr + HEADER_SIZE == ptr && self.alloc_seq()[i].size
                == full_size(size as int)) by {
                let io = if i < k {
                    i
                } else {
                    i + 1
                };
                assert(self.alloc_seq()[i] == a1[io]);
                if a1[io].addr + HEADER_SIZE == ptr {
                    assert(block_in_range(a1[io], self.start as int, self.end as int));
                    assert(disjoint(a1[io], a1[k]));
                }
            }
            assert forall|q: int, sz: int|
                #[trigger] old(self).is_allocated(q, sz) && q != ptr implies self.is_allocated(
                q,
                sz,
            ) by {
                let i = choose|i: int|
                    0 <= i < a1.len() && (#[trigger] a1[i]).addr + HEADER_SIZE == q && a1[i].size
                        == full_size(sz);
                let i2 = if i < k {
                    i
                } else {
                    i - 1
                };
                assert(self.alloc_seq()[i2] == a1[i]);
            }
        }
    }

    /// Resizes the block at `ptr` (allocated with `size` bytes) to
    /// `new_size` bytes by allocating a new block, copying the first
    /// `min(size, new_size)` bytes, and only then freeing the old block.
    /// On `OutOfMemory` the heap — the old block and its contents
    /// included — is left exactly as it was.
    #[verifier::loop_isolation(false)]
    #[verifier::rlimit(100)]
    pub fn reallocate(&mut self, ptr: usize, size: usize, new_size: usize, align: usize) -> (r:
        Result<usize, AllocError>)
        requires
            old(self).inv(),
            is_pow2(align as int),
            old(self).is_allocated(ptr as int, size as int),
        ensures
            final(self).inv(),
            final(self).heap_start() == old(self).heap_start(),
            final(self).heap_end() == old(self).heap_end(),
            match r {
                Ok(p) => {
                    &&& (p as int) % (align as int) == 0
                    &&& p != ptr
                    &&& final(self).is_allocated(p as int, new_size as int)
                    &&& !final(self).is_allocated(ptr as int, size as int)
                    &&& forall|t: int|
                        0 <= t < (if size < new_size { size as int } else { new_size as int })
                            ==> #[trigger] final(self).byte_at(p + t) == old(self).byte_at(ptr + t)
                    &&& sum_sizes(final(self).free_seq()) == sum_sizes(old(self).free_seq())
                        + full_size(size as int) - full_size(new_size as int)
                    &&& final(self).alloc_seq().len() == old(self).alloc_seq().len()
                }
                Err(e) => {
                    &&& e == AllocError::OutOfMemory
                    &&& *final(self) == *old(self)
                    &&& forall|k: int|
                        0 <= k < old(self).free_seq().len() ==> !fits(
                            #[trigger] old(self).free_seq()[k],
                            new_size as int,
                            align as int,
                        )
                },
            },
    {
        let p = match self.allocate_first_fit(new_size, align) {
            Ok(p) => p,
            Err(e) => {
                return Err(e);
            },
        };
        let ghost a2 = self.allocs@;
        let ghost k = choose|k: int|
            0 <= k < old(self).alloc_seq().len() && (#[trigger] old(self).alloc_seq()[k]).addr
                + HEADER_SIZE == ptr && old(self).alloc_seq()[k].size == full_size(size as int);
        proof {
            assert(self.alloc_seq()[k] == old(self).alloc_seq()[k]);
            assert(self.alloc_seq()[a2.len() - 1].addr + HEADER_SIZE == p);
            assert(k != a2.len() - 1);
            assert(disjoint(a2[k], a2[a2.len() - 1]));
            assert(block_in_range(a2[k], self.start as int, self.end as int));
            assert(block_in_range(a2[a2.len() - 1], self.start as int, self.end as int));
            lemma_round_up(size as int, UNIT as int);
            lemma_round_up(new_size as int, UNIT as int);
        }
        let m = if size < new_size {
            size
        } else {
            new_size
        };
        let ghost f2 = self.free@;
        let ghost m2 = self.mem@;
        proof {
            assert(self.start + HEADER_SIZE <= ptr);
            assert(ptr + m <= self.end);
            assert(p + m <= self.end);
            assert(p + m <= ptr || ptr + m <= p);
        }
        let mut i: usize = 0;
        while i < m
            invariant
                i <= m,
                self.free@ == f2,
                self.allocs@ == a2,
                self.start == old(self).start,
                self.end == old(self).end,
                self.mem@.len() == m2.len(),
                self.start + HEADER_SIZE <= ptr,
                self.start + HEADER_SIZE <= p,
                ptr + m <= self.end,
                p + m <= self.end,
                m2.len() == self.end - self.start,
                p + m <= ptr || ptr + m <= p,
                forall|t: int|
                    0 <= t < i ==> #[trigger] self.mem@[p - self.start + t] == m2[ptr - self.start
                        + t],
                forall|t: int|
                    0 <= t < self.mem@.len() && !(p - self.start <= t < p - self.start + i)
                        ==> self.mem@[t] == m2[t],
            decreases m - i,
        {
            let v = self.mem[ptr - self.start + i];
            self.mem.set(p - self.start + i, v);
            i = i + 1;
        }
        let ghost mid = *self;
        proof {
            assert(mid.is_allocated(ptr as int, size as int)) by {
                assert(mid.alloc_seq()[k] == old(self).alloc_seq()[k]);
            }
            assert(mid.is_allocated(p as int, new_size as int)) by {
                assert(mid.alloc_seq()[a2.len() - 1] == a2[a2.len() - 1]);
            }
            assert(p != ptr);
        }
        self.deallocate(ptr, size, align);
        proof {
            assert(mid.is_allocated(p as int, new_size as int));
            assert forall|t: int| 0 <= t < m implies #[trigger] self.byte_at(p + t) == old(
                self,
            ).byte_at(ptr + t) by {
                assert(mid.mem@[p - mid.heap_start() + t] == m2[ptr - mid.heap_start() + t]);
            }
        }
        Ok(p)
    }

    /// This allocator never grows a block in place: a resize that may not
    /// move the data can only confirm the unchanged size.
    pub fn reallocate_in_place(&self, _ptr: usize, size: usize, _new_size: usize, _align: usize) -> (r:
        usize)
        ensures
            r == size,
    {
        size
    }
}

/// This allocator never over-allocates, so the usable size of a block
/// equals the requested size.
pub fn usable_size(size: usize, _align: usize) -> (r: usize)
    ensures
        r == size,
{
    size
}

/// A request larger than the address space minus layout overhead can
/// never be served: no free block ending inside the region can hold it.
proof fn lemma_huge_request_no_fit(s: Seq<Block>, hi: int, size: int, align: int)
    requires
        forall|i: int| 0 <= i < s.len() ==> blk_end(#[trigger] s[i]) <= hi,
        0 <= hi <= usize::MAX,
        hi % (UNIT as int) == 0,
        size > usize::MAX - (HEADER_SIZE + UNIT - 1),
    ensures
        forall|k: int| 0 <= k < s.len() ==> !fits(#[trigger] s[k], size, align),
{
    lemma_multiple_of_8_below_max(hi);
    assert forall|k: int| 0 <= k < s.len() implies !fits(#[trigger] s[k], size, align) by {
        let b = s[k];
        lemma_round_up(size, UNIT as int);
        lemma_round_up(b.addr + HEADER_SIZE, eff_align(align));
    }
}

/// Every byte in the usable part of an allocated block may be read and
/// written: a block allocated for `size` bytes at user pointer `ptr`
/// covers at least `[ptr, ptr + size)`.
pub proof fn lemma_allocated_bytes(h: Heap, ptr: int, size: int, addr: int)
    requires
        h.is_allocated(ptr, size),
        0 <= size,
        ptr <= addr < ptr + size,
    ensures
        h.allocated_byte(addr),
{
    let i = choose|i: int|
        0 <= i < h.alloc_seq().len() && (#[trigger] h.alloc_seq()[i]).addr + HEADER_SIZE == ptr
            && h.alloc_seq()[i].size == full_size(size);
    lemma_round_up(size, UNIT as int);
    assert(h.alloc_seq()[i].addr + HEADER_SIZE <= addr < blk_end(h.alloc_seq()[i]));
}

/// Exhaustion: a request whose full layout exceeds the total free
/// capacity fits no free block, so `allocate_first_fit` reports
/// `OutOfMemory` and leaves the heap unchanged.
pub proof fn lemma_exhaustion(h: Heap, size: int, align: int)
    requires
        h.inv(),
        0 <= size,
        full_size(size) > sum_sizes(h.free_seq()),
    ensures
        forall|k: int| 0 <= k < h.free_seq().len() ==> !fits(#[trigger] h.free_seq()[k], size, align),
{
    assert forall|k: int| 0 <= k < h.free_seq().len() implies !fits(
        #[trigger] h.free_seq()[k],
        size,
        align,
    ) by {
        let b = h.free_seq()[k];
        lemma_sum_bounds_element(h.free_seq(), k);
        lemma_round_up(b.addr + HEADER_SIZE, eff_align(align));
    }
}

/// No-overlap: all currently allocated extents are pairwise disjoint and
/// lie within the managed region.
pub proof fn lemma_no_overlap(h: Heap)
    requires
        h.inv(),
    ensures
        forall|i: int, j: int|
            0 <= i < h.alloc_seq().len() && 0 <= j < h.alloc_seq().len() && i != j ==> disjoint(
                #[trigger] h.alloc_seq()[i],
                #[trigger] h.alloc_seq()[j],
            ),
        forall|i: int|
            0 <= i < h.alloc_seq().len() ==> h.heap_start() <= (#[trigger] h.alloc_seq()[i]).addr
                && blk_end(h.alloc_seq()[i]) <= h.heap_end(),
{
}

/// Conservation: free bytes plus allocated bytes (headers included on
/// both sides) always equal the size of the managed region.
pub proof fn lemma_conservation(h: Heap)
    requires
        h.inv(),
    ensures
        sum_sizes(h.free_seq()) + sum_sizes(h.alloc_seq()) == h.heap_end() - h.heap_start(),
{
}

/// Coalescing: the free list never holds two blocks that touch; after
/// every operation any two free blocks are separated by allocated bytes.
#[verifier::rlimit(50)]
pub proof fn lemma_fully_coalesced(h: Heap)
    requires
        h.inv(),
    ensures
        forall|i: int, j: int|
            #![trigger h.free_seq()[i], h.free_seq()[j]]
            0 <= i < h.free_seq().len() && 0 <= j < h.free_seq().len() && i != j ==> blk_end(
                h.free_seq()[i],
            ) < h.free_seq()[j].addr || blk_end(h.free_seq()[j]) < h.free_seq()[i].addr,
{
    assert forall|i: int, j: int|
        #![trigger h.free_seq()[i], h.free_seq()[j]]
        0 <= i < h.free_seq().len() && 0 <= j < h.free_seq().len() && i != j implies blk_end(
        h.free_seq()[i],
    ) < h.free_seq()[j].addr || blk_end(h.free_seq()[j]) < h.free_seq()[i].addr by {
        if i < j {
            lemma_order_chain(h.free_seq(), i, j);
        } else {
            lemma_order_chain(h.free_seq(), j, i);
        }
    }
}

} // verus!
