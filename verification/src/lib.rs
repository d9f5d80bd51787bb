//! A first-fit heap allocator with an address-ordered free list.
//!
//! The allocator manages one contiguous byte range, bound once by `init`.
//! Free memory is tracked as a list of blocks kept in ascending address
//! order; allocation searches that list first-fit, splitting a block when
//! it is larger than the request, and deallocation re-inserts the block at
//! its address-sorted position and merges it with adjacent free blocks.
//! Every operation is proved to preserve the heap's core invariants: free
//! and allocated extents are pairwise disjoint, lie inside the managed
//! range, and together account for every byte of it.

pub mod arith;
pub mod block;
pub mod heap;
