use alloc_cortex_m::heap::{AllocError, Heap};

#[test]
fn init_single_free_block() {
    let mut h = Heap::empty();
    h.init(0, 1024);
    assert_eq!(h.free_block_count(), 1);
    assert_eq!(h.free_capacity(), 1024);
}

#[test]
fn empty_heap_has_no_capacity() {
    let mut h = Heap::empty();
    assert_eq!(h.free_block_count(), 0);
    assert!(h.allocate_first_fit(1, 1).is_err());
}

#[test]
fn scenario_first_fit_reuses_freed_block() {
    // heap of 1024 bytes; allocate 100, 200, 300; free the 200-byte
    // block; a 150-byte request must reuse its space, the first block in
    // address order that fits, not the untouched tail of the heap.
    let mut h = Heap::empty();
    h.init(0, 1024);
    let a = h.allocate_first_fit(100, 1).unwrap();
    let b = h.allocate_first_fit(200, 1).unwrap();
    let c = h.allocate_first_fit(300, 1).unwrap();
    assert_eq!(a, 8);
    assert_eq!(b, 120);
    assert_eq!(c, 328);
    h.deallocate(b, 200, 1);
    let d = h.allocate_first_fit(150, 1).unwrap();
    assert_eq!(d, b);
}

#[test]
fn alignment_is_respected() {
    let mut h = Heap::empty();
    h.init(0, 4096);
    let mut live: Vec<(usize, usize)> = Vec::new();
    for align in [1usize, 2, 4, 8, 16, 32, 64, 128] {
        let p = h.allocate_first_fit(10, align).unwrap();
        assert_eq!(p % align, 0);
        live.push((p, align));
    }
    for (p, align) in live {
        h.deallocate(p, 10, align);
    }
    assert_eq!(h.free_block_count(), 1);
    assert_eq!(h.free_capacity(), 4096);
}

#[test]
fn coalesce_free_in_allocation_order() {
    let mut h = Heap::empty();
    h.init(0, 1024);
    let a = h.allocate_first_fit(96, 8).unwrap();
    let b = h.allocate_first_fit(96, 8).unwrap();
    // the two blocks are contiguous: each occupies 96 + 8 header bytes
    assert_eq!(b, a + 104);
    h.deallocate(a, 96, 8);
    assert_eq!(h.free_block_count(), 2);
    h.deallocate(b, 96, 8);
    assert_eq!(h.free_block_count(), 1);
    assert_eq!(h.free_capacity(), 1024);
}

#[test]
fn coalesce_free_in_reverse_order() {
    let mut h = Heap::empty();
    h.init(0, 1024);
    let a = h.allocate_first_fit(96, 8).unwrap();
    let b = h.allocate_first_fit(96, 8).unwrap();
    h.deallocate(b, 96, 8);
    assert_eq!(h.free_block_count(), 1);
    h.deallocate(a, 96, 8);
    assert_eq!(h.free_block_count(), 1);
    assert_eq!(h.free_capacity(), 1024);
}

#[test]
fn exhaustion_fails_and_leaves_heap_usable() {
    let mut h = Heap::empty();
    h.init(0, 256);
    let r = h.allocate_first_fit(1000, 1);
    assert_eq!(r, Err(AllocError::OutOfMemory));
    assert_eq!(h.free_capacity(), 256);
    assert_eq!(h.free_block_count(), 1);
    let p = h.allocate_first_fit(64, 1).unwrap();
    assert_eq!(p, 8);
}

#[test]
fn reallocate_preserves_data_when_growing() {
    let mut h = Heap::empty();
    h.init(0, 1024);
    let p = h.allocate_first_fit(16, 1).unwrap();
    for i in 0..16usize {
        h.write_byte(p + i, (i as u8).wrapping_mul(3));
    }
    let q = h.reallocate(p, 16, 32, 1).unwrap();
    assert_ne!(q, p);
    for i in 0..16usize {
        assert_eq!(h.read_byte(q + i), (i as u8).wrapping_mul(3));
    }
}

#[test]
fn reallocate_preserves_data_when_shrinking() {
    let mut h = Heap::empty();
    h.init(0, 1024);
    let p = h.allocate_first_fit(16, 1).unwrap();
    for i in 0..16usize {
        h.write_byte(p + i, 0xa0u8.wrapping_add(i as u8));
    }
    let q = h.reallocate(p, 16, 8, 1).unwrap();
    for i in 0..8usize {
        assert_eq!(h.read_byte(q + i), 0xa0u8.wrapping_add(i as u8));
    }
}

#[test]
fn reallocate_failure_keeps_original_block_intact() {
    let mut h = Heap::empty();
    h.init(0, 256);
    let p = h.allocate_first_fit(64, 1).unwrap();
    for i in 0..64usize {
        h.write_byte(p + i, (i as u8) ^ 0x5a);
    }
    // exhaust the remaining capacity
    let q = h.allocate_first_fit(160, 1).unwrap();
    let r = h.reallocate(p, 64, 200, 1);
    assert_eq!(r, Err(AllocError::OutOfMemory));
    for i in 0..64usize {
        assert_eq!(h.read_byte(p + i), (i as u8) ^ 0x5a);
    }
    // the old block is still valid and can be freed normally
    h.deallocate(q, 160, 1);
    h.deallocate(p, 64, 1);
    assert_eq!(h.free_capacity(), 256);
    assert_eq!(h.free_block_count(), 1);
}

#[test]
fn extend_merges_into_trailing_free_block() {
    let mut h = Heap::empty();
    h.init(0, 256);
    let p = h.allocate_first_fit(240, 1).unwrap();
    assert!(h.allocate_first_fit(16, 1).is_err());
    h.extend(512);
    assert_eq!(h.free_block_count(), 1);
    assert_eq!(h.free_capacity(), 264);
    let q = h.allocate_first_fit(16, 1).unwrap();
    assert_eq!(q % 8, 0);
    h.deallocate(q, 16, 1);
    h.deallocate(p, 240, 1);
    assert_eq!(h.free_capacity(), 512);
}

#[test]
fn extend_adds_new_block_when_boundary_is_allocated() {
    let mut h = Heap::empty();
    h.init(0, 64);
    let p = h.allocate_first_fit(56, 1).unwrap();
    assert_eq!(h.free_block_count(), 0);
    h.extend(128);
    assert_eq!(h.free_block_count(), 1);
    assert_eq!(h.free_capacity(), 64);
    h.deallocate(p, 56, 1);
    assert_eq!(h.free_block_count(), 1);
    assert_eq!(h.free_capacity(), 128);
}

#[test]
fn nonzero_start_address() {
    let mut h = Heap::empty();
    h.init(1024, 2048);
    let p = h.allocate_first_fit(32, 16).unwrap();
    assert!(p >= 1024 + 8);
    assert_eq!(p % 16, 0);
    h.write_byte(p, 7);
    assert_eq!(h.read_byte(p), 7);
    h.deallocate(p, 32, 16);
    assert_eq!(h.free_capacity(), 1024);
}

#[test]
fn zero_sized_allocation_round_trips() {
    let mut h = Heap::empty();
    h.init(0, 128);
    let p = h.allocate_first_fit(0, 1).unwrap();
    assert_eq!(p, 8);
    assert_eq!(h.free_capacity(), 120);
    h.deallocate(p, 0, 1);
    assert_eq!(h.free_capacity(), 128);
}

#[test]
fn usable_size_is_identity() {
    assert_eq!(alloc_cortex_m::heap::usable_size(100, 8), 100);
    assert_eq!(alloc_cortex_m::heap::usable_size(0, 1), 0);
}

#[test]
fn reallocate_in_place_confirms_unchanged_size() {
    let mut h = Heap::empty();
    h.init(0, 128);
    let p = h.allocate_first_fit(24, 1).unwrap();
    assert_eq!(h.reallocate_in_place(p, 24, 48, 1), 24);
    assert_eq!(h.reallocate_in_place(p, 24, 8, 1), 24);
}
