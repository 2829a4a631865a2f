//! The bump allocator.

use forst_rs::arena::{align_padding, Arena, DEFAULT_BLOCK_SIZE};

#[test]
fn test_new_arena_empty() {
    let arena = Arena::new();
    assert_eq!(arena.memory_usage(), 0);
    assert_eq!(arena.block_count(), 0);
}

#[test]
fn test_small_allocation() {
    let mut arena = Arena::new();
    let slice = arena.allocate(10);
    assert_eq!(slice.len(), 10);
    assert!(slice.iter().all(|&b| b == 0));
    slice[0] = 42;
    assert_eq!(slice[0], 42);
}

#[test]
fn test_zero_allocation() {
    let mut arena = Arena::new();
    let slice = arena.allocate(0);
    assert_eq!(slice.len(), 0);
    assert_eq!(arena.memory_usage(), 0);
}

#[test]
fn test_multiple_small_allocations_same_block() {
    let mut arena = Arena::with_block_size(1024);
    let _a = arena.allocate(100);
    let _b = arena.allocate(100);
    let _c = arena.allocate(100);
    assert_eq!(arena.block_count(), 1);
    assert_eq!(arena.memory_usage(), 1024);
}

#[test]
fn test_allocation_exceeds_block_triggers_new_block() {
    let mut arena = Arena::with_block_size(256);
    let _a = arena.allocate(200);
    let _b = arena.allocate(100);
    assert!(arena.block_count() >= 2);
}

#[test]
fn test_oversized_allocation() {
    let mut arena = Arena::with_block_size(256);
    let slice = arena.allocate(1024);
    assert_eq!(slice.len(), 1024);
    assert!(arena.memory_usage() >= 1024);
}

#[test]
fn test_allocations_are_independent() {
    let mut arena = Arena::new();
    let a = arena.allocate(4);
    a.copy_from_slice(&[1, 2, 3, 4]);

    let b = arena.allocate(4);
    b.copy_from_slice(&[5, 6, 7, 8]);

}

#[test]
fn test_aligned_allocation() {
    let mut arena = Arena::with_block_size(4096);
    let _a = arena.allocate(1);
    let b = arena.allocate_aligned(16, 8);
    let ptr = b.as_ptr() as usize;
    assert_eq!(ptr % 8, 0, "allocation should be 8-byte aligned");
    assert_eq!(b.len(), 16);
}

#[test]
fn test_aligned_allocation_zero_size() {
    let mut arena = Arena::new();
    let slice = arena.allocate_aligned(0, 8);
    assert_eq!(slice.len(), 0);
}



#[test]
fn test_memory_usage_tracking() {
    let mut arena = Arena::with_block_size(1024);
    assert_eq!(arena.memory_usage(), 0);

    arena.allocate(100);
    assert_eq!(arena.memory_usage(), 1024);

    arena.allocate(2000);
    assert_eq!(arena.memory_usage(), 1024 + 2000);
}

#[test]
fn test_default_block_size() {
    let arena = Arena::default();
    assert_eq!(arena.block_size, DEFAULT_BLOCK_SIZE);
}

#[test]
fn test_many_small_allocations() {
    let mut arena = Arena::with_block_size(1024);
    for _ in 0..1000 {
        let s = arena.allocate(8);
        assert_eq!(s.len(), 8);
    }
    assert!(arena.block_count() >= 8);
}

#[test]
fn padding_leads_to_the_next_multiple() {
    assert_eq!(align_padding(0, 8), 0);
    assert_eq!(align_padding(1, 8), 7);
    assert_eq!(align_padding(8, 8), 0);
    assert_eq!(align_padding(13, 4), 3);
    assert_eq!(align_padding(5, 1), 0);
}

#[test]
fn later_allocations_leave_earlier_bytes_alone() {
    let mut arena = Arena::with_block_size(64);
    arena.allocate(4).copy_from_slice(&[1, 2, 3, 4]);
    let later = arena.allocate(4);
    assert_eq!(later, &[0, 0, 0, 0]);
    let after = arena.allocate_aligned(8, 16);
    assert_eq!(after.len(), 8);
    assert!(after.iter().all(|&b| b == 0));
    assert_eq!(arena.block_count(), 1);
}

#[test]
fn a_block_of_its_own_is_for_requests_above_the_block_size() {
    let mut arena = Arena::with_block_size(1024);
    arena.allocate(300);
    assert_eq!(arena.block_count(), 1);
    assert_eq!(arena.memory_usage(), 1024);
    arena.allocate(724);
    assert_eq!(arena.block_count(), 1);
    arena.allocate(1024);
    assert_eq!(arena.block_count(), 2);
    assert_eq!(arena.memory_usage(), 2048);
    arena.allocate(1025);
    assert_eq!(arena.block_count(), 3);
    assert_eq!(arena.memory_usage(), 2048 + 1025);
}

#[test]
fn aligned_bytes_are_aligned_in_every_block() {
    let mut arena = Arena::with_block_size(128);
    let mut align = 1;
    while align <= 4096 {
        for size in [1, 7, 64, 120, 128, 300] {
            let bytes = arena.allocate_aligned(size, align);
            assert_eq!(bytes.as_ptr() as usize % align, 0);
            assert_eq!(bytes.len(), size);
            assert!(bytes.iter().all(|&b| b == 0));
            bytes[0] = 9;
            bytes[size - 1] = 9;
            arena.allocate(1)[0] = 5;
        }
        align *= 2;
    }
}

#[test]
fn an_aligned_request_that_does_not_fit_gets_room_for_its_padding() {
    let mut arena = Arena::with_block_size(64);
    let first = arena.allocate_aligned(64, 32);
    assert_eq!(first.as_ptr() as usize % 32, 0);
    assert_eq!(arena.block_count(), 1);
    assert_eq!(arena.memory_usage(), 64 + 31);
}
