use mm_alloc::block::MEMORY_ALIGNMENT;
use mm_alloc::block::SIZE_OF_MEMORY_HEADER;
use mm_alloc::heap::Allocator;

#[test]
fn test_malloc_basic() {
    let mut heap = Allocator::new();
    let ptr = heap.mm_malloc(16);
    assert!(ptr != 0, "malloc returned null on valid input");

    // Check that memory is zeroed
    for i in 0..16 {
        assert_eq!(heap.read_byte(ptr + i), 0, "allocated memory not zero-filled");
    }

    heap.mm_free(ptr);
}

#[test]
fn test_malloc_2_times_without_initialization() {
    let mut heap = Allocator::new();
    let ptr_0 = heap.mm_malloc(16);
    heap.mm_free(ptr_0);
    let ptr_1 = heap.mm_malloc(16);
    assert!(ptr_1 != 0, "malloc returned null on valid input");

    // Check that memory is zeroed
    for i in 0..16 {
        assert_eq!(heap.read_byte(ptr_1 + i), 0, "allocated memory not zero-filled");
    }
    assert_eq!(ptr_0, ptr_1);
    heap.mm_free(ptr_1);
}

#[test]
fn test_malloc_split_space() {
    let mut heap = Allocator::new();
    let memory_alloced_in_ptr1 = 8;
    let ptr_0 = heap.mm_malloc(256);
    heap.mm_free(ptr_0);
    let ptr_1 = heap.mm_malloc(memory_alloced_in_ptr1);
    assert!(ptr_1 != 0, "malloc returned null on valid input");
    assert_eq!(ptr_0, ptr_1);
    for i in 0..memory_alloced_in_ptr1 {
        assert_eq!(heap.read_byte(ptr_1 + i), 0, "allocated memory not zero-filled");
    }
    let ptr_2 = heap.mm_malloc(8);
    let correct_position_ptr = ptr_1 + memory_alloced_in_ptr1 + SIZE_OF_MEMORY_HEADER;
    assert_eq!(ptr_2, correct_position_ptr);
    for i in 0..8 {
        assert_eq!(heap.read_byte(ptr_2 + i), 0, "allocated memory not zero-filled");
    }
}

#[test]
fn test_malloc_2_times() {
    let mut heap = Allocator::new();
    let ptr_0 = heap.mm_malloc(16);
    heap.write_byte(ptr_0, 255);
    let ptr_1 = heap.mm_malloc(16);
    assert!(ptr_1 != 0, "malloc returned null on valid input");

    // Check that memory is zeroed
    for i in 0..16 {
        assert_eq!(heap.read_byte(ptr_1 + i), 0, "allocated memory not zero-filled");
    }

    heap.mm_free(ptr_0);
    heap.mm_free(ptr_1);
}

#[test]
fn test_malloc_zero_size() {
    let mut heap = Allocator::new();
    let ptr = heap.mm_malloc(0);
    assert!(ptr == 0, "malloc of size 0 should return null");
}

#[test]
fn test_free_null() {
    let mut heap = Allocator::new();
    heap.mm_free(0); // should not crash or panic
}

#[test]
fn test_realloc_expand() {
    let mut heap = Allocator::new();
    let ptr1 = heap.mm_malloc(8);
    assert!(ptr1 != 0);

    // Fill with values
    for i in 0..8 {
        heap.write_byte(ptr1 + i, i as u8);
    }

    let ptr2 = heap.mm_realloc(ptr1, 16);
    assert!(ptr2 != 0);

    // Check preserved values
    for i in 0..8 {
        assert_eq!(heap.read_byte(ptr2 + i), i as u8, "realloc lost data");
    }

    heap.mm_free(ptr2);
}

#[test]
fn test_realloc_to_zero() {
    let mut heap = Allocator::new();
    let ptr = heap.mm_malloc(10);
    assert!(ptr != 0);

    let new_ptr = heap.mm_realloc(ptr, 0);
    assert!(new_ptr == 0, "realloc to size 0 should return null");
}

#[test]
fn test_realloc_from_null() {
    let mut heap = Allocator::new();
    let ptr = heap.mm_realloc(0, 32);
    assert!(ptr != 0, "realloc from null should behave like malloc");

    heap.mm_free(ptr);
}

#[test]
fn test_realloc_shrink() {
    let mut heap = Allocator::new();
    let ptr = heap.mm_malloc(32);
    assert!(ptr != 0);

    for i in 0..32 {
        heap.write_byte(ptr + i, i as u8);
    }

    let new_ptr = heap.mm_realloc(ptr, 16);
    assert!(new_ptr != 0);

    for i in 0..16 {
        assert_eq!(heap.read_byte(new_ptr + i), i as u8, "shrinking lost data");
    }

    heap.mm_free(new_ptr);
}

#[test]
fn test_free_then_realloc() {
    let mut heap = Allocator::new();
    let ptr = heap.mm_malloc(24);
    heap.mm_free(ptr);

    let new_ptr = heap.mm_realloc(ptr, 24);
    // It may return the same pointer or a different one, but must be valid.
    assert!(new_ptr != 0);
    heap.mm_free(new_ptr);
}

#[test]
fn test_multiple_small_allocations() {
    let mut heap = Allocator::new();
    let p1 = heap.mm_malloc(8);
    let p2 = heap.mm_malloc(8);
    let p3 = heap.mm_malloc(8);

    assert_ne!(p1, p2);
    assert_ne!(p2, p3);
    assert_ne!(p1, p3);

    heap.mm_free(p1);
    heap.mm_free(p2);
    heap.mm_free(p3);
}

#[test]
fn test_free_coalescing_after_multiple_frees() {
    let mut heap = Allocator::new();
    let p1 = heap.mm_malloc(16);
    let p2 = heap.mm_malloc(16);
    let p3 = heap.mm_malloc(16);

    heap.mm_free(p1);
    heap.mm_free(p2);
    heap.mm_free(p3);

    let merged = heap.mm_malloc(48);
    assert_eq!(merged, p1, "expected coalesced block to reuse freed space");
    heap.mm_free(merged);
}

#[test]
fn test_reused_block_is_zeroed_again() {
    let mut heap = Allocator::new();
    let p = heap.mm_malloc(16);
    for i in 0..16 {
        heap.write_byte(p + i, 0xAA);
    }
    heap.mm_free(p);
    let q = heap.mm_malloc(16);
    assert_eq!(q, p);
    for i in 0..16 {
        assert_eq!(heap.read_byte(q + i), 0, "reused memory not zero-filled");
    }
}

#[test]
fn test_shrink_returns_same_pointer() {
    let mut heap = Allocator::new();
    let p = heap.mm_malloc(32);
    let q = heap.mm_realloc(p, 8);
    assert_eq!(q, p, "shrinking must keep the block in place");
}

#[test]
fn test_payloads_do_not_alias() {
    let mut heap = Allocator::new();
    let p1 = heap.mm_malloc(8);
    let p2 = heap.mm_malloc(8);
    for i in 0..8 {
        heap.write_byte(p1 + i, 0x55);
    }
    for i in 0..8 {
        assert_eq!(heap.read_byte(p2 + i), 0, "writes through one payload leaked into another");
    }
}

#[test]
fn test_free_foreign_pointer_is_noop() {
    let mut heap = Allocator::new();
    let p = heap.mm_malloc(16);
    // Neither of these addresses is a payload handed out by the allocator.
    heap.mm_free(p + 4);
    heap.mm_free(p + 16);
    // The block must still be live: a fresh allocation must not reuse it.
    let q = heap.mm_malloc(16);
    assert_ne!(q, p, "release of a foreign pointer must not free a live block");
}

#[test]
fn test_double_free_is_noop() {
    let mut heap = Allocator::new();
    let p = heap.mm_malloc(16);
    heap.mm_free(p);
    heap.mm_free(p);
    let q = heap.mm_malloc(16);
    assert_eq!(q, p);
}

#[test]
fn test_realloc_null_zero_returns_null() {
    let mut heap = Allocator::new();
    assert_eq!(heap.mm_realloc(0, 0), 0);
}

#[test]
fn test_realloc_to_zero_releases_block() {
    let mut heap = Allocator::new();
    let p = heap.mm_malloc(24);
    assert_eq!(heap.mm_realloc(p, 0), 0);
    // The block was released: an equal request takes it again.
    let q = heap.mm_malloc(24);
    assert_eq!(q, p);
}

#[test]
fn test_malloc_zero_size_makes_no_break_change() {
    let mut heap = Allocator::new();
    let before = heap.current_break();
    let ptr = heap.mm_malloc(0);
    assert_eq!(ptr, 0);
    assert_eq!(heap.current_break(), before, "a zero-sized request must not grow the segment");
}

#[test]
fn test_allocation_fails_when_limit_reached() {
    // Room for one block of 16 bytes and its header, not two.
    let mut heap = Allocator::with_limit(16 + SIZE_OF_MEMORY_HEADER);
    let p = heap.mm_malloc(16);
    assert!(p != 0);
    let q = heap.mm_malloc(16);
    assert_eq!(q, 0, "the segment cannot grow past its limit");
    // The failed attempt must leave the heap untouched.
    assert_eq!(heap.current_break(), 16 + SIZE_OF_MEMORY_HEADER);
    heap.mm_free(p);
    let r = heap.mm_malloc(16);
    assert_eq!(r, p, "the freed block is reusable after an extension failure");
}

#[test]
fn test_failed_realloc_keeps_block_untouched() {
    let mut heap = Allocator::with_limit(8 + SIZE_OF_MEMORY_HEADER);
    let p = heap.mm_malloc(8);
    assert!(p != 0);
    for i in 0..8 {
        heap.write_byte(p + i, i as u8);
    }
    let q = heap.mm_realloc(p, 64);
    assert_eq!(q, 0, "growing past the limit must fail");
    for i in 0..8 {
        assert_eq!(heap.read_byte(p + i), i as u8, "a failed resize must not touch the block");
    }
}

#[test]
fn test_unaligned_request_returns_aligned_address() {
    let mut heap = Allocator::new();
    let p = heap.mm_malloc(5);
    let q = heap.mm_malloc(3);
    assert_eq!(p % MEMORY_ALIGNMENT, 0);
    assert_eq!(q % MEMORY_ALIGNMENT, 0);
    assert_ne!(p, q);
}

#[test]
fn test_coalescing_two_blocks_in_either_order() {
    // Ascending order of release.
    let mut heap = Allocator::new();
    let p1 = heap.mm_malloc(16);
    let p2 = heap.mm_malloc(16);
    heap.mm_free(p1);
    heap.mm_free(p2);
    let m = heap.mm_malloc(16 + 16 + SIZE_OF_MEMORY_HEADER);
    assert_eq!(m, p1);

    // Descending order of release.
    let mut heap2 = Allocator::new();
    let q1 = heap2.mm_malloc(16);
    let q2 = heap2.mm_malloc(16);
    heap2.mm_free(q2);
    heap2.mm_free(q1);
    let m2 = heap2.mm_malloc(16 + 16 + SIZE_OF_MEMORY_HEADER);
    assert_eq!(m2, q1);
}

#[test]
fn test_perfect_fit_is_not_split() {
    let mut heap = Allocator::new();
    let p = heap.mm_malloc(16);
    let guard = heap.mm_malloc(8);
    heap.mm_free(p);
    // A perfect fit takes the whole block; the next allocation cannot sit
    // in a carved-off remainder and must extend the segment instead.
    let q = heap.mm_malloc(16);
    assert_eq!(q, p);
    let r = heap.mm_malloc(8);
    assert!(r > guard);
}
