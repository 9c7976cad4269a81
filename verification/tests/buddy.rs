//! Tests of the buddy frame allocator: round trips, coalescing,
//! exhaustion, and the layout helpers.

use maestro::buddy::{
    self, init, AllocError, BuddyAllocator, MemmapInfo, ZoneClass, FRAME_STATE_USED, MAX_ORDER,
    PAGE_SIZE,
};

/// Builds an allocator whose kernel zone holds a few hundred pages.
fn small_allocator() -> BuddyAllocator {
    let mmap = MemmapInfo {
        available_memory: 4 * 1024 * 1024,
        phys_alloc_begin: 0x0010_0000,
        phys_alloc_end: 0x0040_0000,
    };
    init(&mmap).expect("layout must fit")
}

#[test]
fn frame_size_values() {
    assert_eq!(buddy::get_frame_size(0), 4096);
    assert_eq!(buddy::get_frame_size(1), 8192);
    assert_eq!(buddy::get_frame_size(3), 32768);
    assert_eq!(buddy::get_frame_size(MAX_ORDER), 4096 << 17);
}

#[test]
fn order_values() {
    assert_eq!(buddy::get_order(0), 0);
    assert_eq!(buddy::get_order(1), 0);
    assert_eq!(buddy::get_order(2), 1);
    assert_eq!(buddy::get_order(3), 2);
    assert_eq!(buddy::get_order(4), 2);
    assert_eq!(buddy::get_order(5), 3);
    assert_eq!(buddy::get_order(131072), 17);
}

#[test]
fn frame_marks() {
    let mut f = buddy::Frame { prev: 0, next: 0, order: 0 };
    assert!(!f.is_used());
    f.mark_used();
    assert!(f.is_used());
    assert_eq!(f.prev, FRAME_STATE_USED);
    f.mark_free();
    assert!(!f.is_used());
}

#[test]
fn buddy_id_flips_the_size_bit() {
    let f = buddy::Frame { prev: 0, next: 0, order: 2 };
    assert_eq!(f.get_buddy_id(0), 4);
    assert_eq!(f.get_buddy_id(4), 0);
    assert_eq!(f.get_buddy_id(8), 12);
}

#[test]
fn zone_init_starts_free() {
    let z = buddy::Zone::init(ZoneClass::Kernel, 64, 0x40000);
    assert_eq!(z.get_pages_count(), 64);
    assert_eq!(z.get_allocated_pages(), 0);
    assert_eq!(z.get_size(), 64 * PAGE_SIZE);
    assert!(z.check_free_list());
    assert!(z.get_available_frame(0).is_some());
}

#[test]
fn zone_frame_addresses_roundtrip() {
    let z = buddy::Zone::init(ZoneClass::Kernel, 16, 0x40000);
    for id in 0..16u32 {
        let ptr = z.get_ptr(id);
        assert_eq!(ptr % PAGE_SIZE, 0);
        assert_eq!(z.get_frame_id_from_ptr(ptr), id);
    }
}

#[test]
fn alloc_is_aligned_and_in_zone() {
    let mut a = small_allocator();
    let ptr = a.alloc_frame(0, ZoneClass::Kernel).expect("one page");
    assert_eq!(ptr % PAGE_SIZE, 0);
    let ptr2 = a.alloc_frame(2, ZoneClass::Kernel).expect("four pages");
    assert_eq!(ptr2 % PAGE_SIZE, 0);
    assert_ne!(ptr, ptr2);
    a.free(ptr, 0);
    a.free(ptr2, 2);
}

#[test]
fn alloc_kernel_translates_to_virtual() {
    let mut a = small_allocator();
    let virt = a.alloc_kernel(0).expect("one page");
    assert!(virt >= buddy::KERNEL_VIRT_OFFSET);
    a.free_kernel(virt, 0);
    assert_eq!(a.allocated_pages(), 0);
}

#[test]
fn out_of_memory_on_empty_zone() {
    let mut a = small_allocator();
    // The DMA zone is created empty by `init`.
    assert_eq!(a.alloc_frame(0, ZoneClass::Dma), Err(AllocError::OutOfMemory));
    assert_eq!(a.alloc_frame(0, ZoneClass::User), Err(AllocError::OutOfMemory));
}

#[test]
fn counter_tracks_block_sizes() {
    let mut a = small_allocator();
    assert_eq!(a.allocated_pages(), 0);
    let p0 = a.alloc_frame(0, ZoneClass::Kernel).unwrap();
    assert_eq!(a.allocated_pages(), 1);
    let p3 = a.alloc_frame(3, ZoneClass::Kernel).unwrap();
    assert_eq!(a.allocated_pages(), 1 + 8);
    a.free(p0, 0);
    assert_eq!(a.allocated_pages(), 8);
    a.free(p3, 3);
    assert_eq!(a.allocated_pages(), 0);
}

#[test]
fn round_trip_lifo() {
    let mut a = small_allocator();
    let base = a.allocated_pages();
    let mut frames = Vec::new();
    for _ in 0..100 {
        frames.push(a.alloc_kernel(0).expect("no allocation may fail"));
    }
    while let Some(p) = frames.pop() {
        a.free_kernel(p, 0);
    }
    assert_eq!(a.allocated_pages(), base);
}

#[test]
fn round_trip_fifo() {
    let mut a = small_allocator();
    let base = a.allocated_pages();
    let mut frames = Vec::new();
    for _ in 0..100 {
        frames.push(a.alloc_kernel(0).expect("no allocation may fail"));
    }
    for p in frames {
        a.free_kernel(p, 0);
    }
    assert_eq!(a.allocated_pages(), base);
}

#[test]
fn free_then_alloc_returns_same_address() {
    let mut a = small_allocator();
    for order in [0u8, 1, 3] {
        let first = a.alloc_kernel(order).expect("block");
        a.free_kernel(first, order);
        for _ in 0..100 {
            let again = a.alloc_kernel(order).expect("block");
            a.free_kernel(again, order);
            assert_eq!(again, first);
        }
    }
}

#[test]
fn no_live_blocks_overlap() {
    let mut a = small_allocator();
    let mut blocks = Vec::new();
    for order in [0u8, 1, 0, 2, 0, 3] {
        let ptr = a.alloc_frame(order, ZoneClass::Kernel).unwrap();
        blocks.push((ptr, buddy::get_frame_size(order)));
    }
    for (i, &(s1, l1)) in blocks.iter().enumerate() {
        for &(s2, l2) in blocks.iter().skip(i + 1) {
            assert!(s1 + l1 <= s2 || s2 + l2 <= s1);
        }
    }
    for &(s, l) in blocks.iter() {
        a.free(s, buddy::get_order(l / PAGE_SIZE));
    }
    assert_eq!(a.allocated_pages(), 0);
}

#[test]
fn linking_freed_frames_makes_no_cycle() {
    let mut a = small_allocator();
    // Allocate everything, chaining the frames into a list by address.
    let mut chain = Vec::new();
    while let Ok(p) = a.alloc_kernel(0) {
        chain.push(p);
    }
    // Walk the chain with two cursors: the fast one must reach the end.
    let mut slow = 0usize;
    let mut fast = 0usize;
    loop {
        if fast + 2 >= chain.len() {
            break;
        }
        slow += 1;
        fast += 2;
        assert_ne!(chain[slow], chain[fast]);
    }
    for p in chain {
        a.free_kernel(p, 0);
    }
    assert_eq!(a.allocated_pages(), 0);
}

#[test]
fn exhaustion_consumes_exactly_the_zone() {
    let mut a = small_allocator();
    let mut frames = Vec::new();
    while let Ok(p) = a.alloc_kernel(0) {
        frames.push(p);
    }
    let total = a.allocated_pages();
    assert_eq!(total, frames.len());
    assert!(total > 0);
    // Free everything back and exhaust again: the same count comes out.
    for p in frames {
        a.free_kernel(p, 0);
    }
    assert_eq!(a.allocated_pages(), 0);
    let mut count = 0usize;
    let mut again = Vec::new();
    while let Ok(p) = a.alloc_kernel(0) {
        again.push(p);
        count += 1;
    }
    assert_eq!(count, total);
    for p in again {
        a.free_kernel(p, 0);
    }
}

#[test]
fn split_then_coalesce_rebuilds_the_block() {
    let mut a = small_allocator();
    // Take a block of order 3, then consume every other page so that the
    // block under test is the only free memory left.
    let big = a.alloc_kernel(3).expect("block of eight pages");
    let mut rest = Vec::new();
    while let Ok(p) = a.alloc_kernel(0) {
        rest.push(p);
    }
    a.free_kernel(big, 3);
    // Splitting happens when a smaller block is requested: the order-0
    // piece sits at the base of the former order-3 block.
    let small = a.alloc_kernel(0).expect("one page");
    assert_eq!(small, big);
    // Freeing it coalesces all the pieces back: the next order-3 request
    // finds the very same block.
    a.free_kernel(small, 0);
    let rebuilt = a.alloc_kernel(3).expect("block of eight pages");
    assert_eq!(rebuilt, big);
    a.free_kernel(rebuilt, 3);
    for p in rest {
        a.free_kernel(p, 0);
    }
    assert_eq!(a.allocated_pages(), 0);
}

#[test]
fn free_of_unknown_pointer_is_ignored() {
    let mut a = small_allocator();
    let before = a.allocated_pages();
    a.free(0xdead_b000, 0);
    assert_eq!(a.allocated_pages(), before);
}

#[test]
fn layout_overflow_is_refused() {
    let mmap = MemmapInfo {
        available_memory: usize::MAX,
        phys_alloc_begin: usize::MAX - 100,
        phys_alloc_end: usize::MAX,
    };
    assert!(init(&mmap).is_none());
}

#[test]
fn translations_are_inverse() {
    assert_eq!(buddy::kern_to_virt(0x1000), 0x1000 + buddy::KERNEL_VIRT_OFFSET);
    assert_eq!(buddy::kern_to_phys(buddy::kern_to_virt(0x1000)), 0x1000);
}
