use rvkernel::allocator::{AllocError, PageAllocator};
use rvkernel::heap::BumpPointerAlloc;
use rvkernel::physmem::{memset, PhysMemory};
use rvkernel::utils::{align_down, align_up, is_aligned, PAGE_SIZE};

const BASE: u64 = 0x8020_0000;

#[test]
fn allocation_is_page_aligned_and_zero() {
    let mut mem = PhysMemory::new(BASE, 16 * 4096);
    // dirty the region first, so that the zeros are the allocator's
    mem.fill(BASE, 0xaa, 16 * 4096);
    let mut alloc = PageAllocator::new(BASE, BASE + 16 * 4096);
    let p = alloc.alloc_pages(&mut mem, 3).unwrap();
    assert_eq!(p % PAGE_SIZE, 0);
    assert_eq!(p, BASE);
    for a in p..p + 3 * PAGE_SIZE {
        assert_eq!(mem.read_u8(a), 0);
    }
    // the byte behind the allocation is untouched
    assert_eq!(mem.read_u8(p + 3 * PAGE_SIZE), 0xaa);
    assert_eq!(alloc.next, BASE + 3 * PAGE_SIZE);
}

#[test]
fn allocations_follow_each_other() {
    let mut mem = PhysMemory::new(BASE, 8 * 4096);
    let mut alloc = PageAllocator::new(BASE, BASE + 8 * 4096);
    let a = alloc.alloc_pages(&mut mem, 2).unwrap();
    let b = alloc.alloc_pages(&mut mem, 1).unwrap();
    assert_eq!(a, BASE);
    assert_eq!(b, BASE + 2 * PAGE_SIZE);
    assert_eq!(alloc.available_pages(), 5);
}

#[test]
fn allocation_of_zero_pages_takes_nothing() {
    let mut mem = PhysMemory::new(BASE, 4096);
    let mut alloc = PageAllocator::new(BASE, BASE + 4096);
    assert_eq!(alloc.alloc_pages(&mut mem, 0), Ok(BASE));
    assert_eq!(alloc.next, BASE);
}

#[test]
fn exhaustion_is_out_of_memory() {
    let mut mem = PhysMemory::new(BASE, 2 * 4096);
    let mut alloc = PageAllocator::new(BASE, BASE + 2 * 4096);
    assert_eq!(alloc.alloc_pages(&mut mem, 3), Err(AllocError::OutOfMemory));
    // a refused request changes nothing
    assert_eq!(alloc.next, BASE);
    assert_eq!(alloc.alloc_pages(&mut mem, 2), Ok(BASE));
    assert_eq!(alloc.alloc_pages(&mut mem, 1), Err(AllocError::OutOfMemory));
}

#[test]
fn unrepresentable_size_is_overflow() {
    let mut mem = PhysMemory::new(BASE, 4096);
    let mut alloc = PageAllocator::new(BASE, BASE + 4096);
    assert_eq!(alloc.alloc_pages(&mut mem, u64::MAX / 4096 + 1), Err(AllocError::OverFlow));
    assert_eq!(alloc.alloc_pages(&mut mem, u64::MAX), Err(AllocError::OverFlow));
    // the largest size that is representable is merely too large
    assert_eq!(alloc.alloc_pages(&mut mem, u64::MAX / 4096), Err(AllocError::OutOfMemory));
}

#[test]
fn region_need_not_end_on_a_page() {
    let mut mem = PhysMemory::new(BASE, 3 * 4096);
    let mut alloc = PageAllocator::new(BASE, BASE + 2 * 4096 + 100);
    assert_eq!(alloc.available_pages(), 2);
    assert_eq!(alloc.alloc_pages(&mut mem, 2), Ok(BASE));
    assert_eq!(alloc.alloc_pages(&mut mem, 1), Err(AllocError::OutOfMemory));
}

#[test]
fn memory_words_are_little_endian() {
    let mut mem = PhysMemory::new(BASE, 64);
    mem.write_u64(BASE + 8, 0x0102_0304_0506_0708);
    assert_eq!(mem.read_u8(BASE + 8), 0x08);
    assert_eq!(mem.read_u8(BASE + 15), 0x01);
    assert_eq!(mem.read_u64(BASE + 8), 0x0102_0304_0506_0708);
    assert_eq!(mem.read_u64(BASE), 0);
    assert_eq!(mem.read_u64(BASE + 16), 0);
    mem.write_u8(BASE + 9, 0xff);
    assert_eq!(mem.read_u64(BASE + 8), 0x0102_0304_0506_ff08);
}

#[test]
fn memory_blocks_round_trip() {
    let mut mem = PhysMemory::new(BASE, 128);
    mem.copy_in(BASE + 3, &[1, 2, 3, 4, 5]);
    assert_eq!(mem.read_bytes(BASE + 2, 7), vec![0, 1, 2, 3, 4, 5, 0]);
    let words = vec![11u64, 22, 33];
    mem.store_words(BASE + 64, &words);
    assert_eq!(mem.load_words(BASE + 64, 3), words);
    assert_eq!(mem.read_u64(BASE + 72), 22);
    assert!(mem.in_range(BASE, 128));
    assert!(!mem.in_range(BASE, 129));
    assert!(!mem.in_range(BASE - 1, 1));
    assert!(!mem.in_range(u64::MAX, 2));
    assert_eq!(mem.size(), 128);
}

#[test]
fn memset_fills_a_range() {
    let mut mem = PhysMemory::new(BASE, 32);
    memset(&mut mem, BASE + 4, 0x5a, 8);
    assert_eq!(mem.read_bytes(BASE + 3, 10), vec![0, 0x5a, 0x5a, 0x5a, 0x5a, 0x5a, 0x5a, 0x5a, 0x5a, 0]);
}

#[test]
fn alignment_helpers() {
    assert!(is_aligned(0x2000, 4096));
    assert!(!is_aligned(0x2001, 4096));
    assert!(is_aligned(0, 0));
    assert!(!is_aligned(5, 0));
    assert_eq!(align_up(0x2000, 4096), 0x2000);
    assert_eq!(align_up(0x2001, 4096), 0x3000);
    assert_eq!(align_up(0x2fff, 4096), 0x3000);
    assert_eq!(align_up(7, 3), 9);
    assert_eq!(align_down(0x2fff, 4096), 0x2000);
    assert_eq!(align_down(0x2000, 4096), 0x2000);
    assert_eq!(align_down(0, 4096), 0);
}

#[test]
fn heap_blocks_are_aligned_and_bump() {
    let mut heap = BumpPointerAlloc::uninit();
    assert_eq!(heap.alloc_block(8), None);
    heap.init_heap(0x1001, 0x1040);
    assert_eq!(heap.alloc_block(8), Some(0x1008));
    assert_eq!(heap.head, 0x1010);
    assert_eq!(heap.alloc_block(16), Some(0x1010));
    assert_eq!(heap.alloc_block(32), Some(0x1020));
    assert_eq!(heap.head, 0x1040);
    assert_eq!(heap.alloc_block(1), None);
    assert_eq!(heap.head, 0x1040);
}

#[test]
fn zero_is_aligned_to_anything() {
    assert_eq!(align_up(0, 0), 0);
    assert_eq!(align_up(0, 4096), 0);
    assert!(is_aligned(0, 0));
    assert!(!is_aligned(8, 0));
    assert_eq!(align_up(u64::MAX - 4095, 4096), u64::MAX - 4095);
}
