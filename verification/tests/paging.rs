use rvkernel::allocator::{AllocError, PageAllocator};
use rvkernel::pagetable::map_page;
use rvkernel::paging::{
    translate_addr, walk_page, PageFlags, PTE_R, PTE_U, PTE_V, PTE_W, PTE_X, SATP_SV39,
};
use rvkernel::physmem::PhysMemory;
use rvkernel::spawn::{make_satp, top_table_of};

const BASE: u64 = 0x8020_0000;

fn paging_setup(pages: u64) -> (PhysMemory, PageAllocator, u64) {
    let mut mem = PhysMemory::new(BASE, (pages * 4096) as usize);
    let mut alloc = PageAllocator::new(BASE, BASE + pages * 4096);
    let top = alloc.alloc_pages(&mut mem, 1).unwrap();
    (mem, alloc, top)
}

fn rwxu(bits: u64) -> PageFlags {
    PageFlags::from_bits_truncate(bits)
}

#[test]
fn mapped_page_walks_to_its_leaf() {
    let (mut mem, mut alloc, top) = paging_setup(16);
    let vaddr = 0x0000_0010_0040_3000u64;
    let paddr = 0x8765_4000u64;
    let flags = rwxu(PTE_R | PTE_X | PTE_U);
    assert_eq!(map_page(&mut mem, &mut alloc, top, vaddr, paddr, flags), Ok(()));
    let pte = walk_page(&mem, top, vaddr).unwrap();
    assert_eq!(pte >> 10, paddr / 4096);
    assert_eq!(pte & 0x1f, PTE_R | PTE_X | PTE_U | PTE_V);
    assert_eq!(pte, (paddr / 4096) << 10 | 0x1b);
    // the two missing tables were taken from the allocator
    assert_eq!(alloc.next, BASE + 3 * 4096);
}

#[test]
fn walk_reads_the_three_indices() {
    let (mut mem, mut alloc, top) = paging_setup(16);
    // vpn2 = 3, vpn1 = 5, vpn0 = 7
    let vaddr = (3u64 << 30) | (5 << 21) | (7 << 12);
    map_page(&mut mem, &mut alloc, top, vaddr, 0x9000_0000, rwxu(PTE_R)).unwrap();
    let l1 = (mem.read_u64(top + 8 * 3) >> 10) * 4096;
    assert_eq!(mem.read_u64(top + 8 * 3) & 0x3ff, PTE_V);
    let l0 = (mem.read_u64(l1 + 8 * 5) >> 10) * 4096;
    assert_eq!(mem.read_u64(l1 + 8 * 5) & 0x3ff, PTE_V);
    assert_eq!(mem.read_u64(l0 + 8 * 7), (0x9000_0000u64 / 4096) << 10 | PTE_R | PTE_V);
    assert_eq!(l1, BASE + 4096);
    assert_eq!(l0, BASE + 2 * 4096);
}

#[test]
fn mapping_twice_keeps_the_last() {
    let (mut mem, mut alloc, top) = paging_setup(16);
    let vaddr = 0x40_0000u64;
    map_page(&mut mem, &mut alloc, top, vaddr, 0x8000_1000, rwxu(PTE_R)).unwrap();
    let used = alloc.next;
    map_page(&mut mem, &mut alloc, top, vaddr, 0x8000_2000, rwxu(PTE_R | PTE_W)).unwrap();
    assert_eq!(
        walk_page(&mem, top, vaddr),
        Some((0x8000_2000u64 / 4096) << 10 | PTE_R | PTE_W | PTE_V)
    );
    // the second mapping needed no table
    assert_eq!(alloc.next, used);
}

#[test]
fn other_pages_keep_their_mapping() {
    let (mut mem, mut alloc, top) = paging_setup(32);
    let a = 0x1000u64;
    let b = 0x2000u64;
    let c = 0x4020_0000u64;
    map_page(&mut mem, &mut alloc, top, a, 0x8000_1000, rwxu(PTE_R)).unwrap();
    let pte_a = walk_page(&mem, top, a);
    map_page(&mut mem, &mut alloc, top, b, 0x8000_2000, rwxu(PTE_W | PTE_R)).unwrap();
    map_page(&mut mem, &mut alloc, top, c, 0x8000_3000, rwxu(PTE_X)).unwrap();
    assert_eq!(walk_page(&mem, top, a), pte_a);
    assert_eq!(walk_page(&mem, top, 0x3000), None);
    assert_eq!(walk_page(&mem, top, 0x4020_1000), None);
    // a and b share their tables; c needed two more
    assert_eq!(alloc.next, BASE + 5 * 4096);
}

#[test]
fn only_39_bits_of_the_address_are_read() {
    let (mut mem, mut alloc, top) = paging_setup(16);
    map_page(&mut mem, &mut alloc, top, 0x5000, 0x8000_5000, rwxu(PTE_R)).unwrap();
    let high = 0x5000u64 | (1 << 39) | (1 << 63);
    assert_eq!(walk_page(&mem, top, high), walk_page(&mem, top, 0x5000));
    assert_eq!(walk_page(&mem, top, 0x5abc), walk_page(&mem, top, 0x5000));
}

#[test]
fn translation_keeps_the_offset() {
    let (mut mem, mut alloc, top) = paging_setup(16);
    map_page(&mut mem, &mut alloc, top, 0x7000, 0x8020_9000, rwxu(PTE_R | PTE_U)).unwrap();
    assert_eq!(translate_addr(&mem, top, 0x7000), Some(0x8020_9000));
    assert_eq!(translate_addr(&mem, top, 0x7123), Some(0x8020_9123));
    assert_eq!(translate_addr(&mem, top, 0x8000), None);
}

#[test]
fn empty_table_maps_nothing() {
    let (mem, _alloc, top) = paging_setup(4);
    assert_eq!(walk_page(&mem, top, 0), None);
    assert_eq!(walk_page(&mem, top, 0xdead_b000), None);
    assert_eq!(walk_page(&mem, top, u64::MAX), None);
}

#[test]
fn walk_outside_memory_finds_nothing() {
    let (mem, _alloc, _top) = paging_setup(4);
    assert_eq!(walk_page(&mem, 0x1000, 0x1000), None);
    assert_eq!(walk_page(&mem, u64::MAX - 7, u64::MAX), None);
}

#[test]
fn mapping_fails_when_tables_cannot_be_had() {
    // one frame for the top table, one free: the middle table fits, the last does not
    let (mut mem, mut alloc, top) = paging_setup(2);
    let r = map_page(&mut mem, &mut alloc, top, 0x1000, 0x8000_1000, rwxu(PTE_R));
    assert_eq!(r, Err(AllocError::OutOfMemory));
    assert_eq!(walk_page(&mem, top, 0x1000), None);
    assert_eq!(alloc.next, BASE + 2 * 4096);
    // no frame at all
    let (mut mem, mut alloc, top) = paging_setup(1);
    let r = map_page(&mut mem, &mut alloc, top, 0x1000, 0x8000_1000, rwxu(PTE_R));
    assert_eq!(r, Err(AllocError::OutOfMemory));
    assert_eq!(alloc.next, BASE + 4096);
}

#[test]
fn mapping_succeeds_with_exactly_the_missing_tables() {
    let (mut mem, mut alloc, top) = paging_setup(3);
    assert_eq!(map_page(&mut mem, &mut alloc, top, 0x1000, 0x8000_1000, rwxu(PTE_R)), Ok(()));
    assert_eq!(alloc.available_pages(), 0);
    // a page under the same tables needs none
    assert_eq!(map_page(&mut mem, &mut alloc, top, 0x2000, 0x8000_2000, rwxu(PTE_R)), Ok(()));
    // a page under another last-level table needs one
    assert_eq!(
        map_page(&mut mem, &mut alloc, top, 0x20_0000, 0x8000_3000, rwxu(PTE_R)),
        Err(AllocError::OutOfMemory)
    );
    assert_eq!(walk_page(&mem, top, 0x1000).unwrap() >> 10, 0x8000_1000 / 4096);
    assert_eq!(walk_page(&mem, top, 0x2000).unwrap() >> 10, 0x8000_2000 / 4096);
}

#[test]
fn page_flags_are_sets_of_bits() {
    assert_eq!(PageFlags::empty().bits(), 0);
    assert_eq!(PageFlags::v().bits(), 1);
    assert_eq!(PageFlags::r().bits(), 2);
    assert_eq!(PageFlags::w().bits(), 4);
    assert_eq!(PageFlags::x().bits(), 8);
    assert_eq!(PageFlags::u().bits(), 16);
    let rw = PageFlags::r().union(PageFlags::w());
    assert_eq!(rw.bits(), 6);
    assert!(rw.contains(PageFlags::r()));
    assert!(rw.contains(PageFlags::empty()));
    assert!(!rw.contains(PageFlags::x()));
    assert!(!rw.contains(PageFlags::r().union(PageFlags::x())));
    assert_eq!(PageFlags::from_bits_truncate(0xffff_ffe6).bits(), 6);
    assert_eq!(PageFlags::from_bits_truncate(0x3f), PageFlags { bits: 0x1f });
}

#[test]
fn satp_holds_mode_and_page_number() {
    let top = 0x8020_3000u64;
    let satp = make_satp(top);
    assert_eq!(satp & 0xF_FFFF_FFFF_FFFF, top / 4096);
    assert_eq!(satp >> 60, 8);
    assert_eq!(satp, SATP_SV39 | 0x80203);
    assert_eq!(top_table_of(satp), top);
    assert_eq!(make_satp(0), 0x8000_0000_0000_0000);
}

#[test]
fn new_tables_hold_the_way_alone() {
    let (mut mem, mut alloc, top) = paging_setup(16);
    let vaddr = (3u64 << 30) | (5 << 21) | (7 << 12);
    map_page(&mut mem, &mut alloc, top, vaddr, 0x9000_0000, rwxu(PTE_R | PTE_W)).unwrap();
    let l1 = BASE + 4096;
    let l0 = BASE + 2 * 4096;
    assert_eq!(mem.read_u64(top + 8 * 3), (l1 / 4096) << 10 | PTE_V);
    assert_eq!(mem.read_u64(l1 + 8 * 5), (l0 / 4096) << 10 | PTE_V);
    for n in 0..512u64 {
        if n != 3 {
            assert_eq!(mem.read_u64(top + 8 * n), 0);
        }
        if n != 5 {
            assert_eq!(mem.read_u64(l1 + 8 * n), 0);
        }
        if n != 7 {
            assert_eq!(mem.read_u64(l0 + 8 * n), 0);
        }
    }
}

#[test]
fn tables_that_exist_are_used_as_they_are() {
    let (mut mem, mut alloc, top) = paging_setup(16);
    let first = (3u64 << 30) | (5 << 21) | (7 << 12);
    map_page(&mut mem, &mut alloc, top, first, 0x9000_0000, rwxu(PTE_R)).unwrap();
    let top_entry = mem.read_u64(top + 8 * 3);
    let mid_entry = mem.read_u64(BASE + 4096 + 8 * 5);
    // the same last-level table: no frame is taken, no table entry written
    let second = (3u64 << 30) | (5 << 21) | (8 << 12);
    map_page(&mut mem, &mut alloc, top, second, 0x9000_1000, rwxu(PTE_R | PTE_X)).unwrap();
    assert_eq!(alloc.next, BASE + 3 * 4096);
    assert_eq!(mem.read_u64(top + 8 * 3), top_entry);
    assert_eq!(mem.read_u64(BASE + 4096 + 8 * 5), mid_entry);
    // another last-level table under the same middle table: one frame
    let third = (3u64 << 30) | (6 << 21) | (7 << 12);
    map_page(&mut mem, &mut alloc, top, third, 0x9000_2000, rwxu(PTE_R)).unwrap();
    assert_eq!(alloc.next, BASE + 4 * 4096);
    assert_eq!(mem.read_u64(top + 8 * 3), top_entry);
    assert_eq!(mem.read_u64(BASE + 4096 + 8 * 5), mid_entry);
    assert_eq!(mem.read_u64(BASE + 4096 + 8 * 6), ((BASE + 3 * 4096) / 4096) << 10 | PTE_V);
    for n in 0..512u64 {
        if n != 7 {
            assert_eq!(mem.read_u64(BASE + 3 * 4096 + 8 * n), 0);
        }
    }
}
