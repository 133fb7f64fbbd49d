use rvkernel::addrspace::{map_kernel_pages, map_range, map_segment, map_user_pages, segment_fits};
use rvkernel::allocator::{AllocError, PageAllocator};
use rvkernel::loadelf::{load_elf, LoadableSegment, LoadedElf};
use rvkernel::paging::{translate_addr, walk_page, PageFlags, PTE_R, PTE_U, PTE_V, PTE_W, PTE_X};
use rvkernel::physmem::PhysMemory;
use rvkernel::proc::{Context, KernelStack, Pid, ProcError, ProcState, Process, ProcessTable, NPROC};
use rvkernel::spawn::{
    create_idle_process, create_process, create_process_from_loaded, new_kernel_space,
    top_table_of,
};
use rvkernel::symbols::KernelSymbols;

const KB: u64 = 0x8020_0000;
const AREA: u64 = KB + 0x1_0000;
const END: u64 = KB + 0x20_0000;

fn symbols() -> KernelSymbols {
    KernelSymbols {
        kernel_base: KB,
        page_area_start: AREA,
        page_area_end: END,
        kernel_entry: KB + 0x100,
        user_entry: KB + 0x200,
        idle_process: KB + 0x300,
        switch_return: KB + 0x400,
    }
}

fn machine() -> (PhysMemory, PageAllocator, ProcessTable) {
    (PhysMemory::new(KB, (END - KB) as usize), PageAllocator::new(AREA, END), ProcessTable::new())
}

/// An image with one loadable segment.
fn one_segment_elf(entry: u64, vaddr: u64, flags: u32, data: &[u8], memsz: u64) -> Vec<u8> {
    let mut img = vec![0u8; 64 + 56];
    img[24..32].copy_from_slice(&entry.to_le_bytes());
    img[32..40].copy_from_slice(&64u64.to_le_bytes());
    img[56..58].copy_from_slice(&1u16.to_le_bytes());
    img[64..68].copy_from_slice(&1u32.to_le_bytes());
    img[68..72].copy_from_slice(&flags.to_le_bytes());
    img[72..80].copy_from_slice(&120u64.to_le_bytes());
    img[80..88].copy_from_slice(&vaddr.to_le_bytes());
    img[96..104].copy_from_slice(&(data.len() as u64).to_le_bytes());
    img[104..112].copy_from_slice(&memsz.to_le_bytes());
    img.extend_from_slice(data);
    img
}

fn segment<'a>(vaddr: u64, flags: u64, data: &'a [u8], memsz: u64) -> LoadableSegment<'a> {
    LoadableSegment {
        flags: PageFlags::from_bits_truncate(flags),
        vaddr,
        data,
        filesz: data.len() as u64,
        memsz,
    }
}

fn loaded<'a>(entry: u64, segs: &[LoadableSegment<'a>]) -> LoadedElf<'a> {
    let mut slots = [None; 12];
    for (i, s) in segs.iter().enumerate() {
        slots[i] = Some(*s);
    }
    LoadedElf { entry_point: entry, loadable_segments: slots }
}

fn user_byte(mem: &PhysMemory, top: u64, va: u64) -> u8 {
    mem.read_u8(translate_addr(mem, top, va).unwrap())
}

#[test]
fn created_process_fills_the_first_unused_slot() {
    let syms = symbols();
    let (mut mem, mut alloc, mut table) = machine();
    create_idle_process(&mut mem, &mut alloc, &mut table, &syms).unwrap();
    let stack = alloc.next;
    let img = one_segment_elf(0x1_0004, 0x1_0000, 5, &[1, 2, 3, 4, 5], 0x1800);
    let pid = create_process(&mut mem, &mut alloc, &mut table, &syms, &img).unwrap();
    assert_eq!(pid, Pid(1));
    let p = table.procs[1];
    assert_eq!(p.pid, Pid(1));
    assert_eq!(p.state, ProcState::Runnable);
    assert_eq!(p.kernel_stack, KernelStack { base: stack, size: 4096 });
    assert_eq!(p.context.ra, syms.user_entry);
    assert_eq!(p.context.sp, stack + 4096);
    assert_eq!(p.context.s0, 0);
    assert_eq!(p.entry_point, 0x1_0004);
    // for a process that can run, satp holds the page number of its top table and mode 8
    let top = stack + 4096;
    assert_eq!(p.satp_value & 0xF_FFFF_FFFF_FFFF, top / 4096);
    assert_eq!(p.satp_value >> 60, 8);
    assert_eq!(top_table_of(p.satp_value), top);
    assert_eq!(table.current, 0);
    assert!(table.procs[2..].iter().all(|p| p.state == ProcState::Unused));
}

#[test]
fn process_reads_its_segment_and_zeros_behind_it() {
    let syms = symbols();
    let (mut mem, mut alloc, mut table) = machine();
    mem.fill(AREA, 0xee, END - AREA);
    let v = 0x1_0000u64;
    let img = one_segment_elf(v, v, 4, &[1, 2, 3, 4, 5], 0x1800);
    create_process(&mut mem, &mut alloc, &mut table, &syms, &img).unwrap();
    let top = top_table_of(table.procs[0].satp_value);
    assert_eq!(user_byte(&mem, top, v), 0x01);
    assert_eq!(user_byte(&mem, top, v + 4), 0x05);
    for i in 5..0x1800 {
        assert_eq!(user_byte(&mem, top, v + i), 0);
    }
    // the second page is mapped whole, and the third not at all
    assert_eq!(user_byte(&mem, top, v + 0x1fff), 0);
    assert_eq!(translate_addr(&mem, top, v + 0x2000), None);
    assert_eq!(translate_addr(&mem, top, v - 1), None);
}

#[test]
fn segment_pages_are_user_pages_with_the_segment_flags() {
    let syms = symbols();
    let (mut mem, mut alloc, mut table) = machine();
    let img = one_segment_elf(0, 0x40_0000, 6, &[9; 10], 0x3000);
    create_process(&mut mem, &mut alloc, &mut table, &syms, &img).unwrap();
    let top = top_table_of(table.procs[0].satp_value);
    let first = walk_page(&mem, top, 0x40_0000).unwrap();
    for q in 0..3 {
        let pte = walk_page(&mem, top, 0x40_0000 + q * 4096).unwrap();
        assert_eq!(pte & 0x3ff, PTE_U | PTE_R | PTE_W | PTE_V);
        // the frames of a segment follow each other
        assert_eq!(pte >> 10, (first >> 10) + q);
    }
    assert_eq!(walk_page(&mem, top, 0x40_3000), None);
}

#[test]
fn kernel_is_identity_mapped_in_every_process() {
    let syms = symbols();
    let (mut mem, mut alloc, mut table) = machine();
    create_idle_process(&mut mem, &mut alloc, &mut table, &syms).unwrap();
    let img = one_segment_elf(0, 0x1_0000, 5, &[1], 1);
    create_process(&mut mem, &mut alloc, &mut table, &syms, &img).unwrap();
    for slot in 0..2 {
        let top = top_table_of(table.procs[slot].satp_value);
        let mut p = KB;
        while p < END {
            assert_eq!(walk_page(&mem, top, p), Some((p / 4096) << 10 | PTE_R | PTE_W | PTE_X | PTE_V));
            p += 4096;
        }
        assert_eq!(walk_page(&mem, top, KB - 4096), None);
        assert_eq!(walk_page(&mem, top, END), None);
        assert_eq!(translate_addr(&mem, top, KB + 0x1234), Some(KB + 0x1234));
    }
    // the idle process has nothing but the kernel
    let idle_top = top_table_of(table.procs[0].satp_value);
    assert_eq!(walk_page(&mem, idle_top, 0x1_0000), None);
}

#[test]
fn idle_process_stands_in_slot_zero() {
    let syms = symbols();
    let (mut mem, mut alloc, mut table) = machine();
    create_idle_process(&mut mem, &mut alloc, &mut table, &syms).unwrap();
    let p = table.procs[0];
    assert_eq!(p.pid, Pid(0));
    assert_eq!(p.state, ProcState::Runnable);
    assert_eq!(p.kernel_stack, KernelStack { base: AREA, size: 4096 });
    assert_eq!(p.context.ra, syms.idle_process);
    assert_eq!(p.context.sp, AREA + 4096);
    assert_eq!(p.satp_value, 0x8000_0000_0000_0000 | (AREA + 4096) / 4096);
    assert_eq!(p.entry_point, 0);
    // stack, top table, and the two tables that map the kernel
    assert_eq!(alloc.next, AREA + 4 * 4096);
}

#[test]
fn creation_takes_exactly_the_frames_it_needs() {
    let syms = symbols();
    let (mut mem, mut alloc, mut table) = machine();
    let img = one_segment_elf(0, 0x1_0000, 5, &[1, 2, 3], 0x2001);
    create_process(&mut mem, &mut alloc, &mut table, &syms, &img).unwrap();
    // stack, top, 2 kernel tables, 3 frames of the segment, 2 tables for it
    assert_eq!(alloc.next, AREA + 9 * 4096);
    // a page area that is one frame short does not do
    let (mut mem, _, mut table) = machine();
    let mut alloc = PageAllocator::new(AREA, AREA + 8 * 4096);
    assert_eq!(
        create_process(&mut mem, &mut alloc, &mut table, &syms, &img),
        Err(ProcError::Alloc(AllocError::OutOfMemory))
    );
    assert_eq!(table.procs[0], Process::unused());
    let (mut mem, _, mut table) = machine();
    let mut alloc = PageAllocator::new(AREA, AREA + 9 * 4096);
    assert_eq!(create_process(&mut mem, &mut alloc, &mut table, &syms, &img), Ok(Pid(0)));
}

#[test]
fn creation_leaves_older_memory_alone() {
    let syms = symbols();
    let (mut mem, mut alloc, mut table) = machine();
    let img = one_segment_elf(0, 0x1_0000, 5, &[7; 100], 100);
    create_process(&mut mem, &mut alloc, &mut table, &syms, &img).unwrap();
    let used = alloc.next;
    let before = mem.read_bytes(KB, (used - KB) as usize);
    create_process(&mut mem, &mut alloc, &mut table, &syms, &img).unwrap();
    assert_eq!(mem.read_bytes(KB, (used - KB) as usize), before);
    assert_eq!(table.procs[1].pid, Pid(1));
    // the two processes have frames of their own for the same address
    let a = translate_addr(&mem, top_table_of(table.procs[0].satp_value), 0x1_0000).unwrap();
    let b = translate_addr(&mem, top_table_of(table.procs[1].satp_value), 0x1_0000).unwrap();
    assert_ne!(a, b);
    assert_eq!(mem.read_u8(a), 7);
    assert_eq!(mem.read_u8(b), 7);
}

#[test]
fn unaligned_segment_lies_at_its_offset() {
    let syms = symbols();
    let (mut mem, mut alloc, mut table) = machine();
    let v = 0x1_0800u64;
    let img = one_segment_elf(v, v, 4, &[0xa, 0xb, 0xc], 0x100);
    create_process(&mut mem, &mut alloc, &mut table, &syms, &img).unwrap();
    let top = top_table_of(table.procs[0].satp_value);
    assert_eq!(user_byte(&mem, top, v), 0xa);
    assert_eq!(user_byte(&mem, top, v + 2), 0xc);
    assert_eq!(user_byte(&mem, top, v + 3), 0);
    assert_eq!(user_byte(&mem, top, 0x1_0000), 0);
    assert_eq!(user_byte(&mem, top, v - 1), 0);
    assert_eq!(translate_addr(&mem, top, 0x1_1000), None);
}

#[test]
fn segment_that_does_not_fit_its_frames_is_refused() {
    let syms = symbols();
    let (mut mem, mut alloc, mut table) = machine();
    // one frame for 0x900 bytes, but they start at offset 0x800
    let data = [1u8; 0x900];
    let img = one_segment_elf(0, 0x1_0800, 4, &data, 0x900);
    assert_eq!(
        create_process(&mut mem, &mut alloc, &mut table, &syms, &img),
        Err(ProcError::BadSegment)
    );
    assert_eq!(table.procs[0], Process::unused());
    assert!(!segment_fits(&segment(0x1_0800, 2, &data, 0x900)));
    assert!(segment_fits(&segment(0x1_0800, 2, &data[..0x800], 0x800)));
    // more bytes in the file than the frames for the size in memory hold
    assert!(!segment_fits(&segment(0x1_0000, 2, &[0u8; 0x1001], 0x100)));
    assert!(segment_fits(&segment(0x1_0000, 2, &[0u8; 0x1000], 0x100)));
    // pages past the end of the address space
    assert!(!segment_fits(&segment(u64::MAX - 0xfff, 2, &[], 0x1001)));
    assert!(segment_fits(&segment(u64::MAX - 0xfff, 2, &[], 0x1000)));
    assert!(segment_fits(&segment(0, 2, &[], 0)));
}

#[test]
fn segment_too_large_to_count_is_overflow() {
    let syms = symbols();
    let (mut mem, mut alloc, mut table) = machine();
    let l = loaded(0, &[segment(0, 2, &[], u64::MAX)]);
    assert_eq!(
        create_process_from_loaded(&mut mem, &mut alloc, &mut table, &syms, &l),
        Err(ProcError::Alloc(AllocError::OverFlow))
    );
}

#[test]
fn image_that_cannot_be_loaded_changes_nothing() {
    let syms = symbols();
    let (mut mem, mut alloc, mut table) = machine();
    let r = create_process(&mut mem, &mut alloc, &mut table, &syms, &[0u8; 10]);
    assert_eq!(r, Err(ProcError::Elf(rvkernel::loadelf::ElfError::TruncatedHeader)));
    assert_eq!(alloc.next, AREA);
    assert_eq!(table.procs[0], Process::unused());
}

#[test]
fn full_table_has_no_free_slot() {
    let syms = symbols();
    let (mut mem, mut alloc, mut table) = machine();
    for i in 0..NPROC {
        table.procs[i].state = ProcState::Exited;
    }
    let img = one_segment_elf(0, 0x1_0000, 5, &[1], 1);
    assert_eq!(
        create_process(&mut mem, &mut alloc, &mut table, &syms, &img),
        Err(ProcError::NoFreeSlot)
    );
    // the slot is looked for before anything is taken from the page area
    assert_eq!(alloc.next, AREA);
    table.procs[77].state = ProcState::Unused;
    assert_eq!(create_process(&mut mem, &mut alloc, &mut table, &syms, &img), Ok(Pid(77)));
}

#[test]
fn later_segment_covers_earlier_one() {
    let syms = symbols();
    let (mut mem, mut alloc, mut table) = machine();
    let a = [0x11u8; 0x2000];
    let b = [0x22u8; 0x10];
    let l = loaded(0, &[segment(0x1_0000, PTE_R, &a, 0x2000), segment(0x1_1000, PTE_R | PTE_W, &b, 0x10)]);
    create_process_from_loaded(&mut mem, &mut alloc, &mut table, &syms, &l).unwrap();
    let top = top_table_of(table.procs[0].satp_value);
    assert_eq!(user_byte(&mem, top, 0x1_0000), 0x11);
    assert_eq!(user_byte(&mem, top, 0x1_1000), 0x22);
    assert_eq!(user_byte(&mem, top, 0x1_1010), 0);
    assert_eq!(walk_page(&mem, top, 0x1_1000).unwrap() & 0x3ff, PTE_U | PTE_R | PTE_W | PTE_V);
    assert_eq!(walk_page(&mem, top, 0x1_0000).unwrap() & 0x3ff, PTE_U | PTE_R | PTE_V);
}

#[test]
fn user_segment_may_cover_the_kernel() {
    let syms = symbols();
    let (mut mem, mut alloc, mut table) = machine();
    let l = loaded(0, &[segment(KB, PTE_R, &[0x33], 1)]);
    create_process_from_loaded(&mut mem, &mut alloc, &mut table, &syms, &l).unwrap();
    let top = top_table_of(table.procs[0].satp_value);
    assert_eq!(walk_page(&mem, top, KB).unwrap() & 0x3ff, PTE_U | PTE_R | PTE_V);
    assert_eq!(user_byte(&mem, top, KB), 0x33);
    assert_eq!(walk_page(&mem, top, KB + 4096), Some(((KB + 4096) / 4096) << 10 | 0xf));
}

#[test]
fn context_keeps_callee_saved_registers_of_the_slot() {
    let syms = symbols();
    let (mut mem, mut alloc, mut table) = machine();
    table.procs[0].context.s4 = 44;
    table.procs[0].entry_point = 0x999;
    create_idle_process(&mut mem, &mut alloc, &mut table, &syms).unwrap();
    let mut expected = Context::zero();
    expected.ra = syms.idle_process;
    expected.sp = AREA + 4096;
    expected.s4 = 44;
    assert_eq!(table.procs[0].context, expected);
    assert_eq!(table.procs[0].entry_point, 0x999);
}

#[test]
fn kernel_space_alone() {
    let syms = symbols();
    let (mut mem, mut alloc, _) = machine();
    let (stack, top) = new_kernel_space(&mut mem, &mut alloc, &syms).unwrap();
    assert_eq!(stack, AREA);
    assert_eq!(top, AREA + 4096);
    assert_eq!(walk_page(&mem, top, KB), Some((KB / 4096) << 10 | 0xf));
    // three frames are too few: the second table for the kernel is missing
    let (mut mem, _, _) = machine();
    let mut alloc = PageAllocator::new(AREA, AREA + 3 * 4096);
    assert_eq!(new_kernel_space(&mut mem, &mut alloc, &syms), Err(AllocError::OutOfMemory));
}

#[test]
fn ranges_and_segments_map_page_by_page() {
    let syms = symbols();
    let (mut mem, mut alloc, _) = machine();
    let top = alloc.alloc_pages(&mut mem, 1).unwrap();
    assert_eq!(map_kernel_pages(&mut mem, &mut alloc, top, &syms), Ok(()));
    assert_eq!(alloc.next, AREA + 3 * 4096);
    let flags = PageFlags::r().union(PageFlags::u());
    assert_eq!(map_range(&mut mem, &mut alloc, top, 0x20_0000, 0x9000_0000, 3, flags), Ok(()));
    assert_eq!(translate_addr(&mem, top, 0x20_2abc), Some(0x9000_2abc));
    assert_eq!(translate_addr(&mem, top, 0x20_3000), None);
    let data = [5u8, 6, 7];
    let seg = segment(0x60_0010, PTE_X, &data, 0x20);
    let frame = map_segment(&mut mem, &mut alloc, top, &seg).unwrap();
    assert_eq!(mem.read_bytes(frame + 0x10, 4), vec![5, 6, 7, 0]);
    assert_eq!(walk_page(&mem, top, 0x60_0000), Some((frame / 4096) << 10 | PTE_U | PTE_X | PTE_V));
    let l = loaded(0, &[segment(0x80_0000, PTE_R, &data, 3)]);
    assert_eq!(map_user_pages(&mut mem, &mut alloc, top, &l), Ok(()));
    assert_eq!(user_byte(&mem, top, 0x80_0002), 7);
    let img = one_segment_elf(1, 2, 3, &[4], 5);
    assert!(load_elf(&img).is_ok());
}
