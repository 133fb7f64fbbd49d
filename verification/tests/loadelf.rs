use rvkernel::bytes::{read_u16_le, read_u32_le, read_u64_le};
use rvkernel::loadelf::{
    load_elf, read_elf_header, read_program_header, segment_page_flags, ElfError, PF_R, PF_W, PF_X,
    PT_LOAD, SEGMENT_MAX,
};
use rvkernel::paging::{PTE_R, PTE_W, PTE_X};

struct Ph {
    p_type: u32,
    p_flags: u32,
    p_offset: u64,
    p_vaddr: u64,
    p_filesz: u64,
    p_memsz: u64,
}

fn elf_image(entry: u64, phoff: u64, phnum: u16, headers: &[Ph], len: usize) -> Vec<u8> {
    let mut img = vec![0u8; len];
    if len >= 64 {
        img[0..4].copy_from_slice(&[0x7f, b'E', b'L', b'F']);
        img[24..32].copy_from_slice(&entry.to_le_bytes());
        img[32..40].copy_from_slice(&phoff.to_le_bytes());
        img[56..58].copy_from_slice(&phnum.to_le_bytes());
    }
    for (i, h) in headers.iter().enumerate() {
        let at = phoff as usize + 56 * i;
        if at + 56 > len {
            break;
        }
        img[at..at + 4].copy_from_slice(&h.p_type.to_le_bytes());
        img[at + 4..at + 8].copy_from_slice(&h.p_flags.to_le_bytes());
        img[at + 8..at + 16].copy_from_slice(&h.p_offset.to_le_bytes());
        img[at + 16..at + 24].copy_from_slice(&h.p_vaddr.to_le_bytes());
        img[at + 32..at + 40].copy_from_slice(&h.p_filesz.to_le_bytes());
        img[at + 40..at + 48].copy_from_slice(&h.p_memsz.to_le_bytes());
    }
    img
}

#[test]
fn loads_a_single_segment() {
    let ph = Ph { p_type: PT_LOAD, p_flags: 5, p_offset: 0x100, p_vaddr: 0x1_0000, p_filesz: 5, p_memsz: 0x2000 };
    let mut img = elf_image(0x1_0004, 64, 1, &[ph], 0x200);
    img[0x100..0x105].copy_from_slice(&[1, 2, 3, 4, 5]);
    let loaded = load_elf(&img).unwrap();
    assert_eq!(loaded.entry_point, 0x1_0004);
    let seg = loaded.loadable_segments[0].unwrap();
    assert_eq!(seg.vaddr, 0x1_0000);
    assert_eq!(seg.data, &[1, 2, 3, 4, 5]);
    assert_eq!(seg.filesz, 5);
    assert_eq!(seg.memsz, 0x2000);
    assert_eq!(seg.flags.bits, PTE_R | PTE_X);
    for i in 1..SEGMENT_MAX {
        assert!(loaded.loadable_segments[i].is_none());
    }
}

#[test]
fn segments_fill_the_slots_in_header_order() {
    let headers = [
        Ph { p_type: 6, p_flags: 4, p_offset: 0, p_vaddr: 0, p_filesz: 0x1000, p_memsz: 0x1000 },
        Ph { p_type: PT_LOAD, p_flags: 4, p_offset: 0x200, p_vaddr: 0x1000, p_filesz: 2, p_memsz: 2 },
        Ph { p_type: 2, p_flags: 6, p_offset: 0x9999_9999, p_vaddr: 0, p_filesz: 7, p_memsz: 7 },
        Ph { p_type: PT_LOAD, p_flags: 6, p_offset: 0x202, p_vaddr: 0x3000, p_filesz: 0, p_memsz: 0x10 },
    ];
    let mut img = elf_image(0x1000, 64, 4, &headers, 0x300);
    img[0x200] = 0xaa;
    img[0x201] = 0xbb;
    let loaded = load_elf(&img).unwrap();
    // the two loadable headers, which stand at index 1 and 3, fill slot 0 and 1
    let s0 = loaded.loadable_segments[0].unwrap();
    assert_eq!(s0.vaddr, 0x1000);
    assert_eq!(s0.data, &[0xaa, 0xbb]);
    assert_eq!(s0.flags.bits, PTE_R);
    let s1 = loaded.loadable_segments[1].unwrap();
    assert_eq!(s1.vaddr, 0x3000);
    assert_eq!(s1.data.len(), 0);
    assert_eq!(s1.memsz, 0x10);
    assert_eq!(s1.flags.bits, PTE_R | PTE_W);
    for i in 2..SEGMENT_MAX {
        assert!(loaded.loadable_segments[i].is_none());
    }
}

#[test]
fn image_without_headers_loads_to_nothing() {
    let img = elf_image(0x42, 0, 0, &[], 64);
    let loaded = load_elf(&img).unwrap();
    assert_eq!(loaded.entry_point, 0x42);
    assert!(loaded.loadable_segments.iter().all(|s| s.is_none()));
}

#[test]
fn short_image_is_truncated() {
    assert_eq!(load_elf(&[]).err(), Some(ElfError::TruncatedHeader));
    assert_eq!(load_elf(&[0u8; 63]).err(), Some(ElfError::TruncatedHeader));
}

#[test]
fn header_outside_the_image_is_refused() {
    let ph = Ph { p_type: PT_LOAD, p_flags: 5, p_offset: 0, p_vaddr: 0, p_filesz: 0, p_memsz: 0 };
    // the header ends one byte behind the image
    let img = elf_image(0, 64, 1, &[ph], 64 + 55);
    assert_eq!(load_elf(&img).err(), Some(ElfError::ProgramHeaderOutOfRange));
    // the offset of the headers is not representable with the index added
    let img = elf_image(0, u64::MAX - 10, 2, &[], 128);
    assert_eq!(load_elf(&img).err(), Some(ElfError::ProgramHeaderOutOfRange));
    // the second header lies outside
    let ph0 = Ph { p_type: 0, p_flags: 0, p_offset: 0, p_vaddr: 0, p_filesz: 0, p_memsz: 0 };
    let img = elf_image(0, 64, 2, &[ph0], 64 + 56);
    assert_eq!(load_elf(&img).err(), Some(ElfError::ProgramHeaderOutOfRange));
}

#[test]
fn segment_outside_the_image_is_refused() {
    let ph = Ph { p_type: PT_LOAD, p_flags: 5, p_offset: 0x100, p_vaddr: 0, p_filesz: 0x101, p_memsz: 0x101 };
    let img = elf_image(0, 64, 1, &[ph], 0x200);
    assert_eq!(load_elf(&img).err(), Some(ElfError::SegmentOutOfRange));
    let ph = Ph { p_type: PT_LOAD, p_flags: 5, p_offset: u64::MAX, p_vaddr: 0, p_filesz: 2, p_memsz: 2 };
    let img = elf_image(0, 64, 1, &[ph], 0x200);
    assert_eq!(load_elf(&img).err(), Some(ElfError::SegmentOutOfRange));
    // a segment that ends with the image is fine
    let ph = Ph { p_type: PT_LOAD, p_flags: 5, p_offset: 0x100, p_vaddr: 0, p_filesz: 0x100, p_memsz: 0x100 };
    let img = elf_image(0, 64, 1, &[ph], 0x200);
    assert!(load_elf(&img).is_ok());
    // a segment that is not loadable may lie anywhere
    let ph = Ph { p_type: 4, p_flags: 5, p_offset: 0x100, p_vaddr: 0, p_filesz: 0x101, p_memsz: 0x101 };
    let img = elf_image(0, 64, 1, &[ph], 0x200);
    assert!(load_elf(&img).is_ok());
}

#[test]
fn twelve_loadable_headers_behind_another_load() {
    let mut headers = Vec::new();
    headers.push(Ph { p_type: 4, p_flags: 4, p_offset: 0, p_vaddr: 0, p_filesz: 0, p_memsz: 0 });
    for i in 0..12u64 {
        headers.push(Ph { p_type: PT_LOAD, p_flags: 4, p_offset: 0, p_vaddr: 0x1000 * i, p_filesz: 0, p_memsz: 1 });
    }
    let img = elf_image(0, 64, 13, &headers, 64 + 13 * 56);
    let loaded = load_elf(&img).unwrap();
    for i in 0..12 {
        assert_eq!(loaded.loadable_segments[i].unwrap().vaddr, 0x1000 * i as u64);
    }
}

#[test]
fn thirteenth_loadable_header_is_refused() {
    let mut headers = Vec::new();
    for _ in 0..12 {
        headers.push(Ph { p_type: PT_LOAD, p_flags: 4, p_offset: 0, p_vaddr: 0, p_filesz: 0, p_memsz: 0 });
    }
    headers.push(Ph { p_type: 0, p_flags: 4, p_offset: 0, p_vaddr: 0, p_filesz: 0, p_memsz: 0 });
    let img = elf_image(0, 64, 13, &headers, 64 + 13 * 56);
    let loaded = load_elf(&img).unwrap();
    assert!(loaded.loadable_segments.iter().all(|s| s.is_some()));
    headers[12].p_type = PT_LOAD;
    let img = elf_image(0, 64, 13, &headers, 64 + 13 * 56);
    assert_eq!(load_elf(&img).err(), Some(ElfError::TooManySegments));
    // headers that are not loadable do not count
    headers[3].p_type = 7;
    let img = elf_image(0, 64, 13, &headers, 64 + 13 * 56);
    assert!(load_elf(&img).is_ok());
}

#[test]
fn first_fault_wins() {
    let headers = [
        Ph { p_type: PT_LOAD, p_flags: 4, p_offset: 0x1000, p_vaddr: 0, p_filesz: 1, p_memsz: 1 },
        Ph { p_type: PT_LOAD, p_flags: 4, p_offset: 0, p_vaddr: 0, p_filesz: 0, p_memsz: 0 },
    ];
    // both the segment of header 0 and header 2 lie outside
    let img = elf_image(0, 64, 3, &headers, 64 + 2 * 56);
    assert_eq!(load_elf(&img).err(), Some(ElfError::SegmentOutOfRange));
}

#[test]
fn segment_flags_become_page_flags() {
    assert_eq!(segment_page_flags(0).bits, 0);
    assert_eq!(segment_page_flags(PF_X).bits, PTE_X);
    assert_eq!(segment_page_flags(PF_W).bits, PTE_W);
    assert_eq!(segment_page_flags(PF_R).bits, PTE_R);
    assert_eq!(segment_page_flags(7).bits, PTE_R | PTE_W | PTE_X);
    assert_eq!(segment_page_flags(0xffff_fff8).bits, 0);
    assert_eq!(segment_page_flags(0xffff_fffd).bits, PTE_R | PTE_X);
}

#[test]
fn headers_are_read_field_by_field() {
    let ph = Ph { p_type: 0x11223344, p_flags: 0x55667788, p_offset: 0x0102030405060708, p_vaddr: 0x1112131415161718, p_filesz: 0x2122232425262728, p_memsz: 0x3132333435363738 };
    let img = elf_image(0xa1a2a3a4a5a6a7a8, 64, 0x1234, &[ph], 64 + 56);
    let eh = read_elf_header(&img);
    assert_eq!(eh.e_entry, 0xa1a2a3a4a5a6a7a8);
    assert_eq!(eh.e_phoff, 64);
    assert_eq!(eh.e_phnum, 0x1234);
    let h = read_program_header(&img, 64);
    assert_eq!(h.p_type, 0x11223344);
    assert_eq!(h.p_flags, 0x55667788);
    assert_eq!(h.p_offset, 0x0102030405060708);
    assert_eq!(h.p_vaddr, 0x1112131415161718);
    assert_eq!(h.p_paddr, 0);
    assert_eq!(h.p_filesz, 0x2122232425262728);
    assert_eq!(h.p_memsz, 0x3132333435363738);
    assert_eq!(h.p_align, 0);
}

#[test]
fn little_endian_reads() {
    let data = [0x01u8, 0x02, 0x03, 0x04, 0x05, 0x06, 0x07, 0x08, 0x09];
    assert_eq!(read_u16_le(&data, 0), 0x0201);
    assert_eq!(read_u16_le(&data, 7), 0x0908);
    assert_eq!(read_u32_le(&data, 1), 0x05040302);
    assert_eq!(read_u64_le(&data, 0), 0x0807060504030201);
    assert_eq!(read_u64_le(&data, 1), 0x0908070605040302);
}
