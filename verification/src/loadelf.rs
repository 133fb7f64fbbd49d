//! The ELF64 loader: finds the loadable segments of a little-endian image.
//!
//! Nothing is relocated and nothing is copied: a segment refers to its bytes
//! inside the image.

use crate::bytes::{le_u16, le_u32, le_u64, read_u16_le, read_u32_le, read_u64_le};
use crate::paging::{PageFlags, PTE_R, PTE_W, PTE_X};
use vstd::prelude::*;
use vstd::slice::slice_subrange;

verus! {

/// Program header type of a loadable segment.
pub const PT_LOAD: u32 = 1;

/// Number of segment slots of a loaded image.
pub const SEGMENT_MAX: usize = 12;

/// Size of the ELF64 file header.
pub const EHDR_SIZE: usize = 64;

/// Size of one ELF64 program header.
pub const PHDR_SIZE: usize = 56;

/// Segment is executable.
pub const PF_X: u32 = 0x1;

/// Segment is writable.
pub const PF_W: u32 = 0x2;

/// Segment is readable.
pub const PF_R: u32 = 0x4;

/// Why an image cannot be loaded.
#[derive(Debug, Clone, Copy, PartialEq, Eq, Structural)]
pub enum ElfError {
    /// The image is shorter than a file header.
    TruncatedHeader,
    /// A program header does not lie inside the image.
    ProgramHeaderOutOfRange,
    /// The bytes of a loadable segment do not lie inside the image.
    SegmentOutOfRange,
    /// A loadable segment stands at a header index that has no slot.
    TooManySegments,
}

/// The fields of the file header that loading reads.
#[derive(Debug, Clone, Copy, PartialEq, Eq, Structural)]
pub struct ElfHeader {
    pub e_entry: u64,
    pub e_phoff: u64,
    pub e_phnum: u16,
}

/// One program header.
#[derive(Debug, Clone, Copy, PartialEq, Eq, Structural)]
pub struct ProgramHeader {
    pub p_type: u32,
    pub p_flags: u32,
    pub p_offset: u64,
    pub p_vaddr: u64,
    pub p_paddr: u64,
    pub p_filesz: u64,
    pub p_memsz: u64,
    pub p_align: u64,
}

/// A loadable segment: where it goes, with which permissions, and the bytes
/// of the image that it starts with.
#[derive(Debug, Clone, Copy)]
pub struct LoadableSegment<'a> {
    pub flags: PageFlags,
    pub vaddr: u64,
    /// As long as `filesz`.
    pub data: &'a [u8],
    pub filesz: u64,
    pub memsz: u64,
}

/// What loading an image gives: its entry point, and for each of the first
/// program headers the segment it describes, if it is loadable.
#[derive(Debug, Clone, Copy)]
pub struct LoadedElf<'a> {
    pub entry_point: u64,
    pub loadable_segments: [Option<LoadableSegment<'a>>; SEGMENT_MAX],
}

/// A loadable segment as a value: its bytes in place of a reference to them.
pub ghost struct SegmentView {
    pub flags: PageFlags,
    pub vaddr: u64,
    pub data: Seq<u8>,
    pub filesz: u64,
    pub memsz: u64,
}

/// A loaded image as a value.
pub ghost struct LoadedView {
    pub entry_point: u64,
    pub segments: Seq<Option<SegmentView>>,
}

impl<'a> View for LoadableSegment<'a> {
    type V = SegmentView;

    open spec fn view(&self) -> SegmentView {
        SegmentView {
            flags: self.flags,
            vaddr: self.vaddr,
            data: self.data@,
            filesz: self.filesz,
            memsz: self.memsz,
        }
    }
}

/// The segment in each slot, as a value.
pub open spec fn segment_views(slots: Seq<Option<LoadableSegment>>) -> Seq<Option<SegmentView>> {
    Seq::new(
        slots.len(),
        |i: int|
            match slots[i] {
                Some(seg) => Some(seg@),
                None => None,
            },
    )
}

impl<'a> View for LoadedElf<'a> {
    type V = LoadedView;

    open spec fn view(&self) -> LoadedView {
        LoadedView {
            entry_point: self.entry_point,
            segments: segment_views(self.loadable_segments@),
        }
    }
}

/// The file header of `img`.
pub open spec fn elf_header(img: Seq<u8>) -> ElfHeader
    recommends
        img.len() >= EHDR_SIZE,
{
    ElfHeader {
        e_entry: le_u64(img.subrange(24, 32)),
        e_phoff: le_u64(img.subrange(32, 40)),
        e_phnum: le_u16(img.subrange(56, 58)),
    }
}

/// Offset in `img` of program header `i`.
pub open spec fn phdr_offset(img: Seq<u8>, i: int) -> int {
    elf_header(img).e_phoff + i * PHDR_SIZE
}

/// The program header that `img` holds at offset `off`.
pub open spec fn program_header_at(img: Seq<u8>, off: int) -> ProgramHeader
    recommends
        0 <= off,
        off + PHDR_SIZE <= img.len(),
{
    ProgramHeader {
        p_type: le_u32(img.subrange(off, off + 4)),
        p_flags: le_u32(img.subrange(off + 4, off + 8)),
        p_offset: le_u64(img.subrange(off + 8, off + 16)),
        p_vaddr: le_u64(img.subrange(off + 16, off + 24)),
        p_paddr: le_u64(img.subrange(off + 24, off + 32)),
        p_filesz: le_u64(img.subrange(off + 32, off + 40)),
        p_memsz: le_u64(img.subrange(off + 40, off + 48)),
        p_align: le_u64(img.subrange(off + 48, off + 56)),
    }
}

/// Program header `i` of `img`.
pub open spec fn program_header(img: Seq<u8>, i: int) -> ProgramHeader {
    program_header_at(img, phdr_offset(img, i))
}

/// The page permissions that the segment flags `p_flags` ask for.
pub open spec fn segment_page_bits(p_flags: u32) -> u64 {
    (if p_flags & PF_R != 0 {
        PTE_R
    } else {
        0
    }) | (if p_flags & PF_W != 0 {
        PTE_W
    } else {
        0
    }) | (if p_flags & PF_X != 0 {
        PTE_X
    } else {
        0
    })
}

/// The segment that program header `i` of `img` describes.
pub open spec fn image_segment(img: Seq<u8>, i: int) -> SegmentView {
    let ph = program_header(img, i);
    SegmentView {
        flags: PageFlags { bits: segment_page_bits(ph.p_flags) },
        vaddr: ph.p_vaddr,
        data: img.subrange(ph.p_offset as int, ph.p_offset + ph.p_filesz),
        filesz: ph.p_filesz,
        memsz: ph.p_memsz,
    }
}

/// Whether program header `i` of `img` describes a loadable segment.
pub open spec fn is_load_header(img: Seq<u8>, i: int) -> bool {
    program_header(img, i).p_type == PT_LOAD
}

/// How many of the first `n` program headers of `img` describe a loadable
/// segment.
pub open spec fn loadable_before(img: Seq<u8>, n: int) -> int
    decreases n,
{
    if n <= 0 {
        0
    } else if is_load_header(img, n - 1) {
        loadable_before(img, n - 1) + 1
    } else {
        loadable_before(img, n - 1)
    }
}

/// What is wrong with program header `i` of `img`: it lies outside the
/// image, or it is loadable and its bytes lie outside the image, or it is
/// loadable and `SEGMENT_MAX` loadable headers stand before it.
pub open spec fn header_fault(img: Seq<u8>, i: int) -> Option<ElfError> {
    let ph = program_header(img, i);
    if phdr_offset(img, i) + PHDR_SIZE > img.len() {
        Some(ElfError::ProgramHeaderOutOfRange)
    } else if ph.p_type != PT_LOAD {
        None
    } else if ph.p_offset + ph.p_filesz > img.len() {
        Some(ElfError::SegmentOutOfRange)
    } else if loadable_before(img, i) >= SEGMENT_MAX {
        Some(ElfError::TooManySegments)
    } else {
        None
    }
}

/// The slots after the first `n` program headers of `img` were taken: each
/// loadable header fills the first slot that is free, in the order of the
/// headers.
pub open spec fn slots_after(img: Seq<u8>, n: int) -> Seq<Option<SegmentView>>
    decreases n,
{
    if n <= 0 {
        Seq::new(SEGMENT_MAX as nat, |s: int| None::<SegmentView>)
    } else if is_load_header(img, n - 1) && loadable_before(img, n - 1) < SEGMENT_MAX {
        slots_after(img, n - 1).update(
            loadable_before(img, n - 1),
            Some(image_segment(img, n - 1)),
        )
    } else {
        slots_after(img, n - 1)
    }
}

/// What loading `img` gives: the entry point of the file header, and the
/// segments of the loadable program headers, in the order of the headers,
/// in the first slots.
pub open spec fn image_loaded(img: Seq<u8>) -> LoadedView {
    LoadedView {
        entry_point: elf_header(img).e_entry,
        segments: slots_after(img, elf_header(img).e_phnum as int),
    }
}

/// The slots hold the segments of the loadable headers, one after the other:
/// slot `s` holds the segment of the header before which `s` loadable headers
/// stand, and the slots behind the last loadable header are empty.
pub proof fn lemma_slots_in_header_order(img: Seq<u8>, n: int, s: int)
    requires
        0 <= n,
        0 <= s < SEGMENT_MAX,
    ensures
        slots_after(img, n).len() == SEGMENT_MAX,
        0 <= loadable_before(img, n) <= n,
        s >= loadable_before(img, n) ==> slots_after(img, n)[s] is None,
        s < loadable_before(img, n) ==> exists|h: int|
            0 <= h < n && is_load_header(img, h) && #[trigger] loadable_before(img, h) == s
                && slots_after(img, n)[s] == Some(image_segment(img, h)),
        forall|h: int|
            0 <= h < n && is_load_header(img, h) && #[trigger] loadable_before(img, h) == s
                ==> slots_after(img, n)[s] == Some(image_segment(img, h)),
    decreases n,
{
    if n > 0 {
        lemma_slots_in_header_order(img, n - 1, s);
        lemma_loadable_before_grows(img, n - 1, n);
        if s < loadable_before(img, n) {
            if is_load_header(img, n - 1) && loadable_before(img, n - 1) == s {
                assert(loadable_before(img, n - 1) == s);
            } else {
                let h = choose|h: int|
                    0 <= h < n - 1 && is_load_header(img, h) && #[trigger] loadable_before(img, h)
                        == s && slots_after(img, n - 1)[s] == Some(image_segment(img, h));
                assert(loadable_before(img, h) == s);
            }
        }
        assert forall|h: int|
            0 <= h < n && is_load_header(img, h) && #[trigger] loadable_before(img, h)
                == s implies slots_after(img, n)[s] == Some(image_segment(img, h)) by {
            if h < n - 1 {
                lemma_loadable_before_grows(img, h + 1, n - 1);
            }
        }
    }
}

/// The count of loadable headers does not fall when more headers are counted.
pub proof fn lemma_loadable_before_grows(img: Seq<u8>, m: int, n: int)
    requires
        0 <= m <= n,
    ensures
        0 <= loadable_before(img, m) <= loadable_before(img, n),
        loadable_before(img, n) <= n,
    decreases n,
{
    if m < n {
        lemma_loadable_before_grows(img, m, n - 1);
    } else if n > 0 {
        lemma_loadable_before_grows(img, m - 1, n - 1);
    }
}

/// The fault of the first among the first `n` program headers of `img` that
/// has one.
pub open spec fn headers_fault(img: Seq<u8>, n: int) -> Option<ElfError>
    decreases n,
{
    if n <= 0 {
        None
    } else {
        match headers_fault(img, n - 1) {
            Some(e) => Some(e),
            None => header_fault(img, n - 1),
        }
    }
}

/// Why `img` cannot be loaded, if it cannot: it is too short for a file
/// header, or one of its program headers has a fault.
pub open spec fn elf_fault(img: Seq<u8>) -> Option<ElfError> {
    if img.len() < EHDR_SIZE {
        Some(ElfError::TruncatedHeader)
    } else {
        headers_fault(img, elf_header(img).e_phnum as int)
    }
}

/// The first fault stays the fault when more headers follow.
pub proof fn lemma_headers_fault_stays(img: Seq<u8>, n: int, m: int)
    requires
        0 <= n <= m,
        headers_fault(img, n) is Some,
    ensures
        headers_fault(img, m) == headers_fault(img, n),
    decreases m,
{
    if n < m {
        lemma_headers_fault_stays(img, n, m - 1);
    }
}

/// The bytes of every segment of an image without fault lie inside the image,
/// and their number is the segment's size in the file.
pub proof fn lemma_sound_headers(img: Seq<u8>, n: int, i: int)
    requires
        headers_fault(img, n) is None,
        0 <= i < n,
    ensures
        header_fault(img, i) is None,
    decreases n,
{
    if i < n - 1 {
        lemma_sound_headers(img, n - 1, i);
    }
}

/// The page permissions that segment flags ask for are page flags.
pub proof fn lemma_segment_page_bits(p_flags: u32)
    ensures
        (PageFlags { bits: segment_page_bits(p_flags) }).wf(),
{
    let r: u64 = if p_flags & PF_R != 0 {
        PTE_R
    } else {
        0
    };
    let w: u64 = if p_flags & PF_W != 0 {
        PTE_W
    } else {
        0
    };
    let x: u64 = if p_flags & PF_X != 0 {
        PTE_X
    } else {
        0
    };
    assert((r == 2 || r == 0) && (w == 4 || w == 0) && (x == 8 || x == 0) ==> (r | w | x)
        & !0x1fu64 == 0) by (bit_vector);
}

/// Reads the file header of `img`.
pub fn read_elf_header(img: &[u8]) -> (h: ElfHeader)
    requires
        img@.len() >= EHDR_SIZE,
    ensures
        h == elf_header(img@),
{
    ElfHeader {
        e_entry: read_u64_le(img, 24),
        e_phoff: read_u64_le(img, 32),
        e_phnum: read_u16_le(img, 56),
    }
}

/// Reads the program header at offset `off` of `img`.
pub fn read_program_header(img: &[u8], off: usize) -> (ph: ProgramHeader)
    requires
        off + PHDR_SIZE <= img@.len(),
    ensures
        ph == program_header_at(img@, off as int),
{
    let len = img.len();
    assert(off + PHDR_SIZE <= len);
    ProgramHeader {
        p_type: read_u32_le(img, off),
        p_flags: read_u32_le(img, off + 4),
        p_offset: read_u64_le(img, off + 8),
        p_vaddr: read_u64_le(img, off + 16),
        p_paddr: read_u64_le(img, off + 24),
        p_filesz: read_u64_le(img, off + 32),
        p_memsz: read_u64_le(img, off + 40),
        p_align: read_u64_le(img, off + 48),
    }
}

/// Turns the permission bits of a program header into page permissions.
pub fn segment_page_flags(p_flags: u32) -> (f: PageFlags)
    ensures
        f.bits == segment_page_bits(p_flags),
        f.wf(),
{
    proof {
        lemma_segment_page_bits(p_flags);
    }
    let r: u64 = if p_flags & PF_R != 0 {
        PTE_R
    } else {
        0
    };
    let w: u64 = if p_flags & PF_W != 0 {
        PTE_W
    } else {
        0
    };
    let x: u64 = if p_flags & PF_X != 0 {
        PTE_X
    } else {
        0
    };
    PageFlags { bits: r | w | x }
}

/// Loads the ELF64 image `elf_data`.
///
/// The program headers are taken in order. The image is refused at the first
/// header that does not lie inside it, or that is loadable and either has
/// bytes outside the image or comes after `SEGMENT_MAX` loadable headers; an
/// image too short for a file header is refused before any of them. An image
/// that is not refused loads as `image_loaded` says.
pub fn load_elf<'a>(elf_data: &'a [u8]) -> (r: Result<LoadedElf<'a>, ElfError>)
    ensures
        match elf_fault(elf_data@) {
            Some(e) => r == Err::<LoadedElf<'a>, ElfError>(e),
            None => r is Ok && r.unwrap()@ == image_loaded(elf_data@),
        },
{
    let len = elf_data.len();
    if len < EHDR_SIZE {
        return Err(ElfError::TruncatedHeader);
    }
    let ehdr = read_elf_header(elf_data);
    let mut segments: [Option<LoadableSegment<'a>>; SEGMENT_MAX] = [None; SEGMENT_MAX];
    let mut count: usize = 0;
    let mut i: u16 = 0;
    proof {
        assert(segment_views(segments@) =~= slots_after(elf_data@, 0));
    }
    while i < ehdr.e_phnum
        invariant
            i <= ehdr.e_phnum,
            len == elf_data@.len(),
            len >= EHDR_SIZE,
            ehdr == elf_header(elf_data@),
            headers_fault(elf_data@, i as int) is None,
            count == loadable_before(elf_data@, i as int),
            count <= SEGMENT_MAX,
            segment_views(segments@) == slots_after(elf_data@, i as int),
        decreases ehdr.e_phnum - i,
    {
        let ghost fault = header_fault(elf_data@, i as int);
        let ghost before = segments@;
        let rel = i as u64 * PHDR_SIZE as u64;
        if ehdr.e_phoff > u64::MAX - rel || ehdr.e_phoff + rel > len as u64 {
            proof {
                assert(fault == Some(ElfError::ProgramHeaderOutOfRange));
                assert(headers_fault(elf_data@, i + 1) == fault);
                lemma_headers_fault_stays(elf_data@, i + 1, ehdr.e_phnum as int);
            }
            return Err(ElfError::ProgramHeaderOutOfRange);
        }
        let off = (ehdr.e_phoff + rel) as usize;
        if len - off < PHDR_SIZE {
            proof {
                assert(fault == Some(ElfError::ProgramHeaderOutOfRange));
                assert(headers_fault(elf_data@, i + 1) == fault);
                lemma_headers_fault_stays(elf_data@, i + 1, ehdr.e_phnum as int);
            }
            return Err(ElfError::ProgramHeaderOutOfRange);
        }
        let ph = read_program_header(elf_data, off);
        if ph.p_type == PT_LOAD {
            if ph.p_offset > len as u64 || ph.p_filesz > len as u64 - ph.p_offset {
                proof {
                    assert(fault == Some(ElfError::SegmentOutOfRange));
                    assert(headers_fault(elf_data@, i + 1) == fault);
                    lemma_headers_fault_stays(elf_data@, i + 1, ehdr.e_phnum as int);
                }
                return Err(ElfError::SegmentOutOfRange);
            }
            if count >= SEGMENT_MAX {
                proof {
                    assert(fault == Some(ElfError::TooManySegments));
                    assert(headers_fault(elf_data@, i + 1) == fault);
                    lemma_headers_fault_stays(elf_data@, i + 1, ehdr.e_phnum as int);
                }
                return Err(ElfError::TooManySegments);
            }
            let start = ph.p_offset as usize;
            let end = (ph.p_offset + ph.p_filesz) as usize;
            let seg = LoadableSegment {
                flags: segment_page_flags(ph.p_flags),
                vaddr: ph.p_vaddr,
                data: slice_subrange(elf_data, start, end),
                filesz: ph.p_filesz,
                memsz: ph.p_memsz,
            };
            segments[count] = Some(seg);
            proof {
                assert(seg@ == image_segment(elf_data@, i as int));
                assert(segment_views(segments@) =~= segment_views(before).update(
                    count as int,
                    Some(seg@),
                ));
            }
            count += 1;
        }
        proof {
            assert(fault is None);
            assert(segment_views(segments@) == slots_after(elf_data@, i + 1));
        }
        i += 1;
    }
    Ok(LoadedElf { entry_point: ehdr.e_entry, loadable_segments: segments })
}

} // verus!
