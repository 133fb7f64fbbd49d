//! Making processes: the idle process, which has only the kernel's address
//! space, and user processes from a loaded image.

use crate::addrspace::{
    kernel_flags, map_kernel_pages, map_user_pages, run_lookup, seg_wf, segments_fault,
    segments_lookup, segments_placed, shape_after_run, shape_after_segments, shape_of, Shape,
};
use crate::allocator::{AllocError, PageAllocator};
use crate::loadelf::{
    elf_fault, image_loaded, lemma_segment_page_bits, lemma_sound_headers, load_elf,
    program_header, LoadedElf, SegmentView, SEGMENT_MAX,
};
use crate::pagetable::{is_table, lemma_empty_table_tree, lemma_frame_outside, table_tree, tree_ok};
use crate::paging::{walk, SATP_SV39};
use crate::physmem::PhysMemory;
use crate::proc::{
    Context, KernelStack, Pid, ProcError, ProcState, Process, ProcessTable, KERNEL_STACK_SIZE,
};
use crate::symbols::KernelSymbols;
use crate::utils::PAGE_SIZE;
use vstd::prelude::*;

verus! {

/// What `satp` holds to select the top-level table at `top`: the Sv39 mode and
/// the page number of the table.
pub open spec fn satp_for(top: u64) -> u64 {
    SATP_SV39 | (top / PAGE_SIZE)
}

/// A `satp` value made for a table holds the page number of the table in its
/// low 52 bits and the Sv39 mode, 8, in its top four bits.
pub proof fn lemma_satp_fields(top: u64)
    ensures
        satp_for(top) & 0xF_FFFF_FFFF_FFFF == top / PAGE_SIZE,
        satp_for(top) >> 60 == 8,
{
    let t = top;
    assert((0x8000_0000_0000_0000u64 | (t / 4096)) & 0xF_FFFF_FFFF_FFFF == t / 4096 && (
    0x8000_0000_0000_0000u64 | (t / 4096)) >> 60 == 8) by (bit_vector);
}

/// Computes the `satp` value that selects the top-level table at `top`.
pub fn make_satp(top: u64) -> (v: u64)
    ensures
        v == satp_for(top),
        v & 0xF_FFFF_FFFF_FFFF == top / PAGE_SIZE,
        v >> 60 == 8,
{
    proof {
        lemma_satp_fields(top);
    }
    SATP_SV39 | (top / PAGE_SIZE)
}

/// The address of the top-level table that the `satp` value `satp` selects.
pub open spec fn satp_table(satp: u64) -> u64 {
    ((satp & 0xFFF_FFFF_FFFF) * PAGE_SIZE) as u64
}

/// Reads the address of the top-level table out of a `satp` value.
pub fn top_table_of(satp: u64) -> (top: u64)
    ensures
        top == satp_table(satp),
        top % PAGE_SIZE == 0,
{
    let ppn = satp & 0xFFF_FFFF_FFFF;
    assert(ppn <= 0xFFF_FFFF_FFFF) by (bit_vector)
        requires
            ppn == satp & 0xFFF_FFFF_FFFF,
    ;
    ppn * PAGE_SIZE
}

/// The table read out of the `satp` value made for a table is that table,
/// where its address has no more than 56 bits.
pub proof fn lemma_satp_table(top: u64)
    requires
        top % PAGE_SIZE == 0,
        top < 0x100_0000_0000_0000,
    ensures
        satp_table(satp_for(top)) == top,
{
    let t = top;
    assert(t < 0x100_0000_0000_0000 ==> (0x8000_0000_0000_0000u64 | (t / 4096)) & 0xFFF_FFFF_FFFF
        == t / 4096) by (bit_vector);
}

/// The shape of a new address space that holds the kernel and nothing else,
/// made when the bump pointer stood at `next`: one frame went to the kernel
/// stack, one to the top-level table, and one to each table under it.
pub open spec fn kernel_shape(next: int, syms: KernelSymbols) -> Shape {
    shape_after_run(
        Shape { mids: Set::empty(), lasts: Set::empty(), next: next + 2 * PAGE_SIZE },
        syms.kernel_base,
        syms.kernel_pages(),
    )
}

/// What a lookup of `v` finds in an address space that holds the kernel and
/// nothing else.
pub open spec fn kernel_lookup(syms: KernelSymbols, v: u64) -> Option<u64> {
    run_lookup(None, syms.kernel_base, syms.kernel_base, syms.kernel_pages(), kernel_flags(), v)
}

/// Gives a new process its kernel stack and its top-level table, and maps the
/// kernel. Returns the addresses of the stack and of the table.
pub fn new_kernel_space(mem: &mut PhysMemory, alloc: &mut PageAllocator, syms: &KernelSymbols) -> (r:
    Result<(u64, u64), AllocError>)
    requires
        old(alloc).wf(),
        old(alloc).within(old(mem)),
        syms.wf(),
    ensures
        final(alloc).wf(),
        final(alloc).within(final(mem)),
        final(alloc).start == old(alloc).start,
        final(alloc).end == old(alloc).end,
        final(alloc).next >= old(alloc).next,
        final(mem).same_outside(old(mem), old(alloc).next as int, final(alloc).next as int),
        r is Ok <==> kernel_shape(old(alloc).next as int, *syms).next <= old(alloc).end,
        r is Err ==> r == Err::<(u64, u64), AllocError>(AllocError::OutOfMemory),
        match r {
            Ok((stack, top)) => {
                &&& stack == old(alloc).next
                &&& top == old(alloc).next + PAGE_SIZE
                &&& final(alloc).next >= old(alloc).next + 2 * PAGE_SIZE
                &&& table_tree(final(mem), final(alloc), top as int)
                &&& shape_of(final(mem), final(alloc), top as int) == kernel_shape(
                    old(alloc).next as int,
                    *syms,
                )
                &&& forall|v: u64|
                    #[trigger] walk(final(mem), top as int, v) == kernel_lookup(*syms, v)
                &&& forall|a: int|
                    #[trigger] is_table(final(mem), top as int, a) ==> top <= a < final(alloc).next
            },
            Err(_) => true,
        },
{
    let ghost m0 = *mem;
    let ghost al0 = *alloc;
    proof {
        let s = Shape { mids: Set::empty(), lasts: Set::empty(), next: al0.next + 2 * PAGE_SIZE };
        crate::addrspace::lemma_run_missing_grows(
            s.mids,
            s.lasts,
            syms.kernel_base,
            0,
            syms.kernel_pages(),
        );
    }
    let stack = match alloc.alloc_pages(mem, 1) {
        Ok(p) => p,
        Err(_) => {
            return Err(AllocError::OutOfMemory);
        },
    };
    let ghost m1 = *mem;
    let top = match alloc.alloc_pages(mem, 1) {
        Ok(p) => p,
        Err(_) => {
            return Err(AllocError::OutOfMemory);
        },
    };
    let ghost m2 = *mem;
    let ghost al2 = *alloc;
    proof {
        lemma_empty_table_tree(&m2, &al2, top as int);
        assert(shape_of(&m2, &al2, top as int) == (Shape {
            mids: Set::empty(),
            lasts: Set::empty(),
            next: al0.next + 2 * PAGE_SIZE,
        }));
    }
    let r = map_kernel_pages(mem, alloc, top, syms);
    proof {
        assert forall|a: int| #[trigger] is_table(mem, top as int, a) implies top <= a
            < alloc.next by {
            if is_table(&m2, top as int, a) {
            }
        }
        assert forall|a: int|
            mem.contains(a, 1) && !(al0.next <= a < alloc.next) implies #[trigger] mem.byte(a)
            == m0.byte(a) by {
            lemma_frame_outside(al0.next as int, alloc.next as int, a);
            assert(!is_table(&m2, top as int, crate::pagetable::frame_of(a)));
            assert(mem.byte(a) == m2.byte(a));
            assert(m2.byte(a) == m1.byte(a));
            assert(m1.byte(a) == m0.byte(a));
        }
    }
    match r {
        Ok(_) => Ok((stack, top)),
        Err(_) => Err(AllocError::OutOfMemory),
    }
}

/// Whether `procs` has an unused slot.
pub open spec fn has_unused(procs: Seq<Process>) -> bool {
    exists|i: int| 0 <= i < procs.len() && (#[trigger] procs[i]).state == ProcState::Unused
}

/// Whether slot `i` is the first unused slot of `procs`.
pub open spec fn is_first_unused(procs: Seq<Process>, i: int) -> bool {
    &&& 0 <= i < procs.len()
    &&& procs[i].state == ProcState::Unused
    &&& forall|j: int| 0 <= j < i ==> (#[trigger] procs[j]).state != ProcState::Unused
}

/// Why a process cannot be made from the segments `segs`, if it cannot: no
/// slot is free, or the page area cannot hold the kernel stack and the tables
/// that map the kernel, or one of the segments has a fault.
pub open spec fn create_fault(
    procs: Seq<Process>,
    alloc: PageAllocator,
    syms: KernelSymbols,
    segs: Seq<Option<SegmentView>>,
) -> Option<ProcError> {
    if !has_unused(procs) {
        Some(ProcError::NoFreeSlot)
    } else if kernel_shape(alloc.next as int, syms).next > alloc.end {
        Some(ProcError::Alloc(AllocError::OutOfMemory))
    } else {
        segments_fault(
            kernel_shape(alloc.next as int, syms),
            alloc.end as int,
            segs,
            SEGMENT_MAX as int,
        )
    }
}

/// The slot of a process that was just made in slot `idx`, which held `slot`
/// before: it is runnable, its kernel stack is the frame at `stack`, it
/// starts in the kernel at `ra` with an empty stack, and its address space is
/// the one under `top`.
pub open spec fn new_process(
    slot: Process,
    idx: int,
    stack: u64,
    top: u64,
    ra: u64,
    entry_point: u64,
) -> Process {
    Process {
        pid: Pid(idx as usize),
        state: ProcState::Runnable,
        kernel_stack: KernelStack { base: stack, size: KERNEL_STACK_SIZE },
        context: Context { ra, sp: (stack + KERNEL_STACK_SIZE) as u64, ..slot.context },
        satp_value: satp_for(top),
        entry_point,
    }
}

/// What a lookup of `v` finds in the address space of a process made from the
/// segments `segs` when the bump pointer stood at `next`: the page of the
/// last segment that has a page with the page number of `v`, and the kernel
/// where no segment has one.
pub open spec fn process_lookup(
    next: int,
    syms: KernelSymbols,
    segs: Seq<Option<SegmentView>>,
    v: u64,
) -> Option<u64> {
    segments_lookup(kernel_lookup(syms, v), kernel_shape(next, syms), segs, SEGMENT_MAX as int, v)
}

/// Whether RAM holds the address space of a process that was made from the
/// segments `segs` when the bump pointer stood at `next`: its tables form a
/// tree under the frame behind the kernel stack, lookups find what
/// `process_lookup` says, each segment lies in frames of its own, and the
/// bump pointer stands behind the last frame that was taken.
#[verifier::opaque]
pub open spec fn address_space_made(
    mem: &PhysMemory,
    alloc: &PageAllocator,
    next: int,
    syms: KernelSymbols,
    segs: Seq<Option<SegmentView>>,
) -> bool {
    let top = next + PAGE_SIZE;
    let shape = kernel_shape(next, syms);
    &&& table_tree(mem, alloc, top)
    &&& alloc.next == shape_after_segments(shape, segs, SEGMENT_MAX as int).next
    &&& alloc.next >= next + 2 * PAGE_SIZE
    &&& forall|v: u64| #[trigger] walk(mem, top, v) == process_lookup(next, syms, segs, v)
    &&& forall|a: int| #[trigger] is_table(mem, top, a) ==> top <= a < alloc.next
    &&& segments_placed(mem, top, shape, segs, SEGMENT_MAX as int)
}

/// A process takes at least the frames of its kernel stack and of its
/// top-level table.
pub proof fn lemma_address_space_takes_frames(
    mem: &PhysMemory,
    alloc: &PageAllocator,
    next: int,
    syms: KernelSymbols,
    segs: Seq<Option<SegmentView>>,
)
    requires
        address_space_made(mem, alloc, next, syms, segs),
    ensures
        alloc.next >= next + 2 * PAGE_SIZE,
        table_tree(mem, alloc, next + PAGE_SIZE),
        forall|a: int|
            #[trigger] is_table(mem, next + PAGE_SIZE, a) ==> next + PAGE_SIZE <= a < alloc.next,
{
    reveal(address_space_made);
}

/// Writing to RAM below the frames of a process leaves its address space as
/// it was.
pub proof fn lemma_address_space_kept(
    m0: &PhysMemory,
    m1: &PhysMemory,
    alloc: &PageAllocator,
    next: int,
    syms: KernelSymbols,
    segs: Seq<Option<SegmentView>>,
)
    requires
        0 <= next,
        syms.wf(),
        address_space_made(m0, alloc, next, syms, segs),
        m1.base == m0.base,
        m1.bytes@.len() == m0.bytes@.len(),
        forall|a: int| m0.contains(a, 1) && next <= a ==> #[trigger] m1.byte(a) == m0.byte(a),
    ensures
        address_space_made(m1, alloc, next, syms, segs),
{
    reveal(address_space_made);
    let top = next + PAGE_SIZE;
    let shape = kernel_shape(next, syms);
    crate::pagetable::lemma_changes_below_keep_space(m0, m1, alloc, top, next);
    crate::addrspace::lemma_run_missing_grows(
        Set::empty(),
        Set::empty(),
        syms.kernel_base,
        0,
        syms.kernel_pages(),
    );
    assert forall|i: int| 0 <= i < SEGMENT_MAX && (#[trigger] segs[i]) is Some implies {
        let seg = segs[i].unwrap();
        let frame = crate::addrspace::segment_frame(shape, segs, i);
        &&& forall|x: int|
            0 <= x < crate::addrspace::seg_pages(seg) * PAGE_SIZE ==> #[trigger] m1.byte(frame + x)
                == crate::addrspace::segment_byte(seg, x)
        &&& forall|a: int|
            frame <= a < frame + crate::addrspace::seg_pages(seg) * PAGE_SIZE ==> !#[trigger] is_table(
                m1,
                top,
                a,
            )
    } by {
        let seg = segs[i].unwrap();
        let frame = crate::addrspace::segment_frame(shape, segs, i);
        crate::addrspace::lemma_segment_frames_ascend(shape, segs, i + 1, SEGMENT_MAX as int);
        assert forall|x: int|
            0 <= x < crate::addrspace::seg_pages(seg) * PAGE_SIZE implies #[trigger] m1.byte(
            frame + x,
        ) == crate::addrspace::segment_byte(seg, x) by {
            assert(m0.byte(frame + x) == crate::addrspace::segment_byte(seg, x));
            assert(m0.contains(frame + x, 1));
        }
        assert forall|a: int|
            frame <= a < frame + crate::addrspace::seg_pages(seg) * PAGE_SIZE implies !#[trigger] is_table(
            m1,
            top,
            a,
        ) by {
            assert(!is_table(m0, top, a));
        }
    }
}

/// Makes a process from the loaded image `loaded`, in the first unused slot.
///
/// The process gets one frame as its kernel stack and an address space of its
/// own, which holds the kernel and the segments of the image. Its slot is
/// filled as `new_process` says; its identifier is the index of the slot. No
/// other slot changes, and nothing changes in RAM outside the frames that
/// this call takes from the page area.
///
/// The call fails as `create_fault` says; then the table is as it was.
pub fn create_process_from_loaded(
    mem: &mut PhysMemory,
    alloc: &mut PageAllocator,
    table: &mut ProcessTable,
    syms: &KernelSymbols,
    loaded: &LoadedElf,
) -> (r: Result<Pid, ProcError>)
    requires
        old(alloc).wf(),
        old(alloc).within(old(mem)),
        old(table).wf(),
        syms.wf(),
        forall|i: int|
            0 <= i < SEGMENT_MAX && (#[trigger] loaded@.segments[i]) is Some ==> seg_wf(
                loaded@.segments[i].unwrap(),
            ),
    ensures
        final(alloc).wf(),
        final(alloc).within(final(mem)),
        final(alloc).start == old(alloc).start,
        final(alloc).end == old(alloc).end,
        final(alloc).next >= old(alloc).next,
        final(mem).same_outside(old(mem), old(alloc).next as int, final(alloc).next as int),
        final(table).wf(),
        final(table).current == old(table).current,
        match create_fault(old(table).procs@, *old(alloc), *syms, loaded@.segments) {
            Some(e) => r == Err::<Pid, ProcError>(e),
            None => r is Ok,
        },
        r is Err ==> !(r.unwrap_err() is Elf),
        match r {
            Ok(pid) => {
                &&& is_first_unused(old(table).procs@, pid.0 as int)
                &&& final(table).procs@ == old(table).procs@.update(
                    pid.0 as int,
                    new_process(
                        old(table).procs@[pid.0 as int],
                        pid.0 as int,
                        old(alloc).next,
                        (old(alloc).next + PAGE_SIZE) as u64,
                        syms.user_entry,
                        loaded.entry_point,
                    ),
                )
                &&& address_space_made(
                    final(mem),
                    final(alloc),
                    old(alloc).next as int,
                    *syms,
                    loaded@.segments,
                )
            },
            Err(_) => final(table).procs@ == old(table).procs@,
        },
{
    proof {
        reveal(address_space_made);
    }
    let ghost m0 = *mem;
    let ghost al0 = *alloc;
    let idx = match table.find_unused() {
        Some(i) => i,
        None => {
            return Err(ProcError::NoFreeSlot);
        },
    };
    assert(has_unused(table.procs@)) by {
        assert(table.procs@[idx as int].state == ProcState::Unused);
    }
    let (stack, top) = match new_kernel_space(mem, alloc, syms) {
        Ok(p) => p,
        Err(e) => {
            return Err(ProcError::Alloc(e));
        },
    };
    let ghost m1 = *mem;
    let ghost al1 = *alloc;
    proof {
        let own = choose|own: Map<int, (int, int, int)>| tree_ok(&m1, &al1, top as int, own);
        assert(tree_ok(&m1, &al1, top as int, own));
    }
    let r = map_user_pages(mem, alloc, top, loaded);
    proof {
        assert forall|a: int|
            mem.contains(a, 1) && !(al0.next <= a < alloc.next) implies #[trigger] mem.byte(a)
            == m0.byte(a) by {
            lemma_frame_outside(al0.next as int, alloc.next as int, a);
            assert(!is_table(&m1, top as int, crate::pagetable::frame_of(a)));
            assert(mem.byte(a) == m1.byte(a));
            assert(m1.byte(a) == m0.byte(a));
        }
    }
    match r {
        Err(e) => Err(e),
        Ok(_) => {
            let slot = table.procs[idx];
            let p = Process {
                pid: Pid(idx),
                state: ProcState::Runnable,
                kernel_stack: KernelStack { base: stack, size: KERNEL_STACK_SIZE },
                context: Context { ra: syms.user_entry, sp: stack + KERNEL_STACK_SIZE, ..slot.context },
                satp_value: make_satp(top),
                entry_point: loaded.entry_point,
            };
            table.procs.set(idx, p);
            Ok(Pid(idx))
        },
    }
}

/// The segments of an image without fault are well formed.
pub proof fn lemma_image_segments_wf(img: Seq<u8>)
    requires
        elf_fault(img) is None,
    ensures
        forall|i: int|
            0 <= i < SEGMENT_MAX && (#[trigger] image_loaded(img).segments[i]) is Some ==> seg_wf(
                image_loaded(img).segments[i].unwrap(),
            ),
{
    let n = crate::loadelf::elf_header(img).e_phnum as int;
    assert forall|i: int|
        0 <= i < SEGMENT_MAX && (#[trigger] image_loaded(img).segments[i]) is Some implies seg_wf(
        image_loaded(img).segments[i].unwrap(),
    ) by {
        crate::loadelf::lemma_slots_in_header_order(img, n, i);
        let h = choose|h: int|
            0 <= h < n && crate::loadelf::is_load_header(img, h)
                && #[trigger] crate::loadelf::loadable_before(img, h) == i
                && crate::loadelf::slots_after(img, n)[i] == Some(
                crate::loadelf::image_segment(img, h),
            );
        lemma_sound_headers(img, n, h);
        lemma_segment_page_bits(program_header(img, h).p_flags);
    }
}

/// Why no process can be made from the image `img`, if none can: the image
/// cannot be loaded, or no process can be made from what it loads to.
#[verifier::opaque]
pub open spec fn create_process_fault(
    procs: Seq<Process>,
    alloc: PageAllocator,
    syms: KernelSymbols,
    img: Seq<u8>,
) -> Option<ProcError> {
    match elf_fault(img) {
        Some(e) => Some(ProcError::Elf(e)),
        None => create_fault(procs, alloc, syms, image_loaded(img).segments),
    }
}

/// Makes a process from the ELF64 image `elf_data`: loads the image and makes
/// the process from what it loads to.
///
/// The new process stands in the first unused slot. Its address space holds
/// the kernel and, in frames of their own, the loadable segments of the image.
/// It is runnable and starts at the entry point of the image.
pub fn create_process(
    mem: &mut PhysMemory,
    alloc: &mut PageAllocator,
    table: &mut ProcessTable,
    syms: &KernelSymbols,
    elf_data: &[u8],
) -> (r: Result<Pid, ProcError>)
    requires
        old(alloc).wf(),
        old(alloc).within(old(mem)),
        old(table).wf(),
        syms.wf(),
    ensures
        final(alloc).wf(),
        final(alloc).within(final(mem)),
        final(alloc).start == old(alloc).start,
        final(alloc).end == old(alloc).end,
        final(alloc).next >= old(alloc).next,
        final(mem).same_outside(old(mem), old(alloc).next as int, final(alloc).next as int),
        final(table).wf(),
        final(table).current == old(table).current,
        match create_process_fault(old(table).procs@, *old(alloc), *syms, elf_data@) {
            Some(e) => r == Err::<Pid, ProcError>(e),
            None => r is Ok,
        },
        match r {
            Ok(pid) => {
                let image = image_loaded(elf_data@);
                &&& is_first_unused(old(table).procs@, pid.0 as int)
                &&& final(table).procs@ == old(table).procs@.update(
                    pid.0 as int,
                    new_process(
                        old(table).procs@[pid.0 as int],
                        pid.0 as int,
                        old(alloc).next,
                        (old(alloc).next + PAGE_SIZE) as u64,
                        syms.user_entry,
                        image.entry_point,
                    ),
                )
                &&& address_space_made(
                    final(mem),
                    final(alloc),
                    old(alloc).next as int,
                    *syms,
                    image.segments,
                )
            },
            Err(e) => final(table).procs@ == old(table).procs@ && (e is Elf ==> {
                &&& *final(mem) == *old(mem)
                &&& *final(alloc) == *old(alloc)
            }),
        },
{
    proof {
        reveal(create_process_fault);
    }
    let loaded = match load_elf(elf_data) {
        Ok(l) => l,
        Err(e) => {
            return Err(ProcError::Elf(e));
        },
    };
    proof {
        lemma_image_segments_wf(elf_data@);
    }
    create_process_from_loaded(mem, alloc, table, syms, &loaded)
}

/// Makes the idle process in slot 0: a process with a kernel stack and an
/// address space that holds the kernel only, which starts in the idle loop.
/// What slot 0 held before is overwritten, but for the entry point and the
/// callee-saved registers of its context.
pub fn create_idle_process(
    mem: &mut PhysMemory,
    alloc: &mut PageAllocator,
    table: &mut ProcessTable,
    syms: &KernelSymbols,
) -> (r: Result<(), ProcError>)
    requires
        old(alloc).wf(),
        old(alloc).within(old(mem)),
        old(table).wf(),
        syms.wf(),
    ensures
        final(alloc).wf(),
        final(alloc).within(final(mem)),
        final(alloc).start == old(alloc).start,
        final(alloc).end == old(alloc).end,
        final(alloc).next >= old(alloc).next,
        final(mem).same_outside(old(mem), old(alloc).next as int, final(alloc).next as int),
        final(table).wf(),
        final(table).current == old(table).current,
        r is Ok <==> kernel_shape(old(alloc).next as int, *syms).next <= old(alloc).end,
        match r {
            Ok(_) => {
                let top = (old(alloc).next + PAGE_SIZE) as u64;
                &&& final(alloc).next >= old(alloc).next + 2 * PAGE_SIZE
                &&& final(table).procs@ == old(table).procs@.update(
                    0,
                    new_process(
                        old(table).procs@[0],
                        0,
                        old(alloc).next,
                        top,
                        syms.idle_process,
                        old(table).procs@[0].entry_point,
                    ),
                )
                &&& table_tree(final(mem), final(alloc), top as int)
                &&& final(alloc).next == kernel_shape(old(alloc).next as int, *syms).next
                &&& forall|v: u64|
                    #[trigger] walk(final(mem), top as int, v) == kernel_lookup(*syms, v)
                &&& forall|a: int|
                    #[trigger] is_table(final(mem), top as int, a) ==> top <= a < final(alloc).next
            },
            Err(e) => e == ProcError::Alloc(AllocError::OutOfMemory) && final(table).procs@ == old(
                table,
            ).procs@,
        },
{
    let (stack, top) = match new_kernel_space(mem, alloc, syms) {
        Ok(p) => p,
        Err(e) => {
            return Err(ProcError::Alloc(e));
        },
    };
    let slot = table.procs[0];
    let p = Process {
        pid: Pid(0),
        state: ProcState::Runnable,
        kernel_stack: KernelStack { base: stack, size: KERNEL_STACK_SIZE },
        context: Context { ra: syms.idle_process, sp: stack + KERNEL_STACK_SIZE, ..slot.context },
        satp_value: make_satp(top),
        entry_point: slot.entry_point,
    };
    table.procs.set(0, p);
    Ok(())
}

/// Every page of the kernel is mapped to the frame of the same address,
/// readable, writable and executable, in an address space that holds the
/// kernel only, as long as the kernel ends below 2^39, where addresses stop
/// to have page numbers of their own. Addresses below 2^39 that are not the
/// kernel's are not mapped.
pub proof fn lemma_kernel_is_identity_mapped(syms: KernelSymbols, v: u64)
    requires
        syms.wf(),
        syms.page_area_end <= 0x80_0000_0000,
        v < 0x80_0000_0000,
    ensures
        syms.kernel_base <= v < syms.kernel_base + syms.kernel_pages() * PAGE_SIZE
            ==> kernel_lookup(syms, v) == Some(
            crate::paging::leaf_pte((v - v % PAGE_SIZE) as u64, kernel_flags().bits),
        ),
        !(syms.kernel_base <= v < syms.kernel_base + syms.kernel_pages() * PAGE_SIZE)
            ==> kernel_lookup(syms, v) is None,
{
    let kb = syms.kernel_base;
    let n = syms.kernel_pages();
    assert(kb + n * PAGE_SIZE <= 0x80_0000_0000) by {
        assert(syms.page_area_end <= 0x80_0000_0000);
    }
    if kb <= v < kb + n * PAGE_SIZE {
        let q = (v - kb) / (PAGE_SIZE as int);
        let page = crate::addrspace::page_at(kb, q);
        assert(page == v - v % PAGE_SIZE);
        crate::addrspace::lemma_vpn_of_page(page, v);
        crate::addrspace::lemma_last_covering_own_page(kb, n, q, v);
    } else {
        crate::addrspace::lemma_last_covering_outside(kb, n, v);
    }
}

/// Whether none of the segments `segs` from index `from` on has a page with
/// the page number of `v`.
pub open spec fn unshadowed(segs: Seq<Option<SegmentView>>, from: int, v: u64) -> bool {
    forall|i: int|
        from <= i < SEGMENT_MAX && (#[trigger] segs[i]) is Some ==> crate::addrspace::last_covering(
            crate::addrspace::seg_vbase(segs[i].unwrap()),
            crate::addrspace::seg_pages(segs[i].unwrap()),
            v,
        ) is None
}

/// Segments without a page for an address do not change what a lookup of the
/// address finds.
pub proof fn lemma_lookup_skips_unshadowed(
    before: Option<u64>,
    s: Shape,
    segs: Seq<Option<SegmentView>>,
    from: int,
    n: int,
    v: u64,
)
    requires
        0 <= from <= n <= SEGMENT_MAX,
        unshadowed(segs, from, v),
    ensures
        segments_lookup(before, s, segs, n, v) == segments_lookup(before, s, segs, from, v),
    decreases n,
{
    if from < n {
        lemma_lookup_skips_unshadowed(before, s, segs, from, n - 1, v);
        if segs[n - 1] is Some {
            assert(crate::addrspace::last_covering(
                crate::addrspace::seg_vbase(segs[n - 1].unwrap()),
                crate::addrspace::seg_pages(segs[n - 1].unwrap()),
                v,
            ) is None);
        }
    }
}

/// What a process finds in its memory where a segment was loaded.
///
/// Let a process be made from the segments `segs`, and let `x` be an offset
/// into segment `i`, which fits its frames, has no more pages than there
/// are page numbers, and is not covered at that place by a later segment.
/// Then the address of the segment plus `x` translates to a byte of RAM
/// that holds byte `x` of the segment's bytes, and zero behind them.
pub proof fn lemma_segment_bytes_in_place(
    mem: &PhysMemory,
    alloc: &PageAllocator,
    top: int,
    next: int,
    syms: KernelSymbols,
    segs: Seq<Option<SegmentView>>,
    i: int,
    x: int,
)
    requires
        0 <= next,
        syms.wf(),
        0 <= i < SEGMENT_MAX,
        segs.len() == SEGMENT_MAX,
        segs[i] is Some,
        seg_wf(segs[i].unwrap()),
        crate::addrspace::seg_fits(segs[i].unwrap()),
        crate::addrspace::seg_pages(segs[i].unwrap()) <= 0x800_0000,
        0 <= x,
        crate::addrspace::seg_offset(segs[i].unwrap()) + x < crate::addrspace::seg_pages(
            segs[i].unwrap(),
        ) * PAGE_SIZE,
        unshadowed(segs, i + 1, (segs[i].unwrap().vaddr + x) as u64),
        alloc.wf(),
        address_space_made(mem, alloc, next, syms, segs),
        top == next + PAGE_SIZE,
    ensures
        crate::paging::translate(mem, top, (segs[i].unwrap().vaddr + x) as u64) is Some,
        mem.byte(
            crate::paging::translate(mem, top, (segs[i].unwrap().vaddr + x) as u64).unwrap(),
        ) == if x < segs[i].unwrap().filesz {
            segs[i].unwrap().data[x]
        } else {
            0
        },
{
    reveal(address_space_made);
    let seg = segs[i].unwrap();
    let shape = kernel_shape(next, syms);
    let v = (seg.vaddr + x) as u64;
    let vbase = crate::addrspace::seg_vbase(seg);
    let off = crate::addrspace::seg_offset(seg);
    let pages = crate::addrspace::seg_pages(seg);
    let frame = crate::addrspace::segment_frame(shape, segs, i);
    let q = (off + x) / (PAGE_SIZE as int);
    assert(segs[i] is Some);
    assert(frame % (PAGE_SIZE as int) == 0 && shape.next <= frame);
    assert(frame + pages * PAGE_SIZE <= alloc.next) by {
        crate::addrspace::lemma_segment_frames_ascend(shape, segs, i + 1, SEGMENT_MAX as int);
    }
    assert(next + 2 * PAGE_SIZE <= shape.next) by {
        crate::addrspace::lemma_run_missing_grows(
            Set::empty(),
            Set::empty(),
            syms.kernel_base,
            0,
            syms.kernel_pages(),
        );
    }
    assert(vbase + off == seg.vaddr);
    assert(0 <= q < pages);
    assert(v == vbase + off + x);
    assert(crate::addrspace::page_at(vbase, q) <= v < crate::addrspace::page_at(vbase, q)
        + PAGE_SIZE);
    lemma_lookup_skips_unshadowed(kernel_lookup(syms, v), shape, segs, i + 1, SEGMENT_MAX as int, v);
    assert(walk(mem, top, v) == process_lookup(next, syms, segs, v));
    assert(vbase % PAGE_SIZE == 0) by {
        crate::utils::lemma_align_down_is_greatest(seg.vaddr as int, PAGE_SIZE as int);
    }
    assert(crate::addrspace::user_flags(seg).wf()) by {
        let b = seg.flags.bits;
        assert(b & !0x1fu64 == 0 ==> (b | 0x10) & !0x1fu64 == 0) by (bit_vector);
    }
    crate::addrspace::lemma_run_translates(
        mem,
        top,
        segments_lookup(kernel_lookup(syms, v), shape, segs, i, v),
        vbase,
        frame as u64,
        pages,
        crate::addrspace::user_flags(seg),
        q,
        v,
    );
    assert(mem.byte(frame + (off + x)) == crate::addrspace::segment_byte(seg, off + x));
}

} // verus!
