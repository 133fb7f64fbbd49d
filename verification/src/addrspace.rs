//! Building an address space: the identity map of the kernel, and the
//! segments of a user program in frames of their own.

use crate::allocator::{lemma_free_pages_after, AllocError, PageAllocator};
use crate::loadelf::{LoadableSegment, LoadedElf, SegmentView, SEGMENT_MAX};
use crate::pagetable::{
    is_table, last_key, last_tables, lemma_frame_outside, lemma_new_frames_keep_space,
    lemma_only_tables_touched_twice, lemma_tables_are_allocated, lemma_tables_missing_by_place,
    map_page, mid_key, mid_tables, only_tables_touched, page_missing, table_tree, tree_ok,
};
use crate::paging::{leaf_pte, vpn, walk, PageFlags, PTE_U};
use crate::physmem::PhysMemory;
use crate::proc::ProcError;
use crate::symbols::KernelSymbols;
use crate::utils::{align_down, PAGE_SIZE};
use vstd::prelude::*;

verus! {

/// The address of page `q` of the run of pages that starts at `base`.
pub open spec fn page_at(base: u64, q: int) -> u64 {
    (base + q * PAGE_SIZE) as u64
}

/// The last page among the first `n` of the run from `base` that has the page
/// number of `v`, if there is one.
pub open spec fn last_covering(base: u64, n: int, v: u64) -> Option<int>
    decreases n,
{
    if n <= 0 {
        None
    } else if vpn(page_at(base, n - 1)) == vpn(v) {
        Some(n - 1)
    } else {
        last_covering(base, n - 1, v)
    }
}

/// The places of middle tables after the first `n` pages of the run from
/// `base` were mapped into an address space with middle tables at `mids`.
pub open spec fn mids_after(mids: Set<int>, base: u64, n: int) -> Set<int>
    decreases n,
{
    if n <= 0 {
        mids
    } else {
        mids_after(mids, base, n - 1).insert(mid_key(page_at(base, n - 1)))
    }
}

/// The places of last-level tables after the first `n` pages of the run from
/// `base` were mapped into an address space with last-level tables at `lasts`.
pub open spec fn lasts_after(lasts: Set<int>, base: u64, n: int) -> Set<int>
    decreases n,
{
    if n <= 0 {
        lasts
    } else {
        lasts_after(lasts, base, n - 1).insert(last_key(page_at(base, n - 1)))
    }
}

/// How many tables mapping the first `n` pages of the run from `base` adds to
/// an address space with tables at `mids` and `lasts`.
pub open spec fn run_missing(mids: Set<int>, lasts: Set<int>, base: u64, n: int) -> int
    decreases n,
{
    if n <= 0 {
        0
    } else {
        run_missing(mids, lasts, base, n - 1) + page_missing(
            mids_after(mids, base, n - 1),
            lasts_after(lasts, base, n - 1),
            page_at(base, n - 1),
        )
    }
}

/// A longer run needs no fewer tables.
pub proof fn lemma_run_missing_grows(mids: Set<int>, lasts: Set<int>, base: u64, m: int, n: int)
    requires
        0 <= m <= n,
    ensures
        0 <= run_missing(mids, lasts, base, m) <= run_missing(mids, lasts, base, n),
    decreases n,
{
    if m < n {
        lemma_run_missing_grows(mids, lasts, base, m, n - 1);
    } else if n > 0 {
        lemma_run_missing_grows(mids, lasts, base, m - 1, n - 1);
    }
}

/// What a lookup of `v` finds after the `n` pages from `vbase` were mapped to
/// the frames from `pbase` with `flags`, where it found `before` before.
pub open spec fn run_lookup(
    before: Option<u64>,
    vbase: u64,
    pbase: u64,
    n: int,
    flags: PageFlags,
    v: u64,
) -> Option<u64> {
    match last_covering(vbase, n, v) {
        Some(q) => Some(leaf_pte(page_at(pbase, q), flags.bits)),
        None => before,
    }
}

/// What counts of an address space for the frames that mapping will take:
/// the places where it has tables, and the allocator's bump pointer.
pub ghost struct Shape {
    pub mids: Set<int>,
    pub lasts: Set<int>,
    pub next: int,
}

/// The shape of the address space under `top`.
pub open spec fn shape_of(mem: &PhysMemory, alloc: &PageAllocator, top: int) -> Shape {
    Shape { mids: mid_tables(mem, top), lasts: last_tables(mem, top), next: alloc.next as int }
}

/// The shape after the `n` pages from `vbase` on were mapped: each missing
/// table took one frame.
pub open spec fn shape_after_run(s: Shape, vbase: u64, n: int) -> Shape {
    Shape {
        mids: mids_after(s.mids, vbase, n),
        lasts: lasts_after(s.lasts, vbase, n),
        next: s.next + PAGE_SIZE * run_missing(s.mids, s.lasts, vbase, n),
    }
}

/// Maps the `n` pages from `vbase` on to the `n` frames from `pbase` on, with
/// `flags`, in the address space under `top`, lowest page first.
///
/// The call succeeds exactly when the frames for the missing tables fit into
/// the page area. Then a lookup finds the frame of the last page of the run
/// with the page number looked up, and what it found before where the run has
/// no such page. RAM changes only inside the tables of this address space and
/// inside frames handed out by this call.
pub fn map_range(
    mem: &mut PhysMemory,
    alloc: &mut PageAllocator,
    top: u64,
    vbase: u64,
    pbase: u64,
    n: u64,
    flags: PageFlags,
) -> (r: Result<(), AllocError>)
    requires
        table_tree(old(mem), old(alloc), top as int),
        vbase % PAGE_SIZE == 0,
        pbase % PAGE_SIZE == 0,
        vbase + n * PAGE_SIZE <= u64::MAX + 1,
        pbase + n * PAGE_SIZE <= 0x100_0000_0000_0000,
        flags.wf(),
    ensures
        table_tree(final(mem), final(alloc), top as int),
        only_tables_touched(old(mem), final(mem), old(alloc), final(alloc), top as int),
        r is Ok <==> shape_after_run(shape_of(old(mem), old(alloc), top as int), vbase, n as int).next
            <= old(alloc).end,
        r is Err ==> r == Err::<(), AllocError>(AllocError::OutOfMemory),
        r is Ok ==> {
            &&& shape_of(final(mem), final(alloc), top as int) == shape_after_run(
                shape_of(old(mem), old(alloc), top as int),
                vbase,
                n as int,
            )
            &&& forall|v: u64|
                #[trigger] walk(final(mem), top as int, v) == run_lookup(
                    walk(old(mem), top as int, v),
                    vbase,
                    pbase,
                    n as int,
                    flags,
                    v,
                )
        },
{
    let ghost mids = mid_tables(old(mem), top as int);
    let ghost lasts = last_tables(old(mem), top as int);
    proof {
        let own = choose|own: Map<int, (int, int, int)>|
            tree_ok(old(mem), old(alloc), top as int, own);
        assert(tree_ok(old(mem), old(alloc), top as int, own));
    }
    let mut q: u64 = 0;
    while q < n
        invariant
            q <= n,
            vbase % PAGE_SIZE == 0,
            pbase % PAGE_SIZE == 0,
            vbase + n * PAGE_SIZE <= u64::MAX + 1,
            pbase + n * PAGE_SIZE <= 0x100_0000_0000_0000,
            flags.wf(),
            old(alloc).wf(),
            old(mem).wf(),
            mids == mid_tables(old(mem), top as int),
            lasts == last_tables(old(mem), top as int),
            table_tree(mem, alloc, top as int),
            only_tables_touched(old(mem), mem, old(alloc), alloc, top as int),
            alloc.next == old(alloc).next + PAGE_SIZE * run_missing(mids, lasts, vbase, q as int),
            run_missing(mids, lasts, vbase, q as int) >= 0,
            mid_tables(mem, top as int) == mids_after(mids, vbase, q as int),
            last_tables(mem, top as int) == lasts_after(lasts, vbase, q as int),
            forall|v: u64|
                #[trigger] walk(mem, top as int, v) == run_lookup(
                    walk(old(mem), top as int, v),
                    vbase,
                    pbase,
                    q as int,
                    flags,
                    v,
                ),
        decreases n - q,
    {
        let ghost m1 = *mem;
        let ghost al1 = *alloc;
        let vaddr = vbase + q * PAGE_SIZE;
        let paddr = pbase + q * PAGE_SIZE;
        proof {
            let own = choose|own: Map<int, (int, int, int)>| tree_ok(&m1, &al1, top as int, own);
            assert(tree_ok(&m1, &al1, top as int, own));
            lemma_tables_missing_by_place(&m1, top as int, vaddr);
            lemma_free_pages_after(old(alloc), &al1, run_missing(mids, lasts, vbase, q as int));
            lemma_run_missing_grows(mids, lasts, vbase, q + 1, n as int);
            assert(vaddr == page_at(vbase, q as int));
            assert(paddr == page_at(pbase, q as int));
        }
        let r = map_page(mem, alloc, top, vaddr, paddr, flags);
        proof {
            lemma_only_tables_touched_twice(
                old(mem),
                &m1,
                mem,
                old(alloc),
                &al1,
                alloc,
                top as int,
            );
        }
        if r.is_err() {
            return Err(AllocError::OutOfMemory);
        }
        proof {
            assert forall|v: u64|
                #[trigger] walk(mem, top as int, v) == run_lookup(
                    walk(old(mem), top as int, v),
                    vbase,
                    pbase,
                    q + 1,
                    flags,
                    v,
                ) by {
                assert(walk(&m1, top as int, v) == run_lookup(
                    walk(old(mem), top as int, v),
                    vbase,
                    pbase,
                    q as int,
                    flags,
                    v,
                ));
            }
        }
        q += 1;
    }
    Ok(())
}

/// The permissions of the kernel's pages: R, W and X.
pub open spec fn kernel_flags() -> PageFlags {
    PageFlags { bits: 0x0e }
}

/// Maps the kernel into the address space under `top`: every page from the
/// start of the image to the end of the page area to the frame of the same
/// address, readable, writable and executable in supervisor mode only.
pub fn map_kernel_pages(
    mem: &mut PhysMemory,
    alloc: &mut PageAllocator,
    top: u64,
    syms: &KernelSymbols,
) -> (r: Result<(), AllocError>)
    requires
        table_tree(old(mem), old(alloc), top as int),
        syms.wf(),
    ensures
        table_tree(final(mem), final(alloc), top as int),
        only_tables_touched(old(mem), final(mem), old(alloc), final(alloc), top as int),
        r is Ok <==> shape_after_run(
            shape_of(old(mem), old(alloc), top as int),
            syms.kernel_base,
            syms.kernel_pages(),
        ).next <= old(alloc).end,
        r is Err ==> r == Err::<(), AllocError>(AllocError::OutOfMemory),
        r is Ok ==> {
            &&& shape_of(final(mem), final(alloc), top as int) == shape_after_run(
                shape_of(old(mem), old(alloc), top as int),
                syms.kernel_base,
                syms.kernel_pages(),
            )
            &&& forall|v: u64|
                #[trigger] walk(final(mem), top as int, v) == run_lookup(
                    walk(old(mem), top as int, v),
                    syms.kernel_base,
                    syms.kernel_base,
                    syms.kernel_pages(),
                    kernel_flags(),
                    v,
                )
        },
{
    let flags = PageFlags::r().union(PageFlags::w()).union(PageFlags::x());
    assert(flags.bits == 0x0e) by {
        assert((0x02u64 | 0x04u64) | 0x08u64 == 0x0e) by (bit_vector);
    }
    let len = syms.page_area_end - syms.kernel_base;
    let n = len / PAGE_SIZE + if len % PAGE_SIZE != 0 {
        1
    } else {
        0
    };
    assert(n == syms.kernel_pages());
    map_range(mem, alloc, top, syms.kernel_base, syms.kernel_base, n, flags)
}

/// Number of frames that hold `seg` in memory.
pub open spec fn seg_pages(seg: SegmentView) -> int {
    (seg.memsz + PAGE_SIZE - 1) / (PAGE_SIZE as int)
}

/// Address of the first page that `seg` is mapped at.
pub open spec fn seg_vbase(seg: SegmentView) -> u64 {
    (seg.vaddr - seg.vaddr % PAGE_SIZE) as u64
}

/// Offset of the first byte of `seg` in its first frame.
pub open spec fn seg_offset(seg: SegmentView) -> int {
    (seg.vaddr % PAGE_SIZE) as int
}

/// The segment's bytes are as many as it says, and its flags are page flags.
pub open spec fn seg_wf(seg: SegmentView) -> bool {
    seg.data.len() == seg.filesz && seg.flags.wf()
}

/// The bytes of `seg` fit into its frames behind the offset of its first
/// byte, and its pages end inside the address space.
pub open spec fn seg_fits(seg: SegmentView) -> bool {
    &&& seg_offset(seg) + seg.filesz <= seg_pages(seg) * PAGE_SIZE
    &&& seg_vbase(seg) + seg_pages(seg) * PAGE_SIZE <= u64::MAX + 1
}

/// The byte at offset `x` of the frames of `seg`: the bytes of the image
/// behind the offset of the first, and zero before and after them.
pub open spec fn segment_byte(seg: SegmentView, x: int) -> u8 {
    if seg_offset(seg) <= x < seg_offset(seg) + seg.filesz {
        seg.data[x - seg_offset(seg)]
    } else {
        0
    }
}

/// The permissions of the pages of `seg`: those of the segment, for user mode.
pub open spec fn user_flags(seg: SegmentView) -> PageFlags {
    PageFlags { bits: seg.flags.bits | PTE_U }
}

/// The shape after `seg` was given its frames and mapped.
pub open spec fn shape_after_segment(s: Shape, seg: SegmentView) -> Shape {
    shape_after_run(
        Shape { next: s.next + seg_pages(seg) * PAGE_SIZE, ..s },
        seg_vbase(seg),
        seg_pages(seg),
    )
}

/// Why `seg` cannot be put into an address space of shape `s` whose page
/// area ends at `end`, if it cannot.
pub open spec fn segment_fault(s: Shape, end: int, seg: SegmentView) -> Option<ProcError> {
    if !seg_fits(seg) {
        Some(ProcError::BadSegment)
    } else if seg_pages(seg) * PAGE_SIZE > u64::MAX {
        Some(ProcError::Alloc(AllocError::OverFlow))
    } else if shape_after_segment(s, seg).next > end {
        Some(ProcError::Alloc(AllocError::OutOfMemory))
    } else {
        None
    }
}

/// The shape after the first `n` of `segs` were put into the address space.
pub open spec fn shape_after_segments(s: Shape, segs: Seq<Option<SegmentView>>, n: int) -> Shape
    decreases n,
{
    if n <= 0 {
        s
    } else {
        match segs[n - 1] {
            None => shape_after_segments(s, segs, n - 1),
            Some(seg) => shape_after_segment(shape_after_segments(s, segs, n - 1), seg),
        }
    }
}

/// Why the first `n` of `segs` cannot be put, one after the other, into an
/// address space of shape `s` whose page area ends at `end`, if they cannot:
/// the fault of the first segment that has one.
pub open spec fn segments_fault(
    s: Shape,
    end: int,
    segs: Seq<Option<SegmentView>>,
    n: int,
) -> Option<ProcError>
    decreases n,
{
    if n <= 0 {
        None
    } else {
        match segments_fault(s, end, segs, n - 1) {
            Some(e) => Some(e),
            None => match segs[n - 1] {
                None => None,
                Some(seg) => segment_fault(shape_after_segments(s, segs, n - 1), end, seg),
            },
        }
    }
}

/// The address of the first frame of segment `i`: the bump pointer after the
/// segments before it.
pub open spec fn segment_frame(s: Shape, segs: Seq<Option<SegmentView>>, i: int) -> int {
    shape_after_segments(s, segs, i).next
}

/// What a lookup of `v` finds after the first `n` of `segs` were mapped,
/// where it found `before` before: the page of the last segment that has a
/// page with the page number of `v`.
pub open spec fn segments_lookup(
    before: Option<u64>,
    s: Shape,
    segs: Seq<Option<SegmentView>>,
    n: int,
    v: u64,
) -> Option<u64>
    decreases n,
{
    if n <= 0 {
        before
    } else {
        match segs[n - 1] {
            None => segments_lookup(before, s, segs, n - 1, v),
            Some(seg) => run_lookup(
                segments_lookup(before, s, segs, n - 1, v),
                seg_vbase(seg),
                segment_frame(s, segs, n - 1) as u64,
                seg_pages(seg),
                user_flags(seg),
                v,
            ),
        }
    }
}

/// The number of frames that hold `memsz` bytes.
fn pages_for(memsz: u64) -> (n: u64)
    ensures
        n == (memsz + PAGE_SIZE - 1) / (PAGE_SIZE as int),
        n <= 0x10_0000_0000_0000,
{
    memsz / PAGE_SIZE + if memsz % PAGE_SIZE != 0 {
        1
    } else {
        0
    }
}

/// Tests whether `seg` fits its frames and the address space.
pub fn segment_fits(seg: &LoadableSegment) -> (r: bool)
    ensures
        r == seg_fits(seg@),
{
    let pages = pages_for(seg.memsz);
    let room = pages as u128 * PAGE_SIZE as u128;
    let off = seg.vaddr % PAGE_SIZE;
    let vbase = seg.vaddr - off;
    off as u128 + seg.filesz as u128 <= room && vbase as u128 + room <= u64::MAX as u128 + 1
}

/// Gives `seg` frames of its own, copies its bytes into them and maps them
/// for user mode into the address space under `top`. Returns the address of
/// the first frame.
///
/// The frames are the next of the page area, as many as `memsz` asks for.
/// They hold the bytes of the segment behind the offset of its address in its
/// page, and zeros elsewhere. Page `q` of the segment is mapped to frame `q`.
pub fn map_segment(
    mem: &mut PhysMemory,
    alloc: &mut PageAllocator,
    top: u64,
    seg: &LoadableSegment,
) -> (r: Result<u64, ProcError>)
    requires
        table_tree(old(mem), old(alloc), top as int),
        seg_wf(seg@),
    ensures
        table_tree(final(mem), final(alloc), top as int),
        only_tables_touched(old(mem), final(mem), old(alloc), final(alloc), top as int),
        match segment_fault(shape_of(old(mem), old(alloc), top as int), old(alloc).end as int, seg@) {
            Some(e) => r == Err::<u64, ProcError>(e),
            None => r is Ok,
        },
        r is Err ==> r.unwrap_err() is BadSegment || r.unwrap_err() is Alloc,
        match r {
            Ok(frame) => {
                &&& frame == old(alloc).next
                &&& shape_of(final(mem), final(alloc), top as int) == shape_after_segment(
                    shape_of(old(mem), old(alloc), top as int),
                    seg@,
                )
                &&& forall|v: u64|
                    #[trigger] walk(final(mem), top as int, v) == run_lookup(
                        walk(old(mem), top as int, v),
                        seg_vbase(seg@),
                        frame,
                        seg_pages(seg@),
                        user_flags(seg@),
                        v,
                    )
                &&& forall|x: int|
                    0 <= x < seg_pages(seg@) * PAGE_SIZE ==> #[trigger] final(mem).byte(frame + x)
                        == segment_byte(seg@, x)
                &&& forall|a: int|
                    frame <= a < frame + seg_pages(seg@) * PAGE_SIZE ==> !#[trigger] is_table(
                        final(mem),
                        top as int,
                        a,
                    )
            },
            Err(_) => true,
        },
{
    let ghost m0 = *mem;
    let ghost al0 = *alloc;
    let ghost s0 = shape_of(&m0, &al0, top as int);
    proof {
        let own = choose|own: Map<int, (int, int, int)>| tree_ok(&m0, &al0, top as int, own);
        assert(tree_ok(&m0, &al0, top as int, own));
    }
    if !segment_fits(seg) {
        return Err(ProcError::BadSegment);
    }
    let pages = pages_for(seg.memsz);
    let off = seg.vaddr % PAGE_SIZE;
    let vbase = align_down(seg.vaddr, PAGE_SIZE);
    proof {
        lemma_run_missing_grows(s0.mids, s0.lasts, vbase, 0, pages as int);
    }
    let frame = match alloc.alloc_pages(mem, pages) {
        Ok(p) => p,
        Err(e) => {
            return Err(ProcError::Alloc(e));
        },
    };
    let ghost ma = *mem;
    mem.copy_in(frame + off, seg.data);
    let ghost m1 = *mem;
    let ghost al1 = *alloc;
    proof {
        assert(m1.same_outside(&m0, al0.next as int, al1.next as int)) by {
            assert forall|a: int| m1.contains(a, 1) && !(al0.next <= a < al1.next) implies m1.byte(
                a,
            ) == m0.byte(a) by {
                assert(m1.byte(a) == ma.byte(a));
                assert(ma.byte(a) == m0.byte(a));
            }
        }
        lemma_new_frames_keep_space(&m0, &m1, &al0, &al1, top as int);
        assert forall|x: int| 0 <= x < pages * PAGE_SIZE implies #[trigger] m1.byte(frame + x)
            == segment_byte(seg@, x) by {
            if off <= x < off + seg.filesz {
                assert(m1.byte((frame + off) + (x - off)) == seg.data@[x - off]);
            } else {
                assert(m1.byte(frame + x) == ma.byte(frame + x));
            }
        }
    }
    let flags = seg.flags.union(PageFlags::u());
    let r = map_range(mem, alloc, top, vbase, frame, pages, flags);
    proof {
        lemma_only_tables_touched_twice(&m0, &m1, mem, &al0, &al1, alloc, top as int);
        assert(shape_of(&m1, &al1, top as int) == (Shape {
            next: s0.next + pages * PAGE_SIZE,
            ..s0
        }));
        assert forall|a: int| frame <= a < frame + pages * PAGE_SIZE implies !#[trigger] is_table(
            &m1,
            top as int,
            a,
        ) by {
            if is_table(&m1, top as int, a) {
                lemma_tables_are_allocated(&m0, &al0, top as int, a);
            }
        }
        assert forall|a: int| frame <= a < frame + pages * PAGE_SIZE implies !#[trigger] is_table(
            mem,
            top as int,
            a,
        ) by {
            assert(!is_table(&m1, top as int, a));
        }
        assert forall|x: int| 0 <= x < pages * PAGE_SIZE implies #[trigger] mem.byte(frame + x)
            == segment_byte(seg@, x) by {
            let a = frame + x;
            let fa = crate::pagetable::frame_of(a);
            lemma_frame_outside(0, frame as int, a);
            assert(frame <= fa <= a);
            assert(!is_table(&m1, top as int, fa));
            assert(mem.byte(a) == m1.byte(a));
        }
    }
    match r {
        Ok(_) => Ok(frame),
        Err(e) => Err(ProcError::Alloc(e)),
    }
}

/// The first fault stays the fault when more segments follow.
pub proof fn lemma_segments_fault_stays(
    s: Shape,
    end: int,
    segs: Seq<Option<SegmentView>>,
    n: int,
    m: int,
)
    requires
        0 <= n <= m,
        segments_fault(s, end, segs, n) is Some,
    ensures
        segments_fault(s, end, segs, m) == segments_fault(s, end, segs, n),
    decreases m,
{
    if n < m {
        lemma_segments_fault_stays(s, end, segs, n, m - 1);
    }
}

/// Whether the first `n` of the segments `segs` lie in frames of their own,
/// which hold their bytes and are no tables of the address space under `top`.
/// `s` is the shape that the address space had before, and `mem` what RAM holds
/// after.
pub open spec fn segments_placed(
    mem: &PhysMemory,
    top: int,
    s: Shape,
    segs: Seq<Option<SegmentView>>,
    n: int,
) -> bool {
    forall|i: int|
        0 <= i < n && (#[trigger] segs[i]) is Some ==> {
            let seg = segs[i].unwrap();
            let frame = segment_frame(s, segs, i);
            &&& frame % (PAGE_SIZE as int) == 0
            &&& s.next <= frame
            &&& frame + seg_pages(seg) * PAGE_SIZE <= segment_frame(s, segs, i + 1)
            &&& forall|x: int|
                0 <= x < seg_pages(seg) * PAGE_SIZE ==> #[trigger] mem.byte(frame + x)
                    == segment_byte(seg, x)
            &&& forall|a: int|
                frame <= a < frame + seg_pages(seg) * PAGE_SIZE ==> !#[trigger] is_table(
                    mem,
                    top,
                    a,
                )
        }
}

/// Segments that follow take frames above those of the segments before them.
pub proof fn lemma_segment_frames_ascend(
    s: Shape,
    segs: Seq<Option<SegmentView>>,
    n: int,
    m: int,
)
    requires
        0 <= n <= m,
    ensures
        segment_frame(s, segs, n) <= segment_frame(s, segs, m),
    decreases m,
{
    if n < m {
        lemma_segment_frames_ascend(s, segs, n, m - 1);
        match segs[m - 1] {
            None => {},
            Some(seg) => {
                let p = shape_after_segments(s, segs, m - 1);
                lemma_run_missing_grows(p.mids, p.lasts, seg_vbase(seg), 0, seg_pages(seg));
            },
        }
    }
}

/// Puts the loadable segments of `loaded` into the address space under `top`,
/// in the order of their slots: each gets frames of its own, is copied there
/// and mapped for user mode.
///
/// The call fails with the fault of the first segment that has one, and
/// succeeds if none has. Then each segment lies in its frames, and a lookup
/// finds the page of the last segment that has a page with the page number
/// looked up.
pub fn map_user_pages(
    mem: &mut PhysMemory,
    alloc: &mut PageAllocator,
    top: u64,
    loaded: &LoadedElf,
) -> (r: Result<(), ProcError>)
    requires
        table_tree(old(mem), old(alloc), top as int),
        forall|i: int|
            0 <= i < SEGMENT_MAX && (#[trigger] loaded@.segments[i]) is Some ==> seg_wf(
                loaded@.segments[i].unwrap(),
            ),
    ensures
        table_tree(final(mem), final(alloc), top as int),
        only_tables_touched(old(mem), final(mem), old(alloc), final(alloc), top as int),
        match segments_fault(
            shape_of(old(mem), old(alloc), top as int),
            old(alloc).end as int,
            loaded@.segments,
            SEGMENT_MAX as int,
        ) {
            Some(e) => r == Err::<(), ProcError>(e),
            None => r is Ok,
        },
        r is Err ==> r.unwrap_err() is BadSegment || r.unwrap_err() is Alloc,
        r is Ok ==> {
            &&& shape_of(final(mem), final(alloc), top as int) == shape_after_segments(
                shape_of(old(mem), old(alloc), top as int),
                loaded@.segments,
                SEGMENT_MAX as int,
            )
            &&& forall|v: u64|
                #[trigger] walk(final(mem), top as int, v) == segments_lookup(
                    walk(old(mem), top as int, v),
                    shape_of(old(mem), old(alloc), top as int),
                    loaded@.segments,
                    SEGMENT_MAX as int,
                    v,
                )
            &&& segments_placed(
                final(mem),
                top as int,
                shape_of(old(mem), old(alloc), top as int),
                loaded@.segments,
                SEGMENT_MAX as int,
            )
        },
{
    let ghost s0 = shape_of(old(mem), old(alloc), top as int);
    let ghost segs = loaded@.segments;
    let ghost end = old(alloc).end as int;
    proof {
        let own = choose|own: Map<int, (int, int, int)>|
            tree_ok(old(mem), old(alloc), top as int, own);
        assert(tree_ok(old(mem), old(alloc), top as int, own));
        lemma_new_frames_keep_space(old(mem), old(mem), old(alloc), old(alloc), top as int);
    }
    let mut idx: usize = 0;
    while idx < SEGMENT_MAX
        invariant
            idx <= SEGMENT_MAX,
            segs == loaded@.segments,
            s0 == shape_of(old(mem), old(alloc), top as int),
            end == old(alloc).end,
            old(alloc).wf(),
            old(mem).wf(),
            forall|i: int|
                0 <= i < SEGMENT_MAX && (#[trigger] loaded@.segments[i]) is Some ==> seg_wf(
                    loaded@.segments[i].unwrap(),
                ),
            table_tree(mem, alloc, top as int),
            only_tables_touched(old(mem), mem, old(alloc), alloc, top as int),
            segments_fault(s0, end, segs, idx as int) is None,
            shape_of(mem, alloc, top as int) == shape_after_segments(s0, segs, idx as int),
            forall|v: u64|
                #[trigger] walk(mem, top as int, v) == segments_lookup(
                    walk(old(mem), top as int, v),
                    s0,
                    segs,
                    idx as int,
                    v,
                ),
            segments_placed(mem, top as int, s0, segs, idx as int),
        decreases SEGMENT_MAX - idx,
    {
        let ghost m1 = *mem;
        let ghost al1 = *alloc;
        proof {
            let own = choose|own: Map<int, (int, int, int)>| tree_ok(&m1, &al1, top as int, own);
            assert(tree_ok(&m1, &al1, top as int, own));
        }
        match loaded.loadable_segments[idx] {
            None => {
                proof {
                    assert(segs[idx as int] is None);
                    assert(segment_frame(s0, segs, idx + 1) == segment_frame(s0, segs, idx as int));
                }
            },
            Some(seg) => {
                assert(segs[idx as int] == Some(seg@));
                let r = map_segment(mem, alloc, top, &seg);
                proof {
                    lemma_only_tables_touched_twice(
                        old(mem),
                        &m1,
                        mem,
                        old(alloc),
                        &al1,
                        alloc,
                        top as int,
                    );
                }
                match r {
                    Err(e) => {
                        proof {
                            assert(segments_fault(s0, end, segs, idx + 1) == Some(e));
                            lemma_segments_fault_stays(
                                s0,
                                end,
                                segs,
                                idx + 1,
                                SEGMENT_MAX as int,
                            );
                        }
                        return Err(e);
                    },
                    Ok(frame) => {
                        proof {
                            let p = shape_after_segments(s0, segs, idx as int);
                            lemma_run_missing_grows(
                                p.mids,
                                p.lasts,
                                seg_vbase(seg@),
                                0,
                                seg_pages(seg@),
                            );
                            lemma_segment_frames_ascend(s0, segs, 0, idx as int);
                            assert(frame == segment_frame(s0, segs, idx as int));
                            assert forall|v: u64|
                                #[trigger] walk(mem, top as int, v) == segments_lookup(
                                    walk(old(mem), top as int, v),
                                    s0,
                                    segs,
                                    idx + 1,
                                    v,
                                ) by {
                                assert(walk(&m1, top as int, v) == segments_lookup(
                                    walk(old(mem), top as int, v),
                                    s0,
                                    segs,
                                    idx as int,
                                    v,
                                ));
                            }
                            assert forall|i: int|
                                0 <= i < idx + 1 && (#[trigger] segs[i]) is Some implies {
                                let sg = segs[i].unwrap();
                                let fr = segment_frame(s0, segs, i);
                                &&& fr % (PAGE_SIZE as int) == 0
                                &&& s0.next <= fr
                                &&& fr + seg_pages(sg) * PAGE_SIZE <= segment_frame(s0, segs, i + 1)
                                &&& forall|x: int|
                                    0 <= x < seg_pages(sg) * PAGE_SIZE ==> #[trigger] mem.byte(
                                        fr + x,
                                    ) == segment_byte(sg, x)
                                &&& forall|a: int|
                                    fr <= a < fr + seg_pages(sg) * PAGE_SIZE ==> !#[trigger] is_table(
                                        mem,
                                        top as int,
                                        a,
                                    )
                            } by {
                                if i < idx {
                                    let sg = segs[i].unwrap();
                                    let fr = segment_frame(s0, segs, i);
                                    lemma_segment_frames_ascend(s0, segs, i + 1, idx as int);
                                    assert forall|a: int|
                                        fr <= a < fr + seg_pages(sg) * PAGE_SIZE implies !#[trigger] is_table(
                                        mem,
                                        top as int,
                                        a,
                                    ) by {
                                        assert(!is_table(&m1, top as int, a));
                                    }
                                    assert forall|x: int|
                                        0 <= x < seg_pages(sg) * PAGE_SIZE implies #[trigger] mem.byte(
                                        fr + x,
                                    ) == segment_byte(sg, x) by {
                                        let a = fr + x;
                                        let fa = crate::pagetable::frame_of(a);
                                        lemma_frame_outside(0, fr, a);
                                        assert(fr <= fa <= a);
                                        assert(!is_table(&m1, top as int, fa));
                                        assert(m1.byte(a) == segment_byte(sg, x));
                                        assert(mem.byte(a) == m1.byte(a));
                                    }
                                }
                            }
                        }
                    },
                }
            },
        }
        idx += 1;
    }
    Ok(())
}

/// Two pages less than 2^39 bytes apart have different page numbers.
pub proof fn lemma_near_pages_differ(a: u64, b: u64)
    requires
        a % PAGE_SIZE == 0,
        b % PAGE_SIZE == 0,
        a < b,
        b - a < 0x80_0000_0000,
    ensures
        vpn(a) != vpn(b),
{
    assert(a % 4096 == 0 && b % 4096 == 0 && a < b && b - a < 0x80_0000_0000 ==> (a >> 12)
        & 0x7ff_ffff != (b >> 12) & 0x7ff_ffff) by (bit_vector);
}

/// An address has the page number of the page it lies in.
pub proof fn lemma_vpn_of_page(page: u64, v: u64)
    requires
        page % PAGE_SIZE == 0,
        page <= v,
        v - page < PAGE_SIZE,
    ensures
        vpn(v) == vpn(page),
        v % PAGE_SIZE == v - page,
{
    assert(page % 4096 == 0 && page <= v && v - page < 4096 ==> (v >> 12) & 0x7ff_ffff == (page
        >> 12) & 0x7ff_ffff && v % 4096 == v - page) by (bit_vector);
}

/// In a run of at most 2^27 pages, which is as many as there are page
/// numbers, the only page with the page number of a page of the run is that
/// page.
pub proof fn lemma_last_covering_own_page(base: u64, n: int, q: int, v: u64)
    requires
        base % PAGE_SIZE == 0,
        0 <= q < n <= 0x800_0000,
        base + n * PAGE_SIZE <= u64::MAX + 1,
        vpn(v) == vpn(page_at(base, q)),
    ensures
        last_covering(base, n, v) == Some(q),
    decreases n,
{
    if n - 1 > q {
        lemma_near_pages_differ(page_at(base, q), page_at(base, n - 1));
        lemma_last_covering_own_page(base, n - 1, q, v);
    }
}

/// No page of a run has the page number of an address that lies less than
/// 2^39 bytes below the end of the run, and not in it.
pub proof fn lemma_last_covering_outside(base: u64, n: int, v: u64)
    requires
        base % PAGE_SIZE == 0,
        0 <= n,
        base + n * PAGE_SIZE <= u64::MAX + 1,
        v < 0x80_0000_0000,
        base + n * PAGE_SIZE <= 0x80_0000_0000,
        v < base || v >= base + n * PAGE_SIZE,
    ensures
        last_covering(base, n, v) is None,
    decreases n,
{
    if n > 0 {
        let p = page_at(base, n - 1);
        assert(p < 0x80_0000_0000 && v < 0x80_0000_0000 && p % 4096 == 0 && (v < p || v - p >= 4096)
            ==> (v >> 12) & 0x7ff_ffff != (p >> 12) & 0x7ff_ffff) by (bit_vector);
        lemma_last_covering_outside(base, n - 1, v);
    }
}

/// Where the `n` pages from `vbase` on were mapped to the frames from `pbase`
/// on, an address in page `q` of the run translates to the same offset in
/// frame `q`, as long as the run has no more pages than there are page
/// numbers.
pub proof fn lemma_run_translates(
    mem: &PhysMemory,
    top: int,
    before: Option<u64>,
    vbase: u64,
    pbase: u64,
    n: int,
    flags: PageFlags,
    q: int,
    v: u64,
)
    requires
        vbase % PAGE_SIZE == 0,
        pbase % PAGE_SIZE == 0,
        flags.wf(),
        0 <= q < n <= 0x800_0000,
        vbase + n * PAGE_SIZE <= u64::MAX + 1,
        pbase + n * PAGE_SIZE <= u64::MAX + 1,
        page_at(vbase, q) <= v < page_at(vbase, q) + PAGE_SIZE,
        walk(mem, top, v) == run_lookup(before, vbase, pbase, n, flags, v),
    ensures
        walk(mem, top, v) == Some(leaf_pte(page_at(pbase, q), flags.bits)),
        crate::paging::translate(mem, top, v) == Some(pbase + (v - vbase)),
{
    lemma_vpn_of_page(page_at(vbase, q), v);
    lemma_last_covering_own_page(vbase, n, q, v);
    crate::paging::lemma_leaf_pte(page_at(pbase, q), flags);
}

} // verus!
