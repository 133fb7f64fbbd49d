//! The kernel heap: a bump pointer over one region, for small blocks that
//! are never given back.

use crate::utils::{align_up, spec_align_up};
use vstd::prelude::*;

verus! {

/// The allocator of the heap `[head, end)`, where `head` is the first byte
/// that has not been handed out.
#[derive(Debug, Clone, Copy, PartialEq, Eq, Structural)]
pub struct BumpPointerAlloc {
    pub head: u64,
    pub end: u64,
}

/// Where a block aligned to `align` starts in a heap whose bump pointer
/// stands at `head`.
pub open spec fn block_start(head: u64, align: u64) -> int {
    spec_align_up(head as int, align as int)
}

impl BumpPointerAlloc {
    /// The allocator before the heap is known: it has no memory.
    pub fn uninit() -> (a: BumpPointerAlloc)
        ensures
            a.head == 0,
            a.end == 0,
    {
        BumpPointerAlloc { head: 0, end: 0 }
    }

    /// Gives the allocator the heap `[start, end)`.
    pub fn init_heap(&mut self, start: u64, end: u64)
        ensures
            final(self).head == start,
            final(self).end == end,
    {
        self.head = start;
        self.end = end;
    }

    /// Hands out a block aligned to `align`, which is one alignment unit
    /// long, and returns its address; nothing if the heap has no room for it.
    /// The block starts at the bump pointer rounded up, and the bump pointer
    /// moves behind it.
    pub fn alloc_block(&mut self, align: u64) -> (r: Option<u64>)
        requires
            align > 0,
        ensures
            final(self).end == old(self).end,
            match r {
                Some(start) => {
                    &&& start == block_start(old(self).head, align)
                    &&& start % align == 0
                    &&& old(self).head <= start
                    &&& start + align <= old(self).end
                    &&& final(self).head == start + align
                },
                None => {
                    &&& block_start(old(self).head, align) + align > old(self).end
                    &&& final(self).head == old(self).head
                },
            },
    {
        proof {
            crate::utils::lemma_align_up_is_least(self.head as int, align as int);
        }
        let res = self.head % align;
        if res != 0 && self.head > u64::MAX - (align - res) {
            return None;
        }
        let start = align_up(self.head, align);
        if start > u64::MAX - align || start + align > self.end {
            None
        } else {
            self.head = start + align;
            Some(start)
        }
    }
}

} // verus!
