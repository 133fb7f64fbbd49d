//! The physical-page allocator: a bump pointer over one fixed region of RAM.
//!
//! Frames are handed out in address order and never taken back.

use crate::physmem::PhysMemory;
use crate::utils::PAGE_SIZE;
use vstd::prelude::*;

verus! {

/// Why an allocation was refused.
#[derive(Debug, Clone, Copy, PartialEq, Eq, Structural)]
pub enum AllocError {
    /// The region has fewer free bytes than were asked for.
    OutOfMemory,
    /// The number of bytes asked for is not representable.
    OverFlow,
}

/// The allocator of the page area `[start, end)`; `next` is the first byte
/// that has not been handed out.
#[derive(Debug, Clone, Copy, PartialEq, Eq, Structural)]
pub struct PageAllocator {
    pub start: u64,
    pub next: u64,
    pub end: u64,
}

impl PageAllocator {
    /// The bump pointer is page-aligned and inside the region, which ends
    /// where physical addresses end, at 2^56, or below.
    pub open spec fn wf(&self) -> bool {
        &&& self.start % PAGE_SIZE == 0
        &&& self.next % PAGE_SIZE == 0
        &&& self.start <= self.next <= self.end
        &&& self.end <= 0x100_0000_0000_0000
    }

    /// The region lies in the RAM `mem`.
    pub open spec fn within(&self, mem: &PhysMemory) -> bool {
        &&& mem.wf()
        &&& mem.base <= self.start
        &&& self.end <= mem.end()
    }

    /// Number of whole frames that can still be handed out.
    pub open spec fn free_pages(&self) -> int {
        (self.end - self.next) / (PAGE_SIZE as int)
    }

    /// Whether the frame at `addr` has been handed out.
    pub open spec fn allocated(&self, addr: int) -> bool {
        &&& addr % (PAGE_SIZE as int) == 0
        &&& self.start <= addr
        &&& addr + PAGE_SIZE <= self.next
    }

    /// An allocator with all of `[start, end)` free.
    pub fn new(start: u64, end: u64) -> (a: PageAllocator)
        requires
            start % PAGE_SIZE == 0,
            start <= end,
            end <= 0x100_0000_0000_0000,
        ensures
            a.wf(),
            a.start == start,
            a.next == start,
            a.end == end,
    {
        PageAllocator { start, next: start, end }
    }

    /// Number of whole frames that can still be handed out.
    pub fn available_pages(&self) -> (n: u64)
        requires
            self.wf(),
        ensures
            n == self.free_pages(),
    {
        (self.end - self.next) / PAGE_SIZE
    }

    /// Hands out `n` contiguous frames and returns the address of the first.
    ///
    /// The frames are the next `n` of the region, page-aligned, and every byte
    /// of them is zero on return. Nothing else in RAM changes. A request that
    /// cannot be met changes nothing.
    pub fn alloc_pages(&mut self, mem: &mut PhysMemory, n: u64) -> (r: Result<u64, AllocError>)
        requires
            old(self).wf(),
            old(self).within(old(mem)),
        ensures
            final(self).wf(),
            final(self).within(final(mem)),
            final(self).start == old(self).start,
            final(self).end == old(self).end,
            final(mem).base == old(mem).base,
            final(mem).bytes@.len() == old(mem).bytes@.len(),
            match r {
                Ok(p) => {
                    &&& old(self).next + n * PAGE_SIZE <= old(self).end
                    &&& p == old(self).next
                    &&& p % PAGE_SIZE == 0
                    &&& final(self).next == p + n * PAGE_SIZE
                    &&& forall|a: int| p <= a < p + n * PAGE_SIZE ==> #[trigger] final(mem).byte(a) == 0
                    &&& final(mem).same_outside(old(mem), p as int, p + n * PAGE_SIZE)
                },
                Err(e) => {
                    &&& *final(self) == *old(self)
                    &&& *final(mem) == *old(mem)
                    &&& e == AllocError::OverFlow <==> n * PAGE_SIZE > u64::MAX
                    &&& e == AllocError::OutOfMemory <==> n * PAGE_SIZE <= u64::MAX && old(self).next
                        + n * PAGE_SIZE > old(self).end
                },
            },
    {
        let len = match n.checked_mul(PAGE_SIZE) {
            Some(len) => len,
            None => {
                return Err(AllocError::OverFlow);
            },
        };
        if len > self.end - self.next {
            return Err(AllocError::OutOfMemory);
        }
        let p = self.next;
        mem.fill(p, 0, len);
        self.next = p + len;
        Ok(p)
    }
}

/// Frames taken off the free region lower the count of free frames by as many.
pub proof fn lemma_free_pages_after(al0: &PageAllocator, al1: &PageAllocator, c: int)
    requires
        al0.wf(),
        al1.wf(),
        al1.end == al0.end,
        c >= 0,
        al1.next == al0.next + PAGE_SIZE * c,
    ensures
        al1.free_pages() == al0.free_pages() - c,
{
    let d = al0.end - al0.next;
    assert((d - 4096 * c) / 4096 == d / 4096 - c) by {
        vstd::arithmetic::div_mod::lemma_fundamental_div_mod(d, 4096);
        vstd::arithmetic::div_mod::lemma_fundamental_div_mod_converse(
            d - 4096 * c,
            4096,
            d / 4096 - c,
            d % 4096,
        );
    }
}

} // verus!
