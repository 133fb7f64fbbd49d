//! The addresses that the linker fixes and the kernel reads: where the kernel
//! image and the page area lie, and where its entry points stand.

use crate::utils::PAGE_SIZE;
use vstd::prelude::*;

verus! {

/// The symbols of one kernel image.
#[derive(Debug, Clone, Copy, PartialEq, Eq, Structural)]
pub struct KernelSymbols {
    /// First address of the kernel image.
    pub kernel_base: u64,
    /// First address of the page area, which the page allocator hands out.
    pub page_area_start: u64,
    /// The address just above the page area.
    pub page_area_end: u64,
    /// The trap vector.
    pub kernel_entry: u64,
    /// Where a process that has not run yet starts in the kernel.
    pub user_entry: u64,
    /// The loop of the idle process.
    pub idle_process: u64,
    /// Where a process that gave up the hart goes on in the kernel.
    pub switch_return: u64,
}

impl KernelSymbols {
    /// The image and the page area start on page boundaries, the page area
    /// lies above the start of the image and below the end of the physical
    /// addresses, which have 56 bits, and the three places at which a process
    /// can go on in the kernel differ.
    pub open spec fn wf(&self) -> bool {
        &&& self.kernel_base % PAGE_SIZE == 0
        &&& self.page_area_start % PAGE_SIZE == 0
        &&& self.kernel_base <= self.page_area_start <= self.page_area_end
        &&& self.page_area_end <= 0x100_0000_0000_0000
        &&& self.user_entry != self.idle_process
        &&& self.user_entry != self.switch_return
        &&& self.idle_process != self.switch_return
    }

    /// Number of pages from the start of the image to the end of the page area.
    pub open spec fn kernel_pages(&self) -> int {
        (self.page_area_end - self.kernel_base + PAGE_SIZE - 1) / (PAGE_SIZE as int)
    }

    /// Tests `wf`.
    pub fn is_wf(&self) -> (r: bool)
        ensures
            r == self.wf(),
    {
        self.kernel_base % PAGE_SIZE == 0 && self.page_area_start % PAGE_SIZE == 0
            && self.kernel_base <= self.page_area_start
            && self.page_area_start <= self.page_area_end
            && self.page_area_end <= 0x100_0000_0000_0000
            && self.user_entry != self.idle_process
            && self.user_entry != self.switch_return
            && self.idle_process != self.switch_return
    }
}

} // verus!
