//! Sv39 page tables: three levels of 512 entries, each of which maps one
//! 4 KiB page or leads to the next table.
//!
//! A table is a frame of RAM; an entry is a 64-bit word in it. What an address
//! space maps is read off RAM by `walk`.

use crate::physmem::PhysMemory;
use crate::utils::PAGE_SIZE;
use vstd::prelude::*;

verus! {

/// Entry is valid.
pub const PTE_V: u64 = 0x01;

/// Page is readable.
pub const PTE_R: u64 = 0x02;

/// Page is writable.
pub const PTE_W: u64 = 0x04;

/// Page is executable.
pub const PTE_X: u64 = 0x08;

/// Page is accessible in user mode.
pub const PTE_U: u64 = 0x10;

/// The mode field of `satp` that selects Sv39.
pub const SATP_SV39: u64 = 0x8000_0000_0000_0000;

/// The permission bits of a page-table entry: a subset of V, R, W, X, U.
#[derive(Debug, Clone, Copy, PartialEq, Eq, Structural)]
pub struct PageFlags {
    pub bits: u64,
}

impl PageFlags {
    /// No bit outside V, R, W, X, U is set.
    pub open spec fn wf(&self) -> bool {
        self.bits & !0x1fu64 == 0
    }

    /// Whether every bit of `other` is set in `self`.
    pub open spec fn has(&self, other: PageFlags) -> bool {
        self.bits & other.bits == other.bits
    }

    /// No permission at all.
    pub fn empty() -> (f: PageFlags)
        ensures
            f.bits == 0,
            f.wf(),
    {
        assert(0u64 & !0x1fu64 == 0) by (bit_vector);
        PageFlags { bits: 0 }
    }

    /// The valid bit alone.
    pub fn v() -> (f: PageFlags)
        ensures
            f.bits == PTE_V,
            f.wf(),
    {
        assert(0x01u64 & !0x1fu64 == 0) by (bit_vector);
        PageFlags { bits: PTE_V }
    }

    /// Permission to read.
    pub fn r() -> (f: PageFlags)
        ensures
            f.bits == PTE_R,
            f.wf(),
    {
        assert(0x02u64 & !0x1fu64 == 0) by (bit_vector);
        PageFlags { bits: PTE_R }
    }

    /// Permission to write.
    pub fn w() -> (f: PageFlags)
        ensures
            f.bits == PTE_W,
            f.wf(),
    {
        assert(0x04u64 & !0x1fu64 == 0) by (bit_vector);
        PageFlags { bits: PTE_W }
    }

    /// Permission to execute.
    pub fn x() -> (f: PageFlags)
        ensures
            f.bits == PTE_X,
            f.wf(),
    {
        assert(0x08u64 & !0x1fu64 == 0) by (bit_vector);
        PageFlags { bits: PTE_X }
    }

    /// Access from user mode.
    pub fn u() -> (f: PageFlags)
        ensures
            f.bits == PTE_U,
            f.wf(),
    {
        assert(0x10u64 & !0x1fu64 == 0) by (bit_vector);
        PageFlags { bits: PTE_U }
    }

    /// The flags among V, R, W, X, U that are set in `bits`; other bits are dropped.
    pub fn from_bits_truncate(bits: u64) -> (f: PageFlags)
        ensures
            f.bits == bits & 0x1f,
            f.wf(),
    {
        assert((bits & 0x1f) & !0x1fu64 == 0) by (bit_vector);
        PageFlags { bits: bits & 0x1f }
    }

    /// The flags as a word.
    pub fn bits(&self) -> (b: u64)
        ensures
            b == self.bits,
    {
        self.bits
    }

    /// Whether every bit of `other` is set in `self`.
    pub fn contains(&self, other: PageFlags) -> (r: bool)
        ensures
            r == self.has(other),
    {
        self.bits & other.bits == other.bits
    }

    /// The flags set in `self` or in `other`.
    pub fn union(self, other: PageFlags) -> (f: PageFlags)
        ensures
            f.bits == self.bits | other.bits,
            self.wf() && other.wf() ==> f.wf(),
    {
        let a = self.bits;
        let b = other.bits;
        assert(a & !0x1fu64 == 0 && b & !0x1fu64 == 0 ==> (a | b) & !0x1fu64 == 0) by (bit_vector);
        PageFlags { bits: self.bits | other.bits }
    }
}

/// Index into the top-level table for `vaddr`.
pub open spec fn vpn2(vaddr: u64) -> u64 {
    (vaddr >> 30) & 0x1ff
}

/// Index into the middle table for `vaddr`.
pub open spec fn vpn1(vaddr: u64) -> u64 {
    (vaddr >> 21) & 0x1ff
}

/// Index into the last table for `vaddr`.
pub open spec fn vpn0(vaddr: u64) -> u64 {
    (vaddr >> 12) & 0x1ff
}

/// The 27-bit virtual page number of `vaddr`: the part of it that paging reads.
pub open spec fn vpn(vaddr: u64) -> u64 {
    (vaddr >> 12) & 0x7ff_ffff
}

/// Whether the valid bit of entry `e` is set.
pub open spec fn pte_valid(e: u64) -> bool {
    e & PTE_V != 0
}

/// The physical page number held by entry `e`: bits 10 to 53.
pub open spec fn pte_ppn(e: u64) -> u64 {
    (e >> 10) & 0xFFF_FFFF_FFFF
}

/// The physical address that entry `e` points to.
pub open spec fn pte_addr(e: u64) -> int {
    (e >> 10) * PAGE_SIZE
}

/// The V, R, W, X, U bits of entry `e`.
pub open spec fn pte_flags(e: u64) -> u64 {
    e & 0x1f
}

/// The low ten bits of entry `e`: its flags, those among them that the
/// kernel does not use, and the bits that are left to software.
pub open spec fn pte_low_bits(e: u64) -> u64 {
    e & 0x3ff
}

/// The leaf entry that maps a page to the frame at `paddr` with `flags`.
pub open spec fn leaf_pte(paddr: u64, flags: u64) -> u64 {
    ((paddr / PAGE_SIZE) << 10) | flags | PTE_V
}

/// The entry that points to the next-level table at `table`.
pub open spec fn table_pte(table: u64) -> u64 {
    ((table / PAGE_SIZE) << 10) | PTE_V
}

/// The three indices are table indices, and equal page numbers mean equal indices.
pub proof fn lemma_vpn_indices(v: u64, w: u64)
    ensures
        vpn2(v) < 512,
        vpn1(v) < 512,
        vpn0(v) < 512,
        vpn(v) == vpn(w) <==> vpn2(v) == vpn2(w) && vpn1(v) == vpn1(w) && vpn0(v) == vpn0(w),
{
    assert((v >> 30) & 0x1ff < 512 && (v >> 21) & 0x1ff < 512 && (v >> 12) & 0x1ff < 512)
        by (bit_vector);
    assert(((v >> 12) & 0x7ff_ffff == (w >> 12) & 0x7ff_ffff) <==> ((v >> 30) & 0x1ff == (w >> 30)
        & 0x1ff && (v >> 21) & 0x1ff == (w >> 21) & 0x1ff && (v >> 12) & 0x1ff == (w >> 12)
        & 0x1ff)) by (bit_vector);
}

/// A leaf entry is valid and holds exactly the given flags; it holds the
/// page number of the frame, where the address of the frame has no more than
/// the 56 bits of a physical address.
pub proof fn lemma_leaf_pte(paddr: u64, flags: PageFlags)
    requires
        flags.wf(),
    ensures
        pte_valid(leaf_pte(paddr, flags.bits)),
        paddr < 0x100_0000_0000_0000 ==> pte_ppn(leaf_pte(paddr, flags.bits)) == paddr / PAGE_SIZE,
        pte_flags(leaf_pte(paddr, flags.bits)) == flags.bits | PTE_V,
        paddr % PAGE_SIZE == 0 ==> pte_addr(leaf_pte(paddr, flags.bits)) == paddr,
{
    let p = paddr;
    let f = flags.bits;
    assert(f & !0x1fu64 == 0 ==> ((((p / 4096) << 10) | f | 1) & 1 != 0 && (((p / 4096) << 10) | f
        | 1) >> 10 == p / 4096 && (((p / 4096) << 10) | f | 1) & 0x1f == f | 1)) by (bit_vector);
    assert(p < 0x100_0000_0000_0000 ==> (p / 4096) & 0xFFF_FFFF_FFFF == p / 4096) by (bit_vector);
}

/// A table entry is valid and points to the table it was made for; of its
/// low ten bits V alone is set, so that R, W and X are clear. An entry that
/// points to a table and has V alone set among its low ten bits is the table
/// entry for that table.
pub proof fn lemma_table_pte(table: u64)
    requires
        table % PAGE_SIZE == 0,
    ensures
        pte_valid(table_pte(table)),
        pte_addr(table_pte(table)) == table,
        pte_low_bits(table_pte(table)) == PTE_V,
        forall|e: u64|
            pte_addr(e) == table && #[trigger] pte_low_bits(e) == PTE_V ==> e == table_pte(table),
{
    let t = table;
    assert((((t / 4096) << 10) | 1) & 1 != 0 && (((t / 4096) << 10) | 1) >> 10 == t / 4096 && (((t
        / 4096) << 10) | 1) & 0x3ff == 1) by (bit_vector);
    assert forall|e: u64| pte_addr(e) == table && #[trigger] pte_low_bits(e) == PTE_V implies e
        == table_pte(table) by {
        let q = e >> 10;
        assert(q == t / 4096);
        assert(q == e >> 10 && e & 0x3ff == 1 ==> ((q << 10) | 1) == e) by (bit_vector);
    }
}

/// Entry `idx` of the table at `table`.
pub open spec fn entry(mem: &PhysMemory, table: int, idx: int) -> u64 {
    mem.word(table + 8 * idx)
}

/// Whether `a` is the address of a whole frame of RAM.
pub open spec fn is_frame(mem: &PhysMemory, a: int) -> bool {
    a % (PAGE_SIZE as int) == 0 && mem.contains(a, PAGE_SIZE as int)
}

/// The table that entry `idx` of the table at `table` leads to, if that entry
/// can be read and is valid.
pub open spec fn next_level(mem: &PhysMemory, table: int, idx: int) -> Option<int> {
    if mem.contains(table + 8 * idx, 8) && pte_valid(entry(mem, table, idx)) {
        Some(pte_addr(entry(mem, table, idx)))
    } else {
        None
    }
}

/// The leaf entry that the tables under `top` hold for `vaddr`, if the three
/// entries on the way can be read and are valid.
pub open spec fn walk(mem: &PhysMemory, top: int, vaddr: u64) -> Option<u64> {
    match next_level(mem, top, vpn2(vaddr) as int) {
        None => None,
        Some(t1) => match next_level(mem, t1, vpn1(vaddr) as int) {
            None => None,
            Some(t0) => if mem.contains(t0 + 8 * vpn0(vaddr), 8) && pte_valid(
                entry(mem, t0, vpn0(vaddr) as int),
            ) {
                Some(entry(mem, t0, vpn0(vaddr) as int))
            } else {
                None
            },
        },
    }
}

/// The physical address that `vaddr` translates to under `top`.
pub open spec fn translate(mem: &PhysMemory, top: int, vaddr: u64) -> Option<int> {
    match walk(mem, top, vaddr) {
        None => None,
        Some(e) => Some(pte_addr(e) + vaddr % PAGE_SIZE),
    }
}

/// Reads entry `idx` of the table at `table`; `None` if the entry lies outside
/// RAM or is not valid.
fn follow(mem: &PhysMemory, table: u64, idx: u64) -> (r: Option<u64>)
    requires
        mem.wf(),
        idx < 512,
    ensures
        r == if mem.contains(table + 8 * idx, 8) && pte_valid(entry(mem, table as int, idx as int)) {
            Some(entry(mem, table as int, idx as int))
        } else {
            None
        },
{
    if table > u64::MAX - 8 * idx {
        return None;
    }
    let addr = table + 8 * idx;
    if !mem.in_range(addr, 8) {
        return None;
    }
    let e = mem.read_u64(addr);
    if e & PTE_V == 0 {
        None
    } else {
        Some(e)
    }
}

/// The address that the entry `e` points to, if it is representable.
pub fn entry_target(e: u64) -> (r: Option<u64>)
    ensures
        r == if pte_addr(e) <= u64::MAX {
            Some(pte_addr(e) as u64)
        } else {
            None::<u64>
        },
{
    let ppn = e >> 10;
    if ppn > u64::MAX / PAGE_SIZE {
        None
    } else {
        Some(ppn * PAGE_SIZE)
    }
}

/// Looks `vaddr` up in the tables under `top`, as the hardware would.
pub fn walk_page(mem: &PhysMemory, top: u64, vaddr: u64) -> (r: Option<u64>)
    requires
        mem.wf(),
    ensures
        r == walk(mem, top as int, vaddr),
{
    proof {
        lemma_vpn_indices(vaddr, vaddr);
    }
    let i = (vaddr >> 30) & 0x1ff;
    let j = (vaddr >> 21) & 0x1ff;
    let k = (vaddr >> 12) & 0x1ff;
    let e2 = match follow(mem, top, i) {
        Some(e) => e,
        None => {
            return None;
        },
    };
    let t1 = match entry_target(e2) {
        Some(t) => t,
        None => {
            return None;
        },
    };
    let e1 = match follow(mem, t1, j) {
        Some(e) => e,
        None => {
            return None;
        },
    };
    let t0 = match entry_target(e1) {
        Some(t) => t,
        None => {
            return None;
        },
    };
    follow(mem, t0, k)
}

/// Translates `vaddr` to a physical address through the tables under `top`.
pub fn translate_addr(mem: &PhysMemory, top: u64, vaddr: u64) -> (r: Option<u64>)
    requires
        mem.wf(),
    ensures
        match r {
            Some(pa) => translate(mem, top as int, vaddr) == Some(pa as int),
            None => translate(mem, top as int, vaddr) is None || translate(
                mem,
                top as int,
                vaddr,
            ).unwrap() > u64::MAX,
        },
{
    match walk_page(mem, top, vaddr) {
        None => None,
        Some(e) => match entry_target(e) {
            None => None,
            Some(frame) => {
                let off = vaddr % PAGE_SIZE;
                if frame > u64::MAX - off {
                    None
                } else {
                    Some(frame + off)
                }
            },
        },
    }
}

} // verus!
