//! The supervisor control and status registers that the kernel reads and writes.

use vstd::prelude::*;

verus! {

/// Names of the control and status registers.
#[derive(Debug, Clone, Copy, PartialEq, Eq, Structural)]
pub enum Csr {
    Stvec,
    Scause,
    Stval,
    Sepc,
    Sscratch,
    Satp,
    Sstatus,
}

/// `sstatus` bit: interrupts are enabled in supervisor mode.
pub const SSTATUS_SIE: u64 = 0x2;

/// `sstatus` bit: the value that SIE takes on `sret`.
pub const SSTATUS_SPIE: u64 = 0x20;

/// `sstatus` bit: the mode that `sret` returns to is supervisor mode.
pub const SSTATUS_SPP: u64 = 0x100;

/// `sstatus` bit: supervisor mode may access pages of user mode.
pub const SSTATUS_SUM: u64 = 0x4_0000;

/// Cause of a trap taken for an `ecall` in user mode.
pub const SCAUSE_ECALL: u64 = 8;

/// Cause of a trap taken for a store to a page that is not mapped for it.
pub const SCAUSE_STORE_PAGE_FAULT: u64 = 15;

/// The values of the control and status registers of one hart.
#[derive(Debug, Clone, Copy, PartialEq, Eq, Structural)]
pub struct CsrFile {
    pub stvec: u64,
    pub scause: u64,
    pub stval: u64,
    pub sepc: u64,
    pub sscratch: u64,
    pub satp: u64,
    pub sstatus: u64,
}

/// The value of register `csr` in `f`.
pub open spec fn csr_value(f: CsrFile, csr: Csr) -> u64 {
    match csr {
        Csr::Stvec => f.stvec,
        Csr::Scause => f.scause,
        Csr::Stval => f.stval,
        Csr::Sepc => f.sepc,
        Csr::Sscratch => f.sscratch,
        Csr::Satp => f.satp,
        Csr::Sstatus => f.sstatus,
    }
}

/// `f` with register `csr` set to `value`.
pub open spec fn csr_written(f: CsrFile, csr: Csr, value: u64) -> CsrFile {
    match csr {
        Csr::Stvec => CsrFile { stvec: value, ..f },
        Csr::Scause => CsrFile { scause: value, ..f },
        Csr::Stval => CsrFile { stval: value, ..f },
        Csr::Sepc => CsrFile { sepc: value, ..f },
        Csr::Sscratch => CsrFile { sscratch: value, ..f },
        Csr::Satp => CsrFile { satp: value, ..f },
        Csr::Sstatus => CsrFile { sstatus: value, ..f },
    }
}

impl CsrFile {
    /// All registers zero, as after reset.
    pub fn new() -> (f: CsrFile)
        ensures
            f == (CsrFile {
                stvec: 0,
                scause: 0,
                stval: 0,
                sepc: 0,
                sscratch: 0,
                satp: 0,
                sstatus: 0,
            }),
    {
        CsrFile { stvec: 0, scause: 0, stval: 0, sepc: 0, sscratch: 0, satp: 0, sstatus: 0 }
    }
}

/// Reads register `csr`.
pub fn read_csr(f: &CsrFile, csr: Csr) -> (value: u64)
    ensures
        value == csr_value(*f, csr),
{
    match csr {
        Csr::Stvec => f.stvec,
        Csr::Scause => f.scause,
        Csr::Stval => f.stval,
        Csr::Sepc => f.sepc,
        Csr::Sscratch => f.sscratch,
        Csr::Satp => f.satp,
        Csr::Sstatus => f.sstatus,
    }
}

/// Writes `value` to register `csr`; the other registers keep their values.
pub fn write_csr(f: &mut CsrFile, csr: Csr, value: u64)
    ensures
        *final(f) == csr_written(*old(f), csr, value),
        csr_value(*final(f), csr) == value,
{
    match csr {
        Csr::Stvec => {
            f.stvec = value;
        },
        Csr::Scause => {
            f.scause = value;
        },
        Csr::Stval => {
            f.stval = value;
        },
        Csr::Sepc => {
            f.sepc = value;
        },
        Csr::Sscratch => {
            f.sscratch = value;
        },
        Csr::Satp => {
            f.satp = value;
        },
        Csr::Sstatus => {
            f.sstatus = value;
        },
    }
}

/// Lets supervisor mode access user pages: sets SUM in `sstatus`.
pub fn set_sum(f: &mut CsrFile)
    ensures
        *final(f) == (CsrFile { sstatus: old(f).sstatus | SSTATUS_SUM, ..*old(f) }),
{
    f.sstatus = f.sstatus | SSTATUS_SUM;
}

/// Ends the access of supervisor mode to user pages: clears SUM in `sstatus`.
pub fn clear_sum(f: &mut CsrFile)
    ensures
        *final(f) == (CsrFile { sstatus: old(f).sstatus & !SSTATUS_SUM, ..*old(f) }),
        final(f).sstatus & SSTATUS_SUM == 0,
{
    let s = f.sstatus;
    assert((s & !0x4_0000u64) & 0x4_0000u64 == 0) by (bit_vector);
    f.sstatus = f.sstatus & !SSTATUS_SUM;
}

} // verus!
