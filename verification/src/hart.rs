//! The hart: its general-purpose registers, program counter, privilege mode
//! and control registers, with what the hardware does on a trap and on `sret`.

use crate::csr::{CsrFile, SCAUSE_ECALL, SSTATUS_SIE, SSTATUS_SPIE, SSTATUS_SPP};
use vstd::prelude::*;

verus! {

/// Privilege mode of the hart.
#[derive(Debug, Clone, Copy, PartialEq, Eq, Structural)]
pub enum Privilege {
    User,
    Supervisor,
}

/// The general-purpose registers x1 to x31 under their ABI names.
#[derive(Debug, Clone, Copy, PartialEq, Eq, Structural)]
pub struct Registers {
    pub ra: u64,
    pub sp: u64,
    pub gp: u64,
    pub tp: u64,
    pub t0: u64,
    pub t1: u64,
    pub t2: u64,
    pub t3: u64,
    pub t4: u64,
    pub t5: u64,
    pub t6: u64,
    pub a0: u64,
    pub a1: u64,
    pub a2: u64,
    pub a3: u64,
    pub a4: u64,
    pub a5: u64,
    pub a6: u64,
    pub a7: u64,
    pub s0: u64,
    pub s1: u64,
    pub s2: u64,
    pub s3: u64,
    pub s4: u64,
    pub s5: u64,
    pub s6: u64,
    pub s7: u64,
    pub s8: u64,
    pub s9: u64,
    pub s10: u64,
    pub s11: u64,
}

impl Registers {
    /// All registers zero.
    pub fn zero() -> (r: Registers)
        ensures
            r == zero_registers(),
    {
        Registers {
            ra: 0,
            sp: 0,
            gp: 0,
            tp: 0,
            t0: 0,
            t1: 0,
            t2: 0,
            t3: 0,
            t4: 0,
            t5: 0,
            t6: 0,
            a0: 0,
            a1: 0,
            a2: 0,
            a3: 0,
            a4: 0,
            a5: 0,
            a6: 0,
            a7: 0,
            s0: 0,
            s1: 0,
            s2: 0,
            s3: 0,
            s4: 0,
            s5: 0,
            s6: 0,
            s7: 0,
            s8: 0,
            s9: 0,
            s10: 0,
            s11: 0,
        }
    }
}

/// The register file with every register zero.
pub open spec fn zero_registers() -> Registers {
    Registers {
        ra: 0,
        sp: 0,
        gp: 0,
        tp: 0,
        t0: 0,
        t1: 0,
        t2: 0,
        t3: 0,
        t4: 0,
        t5: 0,
        t6: 0,
        a0: 0,
        a1: 0,
        a2: 0,
        a3: 0,
        a4: 0,
        a5: 0,
        a6: 0,
        a7: 0,
        s0: 0,
        s1: 0,
        s2: 0,
        s3: 0,
        s4: 0,
        s5: 0,
        s6: 0,
        s7: 0,
        s8: 0,
        s9: 0,
        s10: 0,
        s11: 0,
    }
}

/// One hart.
#[derive(Debug, Clone, Copy, PartialEq, Eq, Structural)]
pub struct Hart {
    pub regs: Registers,
    pub pc: u64,
    pub mode: Privilege,
    pub csr: CsrFile,
}

/// The hart as the kernel finds it when it starts: in supervisor mode, with
/// all registers zero but the trap vector, which is `stvec`.
pub open spec fn reset_hart(stvec: u64) -> Hart {
    Hart {
        regs: zero_registers(),
        pc: 0,
        mode: Privilege::Supervisor,
        csr: CsrFile { stvec, scause: 0, stval: 0, sepc: 0, sscratch: 0, satp: 0, sstatus: 0 },
    }
}

/// `sstatus` after a trap was taken from `mode`: SPP records the mode, SPIE
/// takes the value of SIE, and SIE is cleared.
pub open spec fn sstatus_on_trap(sstatus: u64, mode: Privilege) -> u64 {
    let spp = if mode == Privilege::Supervisor {
        SSTATUS_SPP
    } else {
        0
    };
    let spie = if sstatus & SSTATUS_SIE != 0 {
        SSTATUS_SPIE
    } else {
        0
    };
    (sstatus & !(SSTATUS_SPP | SSTATUS_SPIE | SSTATUS_SIE)) | spp | spie
}

/// `sstatus` after `sret`: SIE takes the value of SPIE, SPIE is set, and SPP
/// is cleared.
pub open spec fn sstatus_on_sret(sstatus: u64) -> u64 {
    let sie = if sstatus & SSTATUS_SPIE != 0 {
        SSTATUS_SIE
    } else {
        0
    };
    (sstatus & !(SSTATUS_SPP | SSTATUS_SIE)) | SSTATUS_SPIE | sie
}

/// The mode that `sret` returns to under `sstatus`.
pub open spec fn sret_mode(sstatus: u64) -> Privilege {
    if sstatus & SSTATUS_SPP != 0 {
        Privilege::Supervisor
    } else {
        Privilege::User
    }
}

/// The hart after it took a trap with `cause` and `tval`.
pub open spec fn hart_trapped(h: Hart, cause: u64, tval: u64) -> Hart {
    Hart {
        regs: h.regs,
        pc: h.csr.stvec,
        mode: Privilege::Supervisor,
        csr: CsrFile {
            scause: cause,
            stval: tval,
            sepc: h.pc,
            sstatus: sstatus_on_trap(h.csr.sstatus, h.mode),
            ..h.csr
        },
    }
}

/// The hart after it executed `sret`.
pub open spec fn hart_returned(h: Hart) -> Hart {
    Hart {
        regs: h.regs,
        pc: h.csr.sepc,
        mode: sret_mode(h.csr.sstatus),
        csr: CsrFile { sstatus: sstatus_on_sret(h.csr.sstatus), ..h.csr },
    }
}

/// A trap taken from user mode is returned from into user mode.
pub proof fn lemma_trap_from_user_returns_to_user(sstatus: u64)
    ensures
        sret_mode(sstatus_on_trap(sstatus, Privilege::User)) == Privilege::User,
        sret_mode(SSTATUS_SPIE) == Privilege::User,
{
    let s = sstatus;
    assert(((s & !(0x100u64 | 0x20u64 | 0x2u64)) | 0u64 | 0x20u64) & 0x100u64 == 0
        && ((s & !(0x100u64 | 0x20u64 | 0x2u64)) | 0u64 | 0u64) & 0x100u64 == 0 && 0x20u64
        & 0x100u64 == 0) by (bit_vector);
}

impl Hart {
    /// A hart in supervisor mode with all registers zero, as the kernel finds
    /// it when it starts, but with the trap vector set to `stvec`.
    pub fn new(stvec: u64) -> (h: Hart)
        ensures
            h == reset_hart(stvec),
    {
        let mut csr = CsrFile::new();
        csr.stvec = stvec;
        Hart { regs: Registers::zero(), pc: 0, mode: Privilege::Supervisor, csr }
    }

    /// What the hardware does when a trap is taken: the cause, the trap value
    /// and the program counter are recorded, and the hart goes on in
    /// supervisor mode at the trap vector.
    pub fn trap(&mut self, cause: u64, tval: u64)
        ensures
            *final(self) == hart_trapped(*old(self), cause, tval),
    {
        let spp = match self.mode {
            Privilege::Supervisor => SSTATUS_SPP,
            Privilege::User => 0,
        };
        let spie = if self.csr.sstatus & SSTATUS_SIE != 0 {
            SSTATUS_SPIE
        } else {
            0
        };
        self.csr.sstatus = (self.csr.sstatus & !(SSTATUS_SPP | SSTATUS_SPIE | SSTATUS_SIE)) | spp
            | spie;
        self.csr.scause = cause;
        self.csr.stval = tval;
        self.csr.sepc = self.pc;
        self.pc = self.csr.stvec;
        self.mode = Privilege::Supervisor;
    }

    /// What the hardware does for an `ecall` in user mode: a trap with the
    /// cause of an environment call.
    pub fn ecall(&mut self)
        ensures
            *final(self) == hart_trapped(*old(self), SCAUSE_ECALL, 0),
    {
        self.trap(SCAUSE_ECALL, 0);
    }

    /// What the hardware does for `sret`: the hart goes on at `sepc` in the
    /// mode that `sstatus` recorded.
    pub fn sret(&mut self)
        ensures
            *final(self) == hart_returned(*old(self)),
    {
        let sie = if self.csr.sstatus & SSTATUS_SPIE != 0 {
            SSTATUS_SIE
        } else {
            0
        };
        self.mode = if self.csr.sstatus & SSTATUS_SPP != 0 {
            Privilege::Supervisor
        } else {
            Privilege::User
        };
        self.csr.sstatus = (self.csr.sstatus & !(SSTATUS_SPP | SSTATUS_SIE)) | SSTATUS_SPIE | sie;
        self.pc = self.csr.sepc;
    }
}

} // verus!
