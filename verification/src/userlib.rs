//! The system calls as a user program makes them: arguments go into `a0` to
//! `a2` and the number of the call into `a3`, `ecall` traps into the kernel,
//! and what the call returns comes back in `a0`, where -1 stands for failure.

use crate::console::Console;
use crate::csr::SCAUSE_ECALL;
use crate::hart::{hart_trapped, lemma_trap_from_user_returns_to_user, Hart, Registers};
use crate::kernel::{Kernel, TrapOutcome};
use crate::ksyscall::{
    SYS_CREATE_PROCESS, SYS_EXIT_PROCESS, SYS_READ_BYTE, SYS_WRITE_BYTE, SYS_YIELD_PROCESS,
};
use crate::trap::{entered, kernel_entry};
use crate::vfs::MemoryFs;
use vstd::prelude::*;

verus! {

/// The kernel `k0` at the moment the hart has trapped for an `ecall` of the
/// current process with the number `sysno` and the arguments `arg0` to `arg2`.
pub open spec fn at_ecall(k0: Kernel, sysno: u64, arg0: u64, arg1: u64, arg2: u64) -> Kernel {
    Kernel {
        hart: hart_trapped(
            Hart {
                regs: Registers { a0: arg0, a1: arg1, a2: arg2, a3: sysno, ..k0.hart.regs },
                ..k0.hart
            },
            SCAUSE_ECALL,
            0,
        ),
        ..k0
    }
}

/// The value in `a0` read as a signed number.
pub open spec fn signed(a0: u64) -> i64 {
    if a0 > i64::MAX {
        (a0 - 0x1_0000_0000_0000_0000) as i64
    } else {
        a0 as i64
    }
}

/// What a call returned, read from `a0`: -1 is failure, anything else the
/// value.
pub open spec fn sysret(a0: u64) -> Result<i64, i64> {
    if signed(a0) == -1 {
        Err(-1i64)
    } else {
        Ok(signed(a0))
    }
}

/// What a call that returns no value returned, read from `a0`: -1 is
/// failure, anything else success.
pub open spec fn sysdone(a0: u64) -> Result<(), i64> {
    if signed(a0) == -1 {
        Err(-1i64)
    } else {
        Ok(())
    }
}

/// Reads the value in `a0` as a signed number.
pub fn as_signed(a0: u64) -> (r: i64)
    ensures
        r == signed(a0),
{
    if a0 > i64::MAX as u64 {
        let below = u64::MAX - a0;
        -1 - (below as i64)
    } else {
        a0 as i64
    }
}

/// Makes the system call `sysno` with the arguments `arg0` to `arg2` for the
/// current process, and lets the kernel handle it. Returns how the kernel's
/// step ended, and what stands in `a0` after it.
pub fn syscall(
    k: &mut Kernel,
    console: &mut Console,
    fs: &MemoryFs,
    sysno: u64,
    arg0: u64,
    arg1: u64,
    arg2: u64,
) -> (r: (TrapOutcome, Result<i64, i64>))
    requires
        old(k).wf(),
        old(k).in_user(),
        old(console).wf(),
    ensures
        final(console).wf(),
        !(r.0 is Fatal) ==> final(k).wf(),
        r.0 is Resumed || r.0 is Listed || r.0 is Blocked ==> final(k).in_user(),
        at_ecall(*old(k), sysno, arg0, arg1, arg2).wf(),
        at_ecall(*old(k), sysno, arg0, arg1, arg2).trapped(),
        entered(
            at_ecall(*old(k), sysno, arg0, arg1, arg2),
            *old(console),
            *final(k),
            *final(console),
            *fs,
            r.0,
        ),
        r.1 == sysret(final(k).hart.regs.a0),
{
    k.hart.regs.a0 = arg0;
    k.hart.regs.a1 = arg1;
    k.hart.regs.a2 = arg2;
    k.hart.regs.a3 = sysno;
    proof {
        lemma_trap_from_user_returns_to_user(k.hart.csr.sstatus);
    }
    k.hart.ecall();
    assert(*k == at_ecall(*old(k), sysno, arg0, arg1, arg2));
    let out = kernel_entry(k, console, fs);
    let ret = as_signed(k.hart.regs.a0);
    if ret == -1 {
        (out, Err(ret))
    } else {
        (out, Ok(ret))
    }
}

/// Writes the byte `c` to the console.
pub fn write_byte(k: &mut Kernel, console: &mut Console, fs: &MemoryFs, c: u8) -> (r: (
    TrapOutcome,
    Result<(), i64>,
))
    requires
        old(k).wf(),
        old(k).in_user(),
        old(console).wf(),
    ensures
        final(console).wf(),
        !(r.0 is Fatal) ==> final(k).wf(),
        r.0 is Resumed || r.0 is Listed || r.0 is Blocked ==> final(k).in_user(),
        entered(
            at_ecall(*old(k), SYS_WRITE_BYTE, c as u64, 0, 0),
            *old(console),
            *final(k),
            *final(console),
            *fs,
            r.0,
        ),
        r.1 == sysdone(final(k).hart.regs.a0),
{
    let (out, ret) = syscall(k, console, fs, SYS_WRITE_BYTE, c as u64, 0, 0);
    match ret {
        Ok(_) => (out, Ok(())),
        Err(e) => (out, Err(e)),
    }
}

/// Reads a byte from the console. A value that is no byte is a failure.
pub fn read_byte(k: &mut Kernel, console: &mut Console, fs: &MemoryFs) -> (r: (
    TrapOutcome,
    Result<u8, i64>,
))
    requires
        old(k).wf(),
        old(k).in_user(),
        old(console).wf(),
    ensures
        final(console).wf(),
        !(r.0 is Fatal) ==> final(k).wf(),
        r.0 is Resumed || r.0 is Listed || r.0 is Blocked ==> final(k).in_user(),
        entered(
            at_ecall(*old(k), SYS_READ_BYTE, 0, 0, 0),
            *old(console),
            *final(k),
            *final(console),
            *fs,
            r.0,
        ),
        match r.1 {
            Ok(b) => final(k).hart.regs.a0 == b,
            Err(e) => e == -1 && final(k).hart.regs.a0 > 255,
        },
{
    let (out, ret) = syscall(k, console, fs, SYS_READ_BYTE, 0, 0, 0);
    match ret {
        Ok(v) => {
            if 0 <= v && v <= 255 {
                (out, Ok(v as u8))
            } else {
                (out, Err(-1))
            }
        },
        Err(e) => (out, Err(e)),
    }
}

/// Gives up the hart.
pub fn yield_process(k: &mut Kernel, console: &mut Console, fs: &MemoryFs) -> (r: (
    TrapOutcome,
    Result<(), i64>,
))
    requires
        old(k).wf(),
        old(k).in_user(),
        old(console).wf(),
    ensures
        final(console).wf(),
        !(r.0 is Fatal) ==> final(k).wf(),
        r.0 is Resumed || r.0 is Listed || r.0 is Blocked ==> final(k).in_user(),
        entered(
            at_ecall(*old(k), SYS_YIELD_PROCESS, 0, 0, 0),
            *old(console),
            *final(k),
            *final(console),
            *fs,
            r.0,
        ),
        r.1 == sysdone(final(k).hart.regs.a0),
{
    let (out, ret) = syscall(k, console, fs, SYS_YIELD_PROCESS, 0, 0, 0);
    match ret {
        Ok(_) => (out, Ok(())),
        Err(e) => (out, Err(e)),
    }
}

/// Ends the calling process.
pub fn exit_process(k: &mut Kernel, console: &mut Console, fs: &MemoryFs) -> (r: (
    TrapOutcome,
    Result<(), i64>,
))
    requires
        old(k).wf(),
        old(k).in_user(),
        old(console).wf(),
    ensures
        final(console).wf(),
        !(r.0 is Fatal) ==> final(k).wf(),
        r.0 is Resumed || r.0 is Listed || r.0 is Blocked ==> final(k).in_user(),
        entered(
            at_ecall(*old(k), SYS_EXIT_PROCESS, 0, 0, 0),
            *old(console),
            *final(k),
            *final(console),
            *fs,
            r.0,
        ),
        r.1 == sysdone(final(k).hart.regs.a0),
{
    let (out, ret) = syscall(k, console, fs, SYS_EXIT_PROCESS, 0, 0, 0);
    match ret {
        Ok(_) => (out, Ok(())),
        Err(e) => (out, Err(e)),
    }
}

/// Starts the program whose path lies in the memory of the calling process
/// at `path`, `len` bytes long. Returns the identifier of the new process.
pub fn create_process(
    k: &mut Kernel,
    console: &mut Console,
    fs: &MemoryFs,
    path: u64,
    len: u64,
) -> (r: (TrapOutcome, Result<i64, i64>))
    requires
        old(k).wf(),
        old(k).in_user(),
        old(console).wf(),
    ensures
        final(console).wf(),
        !(r.0 is Fatal) ==> final(k).wf(),
        r.0 is Resumed || r.0 is Listed || r.0 is Blocked ==> final(k).in_user(),
        entered(
            at_ecall(*old(k), SYS_CREATE_PROCESS, path, len, 0),
            *old(console),
            *final(k),
            *final(console),
            *fs,
            r.0,
        ),
        r.1 == sysret(final(k).hart.regs.a0),
{
    syscall(k, console, fs, SYS_CREATE_PROCESS, path, len, 0)
}

/// What `spawn` does: the kernel handles the call that starts the program,
/// which takes it from `k0` to `km`; if the caller is back in user mode
/// after it and finds an identifier in `a0`, the kernel handles the call that
/// gives up the hart, which takes it from `km` to `k1`. Else nothing more
/// happens, and the failure that the caller found in `a0` is returned.
pub open spec fn spawned(
    k0: Kernel,
    c0: Console,
    km: Kernel,
    cm: Console,
    k1: Kernel,
    c1: Console,
    fs: MemoryFs,
    path: u64,
    len: u64,
    r: (TrapOutcome, Result<(), i64>),
    started: TrapOutcome,
) -> bool {
    &&& entered(at_ecall(k0, SYS_CREATE_PROCESS, path, len, 0), c0, km, cm, fs, started)
    &&& if started == TrapOutcome::Resumed && sysret(km.hart.regs.a0) is Ok && signed(
        km.hart.regs.a0,
    ) >= 0 {
        &&& km.wf()
        &&& km.in_user()
        &&& entered(at_ecall(km, SYS_YIELD_PROCESS, 0, 0, 0), cm, k1, c1, fs, r.0)
        &&& r.1 == sysdone(k1.hart.regs.a0)
    } else {
        &&& k1 == km
        &&& c1 == cm
        &&& r.0 == started
        &&& r.1 == if started == TrapOutcome::Resumed && sysret(km.hart.regs.a0) is Err {
            Err::<(), i64>(-1i64)
        } else {
            Ok::<(), i64>(())
        }
    }
}

/// Starts the program whose path lies in the memory of the calling process
/// at `path`, `len` bytes long, and gives up the hart to let it run. Where the
/// program could not be started, the failure is returned and the hart kept.
pub fn spawn(k: &mut Kernel, console: &mut Console, fs: &MemoryFs, path: u64, len: u64) -> (r: (
    TrapOutcome,
    Result<(), i64>,
))
    requires
        old(k).wf(),
        old(k).in_user(),
        old(console).wf(),
    ensures
        final(console).wf(),
        !(r.0 is Fatal) ==> final(k).wf(),
        r.0 is Resumed || r.0 is Listed || r.0 is Blocked ==> final(k).in_user(),
        exists|km: Kernel, cm: Console, started: TrapOutcome| #[trigger]
            spawned(
                *old(k),
                *old(console),
                km,
                cm,
                *final(k),
                *final(console),
                *fs,
                path,
                len,
                r,
                started,
            ),
{
    let (started, made) = create_process(k, console, fs, path, len);
    let ghost km = *k;
    let ghost cm = *console;
    match started {
        TrapOutcome::Resumed => {},
        _ => {
            let r = (started, Ok(()));
            proof {
                assert(spawned(*old(k), *old(console), km, cm, *k, *console, *fs, path, len, r, started));
            }
            return r;
        },
    }
    match made {
        Err(e) => {
            let r = (started, Err(e));
            proof {
                assert(spawned(*old(k), *old(console), km, cm, *k, *console, *fs, path, len, r, started));
            }
            r
        },
        Ok(pid) => {
            if pid >= 0 {
                let r = yield_process(k, console, fs);
                proof {
                    assert(spawned(*old(k), *old(console), km, cm, *k, *console, *fs, path, len, r, started));
                }
                r
            } else {
                let r = (started, Ok(()));
                proof {
                    assert(spawned(*old(k), *old(console), km, cm, *k, *console, *fs, path, len, r, started));
                }
                r
            }
        },
    }
}

} // verus!
