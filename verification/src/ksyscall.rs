//! The system calls: what the kernel does for a process that executed
//! `ecall`, by the number it finds in the `a3` slot of the trap frame.

use crate::console::{read_byte, Console};
use crate::csr::{clear_sum, set_sum, SSTATUS_SUM};
use crate::hart::{sret_mode, Privilege};
use crate::kernel::{slot_wf, Kernel, KernelPanic};
use crate::paging::{entry_target, pte_addr, walk, walk_page, PTE_R};
use crate::physmem::PhysMemory;
use crate::proc::{
    first_in_ring, none_schedulable, ring, Pid, ProcError, ProcState, Process, NPROC,
};
use crate::spawn::{satp_table, top_table_of};
use crate::switch::{
    end_process, hart_at_switch, hart_with_context, procs_exited, procs_saved, yield_process,
};
use crate::trap::{
    frame_in, lemma_frame_same, set_frame_a0, TrapFrame, FRAME_A0, FRAME_A1, FRAME_A3,
    TRAP_LOCALS_SIZE,
};
use crate::utils::PAGE_SIZE;
use crate::vfs::{Fs, MemoryFs, Node};
use vstd::prelude::*;
use vstd::string::StringSliceAdditionalSpecFns;
use vstd::utf8::valid_utf8;

verus! {

/// Writes the byte in `a0` to the console.
pub const SYS_WRITE_BYTE: u64 = 1;

/// Reads a byte from the console into `a0`.
pub const SYS_READ_BYTE: u64 = 2;

/// Gives the hart up.
pub const SYS_YIELD_PROCESS: u64 = 3;

/// Ends the calling process.
pub const SYS_EXIT_PROCESS: u64 = 4;

/// Starts the program whose path lies at `a0`, `a1` bytes long.
pub const SYS_CREATE_PROCESS: u64 = 5;

/// Lists the processes.
pub const SYS_LIST_PROCESS: u64 = 6;

/// What a failed system call leaves in `a0`: -1.
pub const SYSCALL_FAILED: u64 = 0xffff_ffff_ffff_ffff;

/// How the handling of a system call ended.
#[derive(Debug, Clone, Copy, PartialEq, Eq, Structural)]
pub enum SyscallResult {
    /// The call is done; the caller goes on behind its `ecall`.
    Done,
    /// As `Done`; the call asked for the list of processes.
    Listed,
    /// The caller has to wait for the console; it is to take the call again.
    Blocked,
    /// The hart was switched to the registers of another process, or of the
    /// caller itself.
    Switched,
    /// The kernel has stopped.
    Fatal(KernelPanic),
}

/// The byte that a load from the virtual address `va` finds under the tables
/// at `top`, if `va` is mapped to RAM and readable.
pub open spec fn user_byte(mem: &PhysMemory, top: int, va: u64) -> Option<u8> {
    match walk(mem, top, va) {
        None => None,
        Some(e) => if e & PTE_R != 0 && mem.contains(pte_addr(e) + va % PAGE_SIZE, 1) {
            Some(mem.byte(pte_addr(e) + va % PAGE_SIZE))
        } else {
            None
        },
    }
}

/// The `len` bytes that loads from the virtual addresses from `ptr` on find,
/// if all of them can be loaded.
pub open spec fn user_run(mem: &PhysMemory, top: int, ptr: u64, len: int) -> Option<Seq<u8>>
    decreases len,
{
    if len <= 0 {
        Some(Seq::empty())
    } else {
        match user_run(mem, top, ptr, len - 1) {
            None => None,
            Some(s) => if ptr + len - 1 > u64::MAX {
                None
            } else {
                match user_byte(mem, top, (ptr + len - 1) as u64) {
                    None => None,
                    Some(b) => Some(s.push(b)),
                }
            },
        }
    }
}

/// A run that cannot be loaded cannot be loaded either when made longer.
pub proof fn lemma_user_run_fails_on(mem: &PhysMemory, top: int, ptr: u64, n: int, m: int)
    requires
        0 <= n <= m,
        user_run(mem, top, ptr, n) is None,
    ensures
        user_run(mem, top, ptr, m) is None,
    decreases m,
{
    if n < m {
        lemma_user_run_fails_on(mem, top, ptr, n, m - 1);
    }
}

/// Loads a byte from the virtual address `va` as supervisor mode does while
/// SUM is set.
pub fn read_user_byte(mem: &PhysMemory, top: u64, va: u64) -> (r: Option<u8>)
    requires
        mem.wf(),
    ensures
        r == user_byte(mem, top as int, va),
{
    match walk_page(mem, top, va) {
        None => None,
        Some(e) => {
            if e & PTE_R == 0 {
                return None;
            }
            match entry_target(e) {
                None => None,
                Some(frame) => {
                    let off = va % PAGE_SIZE;
                    if frame > u64::MAX - off {
                        return None;
                    }
                    if !mem.in_range(frame + off, 1) {
                        return None;
                    }
                    Some(mem.read_u8(frame + off))
                },
            }
        },
    }
}

/// Copies the `len` bytes at the virtual addresses from `ptr` on into the
/// kernel, if all of them can be loaded.
pub fn copy_from_user(mem: &PhysMemory, top: u64, ptr: u64, len: u64) -> (r: Option<Vec<u8>>)
    requires
        mem.wf(),
    ensures
        match r {
            Some(bytes) => user_run(mem, top as int, ptr, len as int) == Some(bytes@),
            None => user_run(mem, top as int, ptr, len as int) is None,
        },
{
    let mut bytes: Vec<u8> = Vec::new();
    let mut i: u64 = 0;
    while i < len
        invariant
            i <= len,
            mem.wf(),
            user_run(mem, top as int, ptr, i as int) == Some(bytes@),
        decreases len - i,
    {
        if ptr > u64::MAX - i {
            proof {
                assert(user_run(mem, top as int, ptr, i + 1) is None);
                lemma_user_run_fails_on(mem, top as int, ptr, i + 1, len as int);
            }
            return None;
        }
        match read_user_byte(mem, top, ptr + i) {
            None => {
                proof {
                    assert(user_run(mem, top as int, ptr, i + 1) is None);
                    lemma_user_run_fails_on(mem, top as int, ptr, i + 1, len as int);
                }
                return None;
            },
            Some(b) => {
                bytes.push(b);
            },
        }
        i += 1;
    }
    Some(bytes)
}

/// `core::str::from_utf8`: the string whose bytes are `bytes`, if they are
/// well-formed UTF-8, and nothing if they are not.
#[verifier::external_body]
fn str_from_utf8(bytes: &[u8]) -> (r: Option<&str>)
    ensures
        match r {
            Some(s) => valid_utf8(bytes@) && s.spec_bytes() == bytes@,
            None => !valid_utf8(bytes@),
        },
{
    core::str::from_utf8(bytes).ok()
}

/// Whether nothing of the kernel differs between `k0` and `k1`.
pub open spec fn same_kernel(k0: Kernel, k1: Kernel) -> bool {
    &&& k1.mem.base == k0.mem.base
    &&& k1.mem.bytes@ == k0.mem.bytes@
    &&& k1.alloc == k0.alloc
    &&& k1.ptable.procs@ == k0.ptable.procs@
    &&& k1.ptable.current == k0.ptable.current
    &&& k1.hart == k0.hart
    &&& k1.syms == k0.syms
}

/// Whether nothing of the console differs between `c0` and `c1`.
pub open spec fn same_console(c0: Console, c1: Console) -> bool {
    &&& c1.writer.written@ == c0.writer.written@
    &&& c1.writer.status == c0.writer.status
    &&& c1.pending() == c0.pending()
}

/// Whether `k1` is `k0` but for the `a0` slot of the trap frame of the
/// current process, which holds `v`.
pub open spec fn a0_set(k0: Kernel, k1: Kernel, v: u64) -> bool {
    &&& k1.alloc == k0.alloc
    &&& k1.ptable.procs@ == k0.ptable.procs@
    &&& k1.ptable.current == k0.ptable.current
    &&& k1.hart == k0.hart
    &&& k1.syms == k0.syms
    &&& k1.mem.base == k0.mem.base
    &&& k1.mem.bytes@.len() == k0.mem.bytes@.len()
    &&& k1.mem.same_outside(
        &k0.mem,
        k0.frame_addr() + FRAME_A0,
        k0.frame_addr() + FRAME_A0 + 8,
    )
    &&& frame_in(&k1.mem, k0.frame_addr()) == (TrapFrame {
        a0: v,
        ..frame_in(&k0.mem, k0.frame_addr())
    })
}

/// The trap frame of the current process.
pub open spec fn current_frame(k: Kernel) -> TrapFrame {
    frame_in(&k.mem, k.frame_addr())
}

/// What writing a byte does: the value in `a0` is written to the console if
/// it is a byte; if it is none, or the console refuses it, the kernel stops.
pub open spec fn write_byte_step(
    k0: Kernel,
    c0: Console,
    k1: Kernel,
    c1: Console,
    r: SyscallResult,
) -> bool {
    let a0 = current_frame(k0).a0;
    &&& same_kernel(k0, k1)
    &&& c1.pending() == c0.pending()
    &&& c1.writer.status == c0.writer.status
    &&& if a0 > 255 {
        &&& r == SyscallResult::Fatal(KernelPanic::ByteOutOfRange(a0))
        &&& c1.writer.written@ == c0.writer.written@
    } else if c0.writer.status != 0 {
        &&& r == SyscallResult::Fatal(KernelPanic::Console(c0.writer.status))
        &&& c1.writer.written@ == c0.writer.written@
    } else {
        &&& r == SyscallResult::Done
        &&& c1.writer.written@ == c0.writer.written@.push(a0 as u8)
    }
}

/// What reading a byte does: the oldest byte that was typed is taken off the
/// console and left in `a0`; if there is none, the caller has to wait and
/// nothing changes.
pub open spec fn read_byte_step(
    k0: Kernel,
    c0: Console,
    k1: Kernel,
    c1: Console,
    r: SyscallResult,
) -> bool {
    &&& c1.writer.written@ == c0.writer.written@
    &&& c1.writer.status == c0.writer.status
    &&& if c0.pending().len() == 0 {
        &&& r == SyscallResult::Blocked
        &&& same_kernel(k0, k1)
        &&& c1.pending() == c0.pending()
    } else {
        &&& r == SyscallResult::Done
        &&& a0_set(k0, k1, c0.pending()[0] as u64)
        &&& c1.pending() == c0.pending().drop_first()
    }
}

/// Whether the kernel `k` has just switched the hart to the registers of the
/// process that is current now, or of the idle process.
pub open spec fn arrived(k: Kernel) -> bool {
    &&& k.wf()
    &&& k.hart.mode == Privilege::Supervisor
    &&& sret_mode(k.hart.csr.sstatus) == Privilege::User
    &&& k.hart.pc == k.syms.idle_process || {
        &&& k.owns_hart()
        &&& k.hart.pc == k.current().context.ra
        &&& k.hart.regs.sp == k.current().context.sp
    }
}

/// What a switch away from the current process of `k0` does, where `procs`
/// are the slots at the time of the switch: the scheduler picks the next
/// process among `procs`, the registers of the hart are saved into the slot
/// of the process that was current, and those of the next process loaded.
pub open spec fn switched(k0: Kernel, procs: Seq<crate::proc::Process>, k1: Kernel) -> bool {
    let cur = k0.ptable.current as int;
    let next = if none_schedulable(procs) {
        0
    } else {
        k1.ptable.current as int
    };
    &&& arrived(k1)
    &&& k1.mem.base == k0.mem.base
    &&& k1.mem.bytes@ == k0.mem.bytes@
    &&& k1.alloc == k0.alloc
    &&& k1.syms == k0.syms
    &&& none_schedulable(procs) ==> k1.ptable.current == k0.ptable.current
    &&& !none_schedulable(procs) ==> exists|k: int|
        first_in_ring(procs, cur, k) && k1.ptable.current == ring(cur, k)
    &&& k1.ptable.procs@ == procs_saved(procs, cur, hart_at_switch(k0.hart, procs[next], k0.syms))
    &&& k1.hart == hart_with_context(
        hart_at_switch(k0.hart, procs[next], k0.syms),
        k1.ptable.procs@[next].context,
    )
}

/// What giving the hart up does: a switch to the next process.
pub open spec fn yield_step(k0: Kernel, k1: Kernel, r: SyscallResult) -> bool {
    r == SyscallResult::Switched && switched(k0, k0.ptable.procs@, k1)
}

/// What ending the current process does: its slot is marked as exited, and
/// the hart is switched to the next process.
pub open spec fn exit_step(k0: Kernel, k1: Kernel, r: SyscallResult) -> bool {
    r == SyscallResult::Switched && switched(
        k0,
        procs_exited(k0.ptable.procs@, k0.ptable.current as int),
        k1,
    )
}

/// Writes the byte in `a0` to the console.
pub fn sys_write_byte(k: &mut Kernel, console: &mut Console, frame: u64) -> (r: SyscallResult)
    requires
        old(k).wf(),
        old(k).in_handler(),
        frame == old(k).frame_addr(),
        old(console).wf(),
    ensures
        final(console).wf(),
        write_byte_step(*old(k), *old(console), *final(k), *final(console), r),
{
    proof {
        reveal(frame_in);
        assert(slot_wf(k.current(), k.ptable.current as int, k.alloc, k.syms));
    }
    let a0 = k.mem.read_u64(frame + FRAME_A0);
    if a0 > 255 {
        return SyscallResult::Fatal(KernelPanic::ByteOutOfRange(a0));
    }
    match console.writer.write_byte(a0 as u8) {
        Ok(_) => SyscallResult::Done,
        Err(e) => SyscallResult::Fatal(KernelPanic::Console(e)),
    }
}

/// Reads a byte from the console into `a0`.
pub fn sys_read_byte(k: &mut Kernel, console: &mut Console, frame: u64) -> (r: SyscallResult)
    requires
        old(k).wf(),
        old(k).in_handler(),
        frame == old(k).frame_addr(),
        old(console).wf(),
    ensures
        final(console).wf(),
        read_byte_step(*old(k), *old(console), *final(k), *final(console), r),
{
    proof {
        assert(slot_wf(k.current(), k.ptable.current as int, k.alloc, k.syms));
    }
    let byte = read_byte(console);
    if byte >= 0 {
        set_frame_a0(&mut k.mem, frame, byte as u64);
        SyscallResult::Done
    } else {
        SyscallResult::Blocked
    }
}

/// Gives the hart to the next process.
pub fn sys_yield(k: &mut Kernel) -> (r: SyscallResult)
    requires
        old(k).wf(),
        old(k).in_handler(),
    ensures
        yield_step(*old(k), *final(k), r),
{
    proof {
        assert forall|i: int| 0 <= i < NPROC implies (#[trigger] k.ptable.procs@[i]).kernel_stack.spec_top()
            <= u64::MAX by {
            assert(slot_wf(k.ptable.procs@[i], i, k.alloc, k.syms));
        }
        assert(slot_wf(k.current(), k.ptable.current as int, k.alloc, k.syms));
        assert(slot_wf(k.ptable.procs@[0], 0, k.alloc, k.syms));
    }
    let syms = k.syms;
    let next = yield_process(&mut k.hart, &mut k.ptable, &syms);
    proof {
        let procs = old(k).ptable.procs@;
        assert(slot_wf(procs[next as int], next as int, k.alloc, k.syms));
        assert forall|i: int| 0 <= i < NPROC implies slot_wf(
            #[trigger] k.ptable.procs@[i],
            i,
            k.alloc,
            k.syms,
        ) by {
            assert(slot_wf(procs[i], i, k.alloc, k.syms));
        }
        crate::kernel::lemma_wf_on_switch(*old(k), *k);
    }
    SyscallResult::Switched
}

/// Ends the current process and gives the hart to the next.
pub fn sys_exit(k: &mut Kernel) -> (r: SyscallResult)
    requires
        old(k).wf(),
        old(k).in_handler(),
    ensures
        exit_step(*old(k), *final(k), r),
{
    proof {
        assert forall|i: int| 0 <= i < NPROC implies (#[trigger] k.ptable.procs@[i]).kernel_stack.spec_top()
            <= u64::MAX by {
            assert(slot_wf(k.ptable.procs@[i], i, k.alloc, k.syms));
        }
        assert(slot_wf(k.current(), k.ptable.current as int, k.alloc, k.syms));
        assert(slot_wf(k.ptable.procs@[0], 0, k.alloc, k.syms));
    }
    let syms = k.syms;
    let next = end_process(&mut k.hart, &mut k.ptable, &syms);
    proof {
        let procs = old(k).ptable.procs@;
        let exited = procs_exited(procs, old(k).ptable.current as int);
        assert(slot_wf(procs[next as int], next as int, k.alloc, k.syms));
        assert forall|i: int| 0 <= i < NPROC implies slot_wf(
            #[trigger] k.ptable.procs@[i],
            i,
            k.alloc,
            k.syms,
        ) by {
            assert(slot_wf(procs[i], i, k.alloc, k.syms));
        }
        crate::kernel::lemma_wf_on_switch(*old(k), *k);
    }
    SyscallResult::Switched
}

/// Number of frames that hold a file of `len` bytes.
pub open spec fn file_pages(len: int) -> int {
    (len + PAGE_SIZE - 1) / (PAGE_SIZE as int)
}

/// A file as it lies in the frames it was read into: its bytes, and zeros up
/// to the end of the last frame.
pub open spec fn padded_file(content: Seq<u8>) -> Seq<u8> {
    content + crate::physmem::repeat(0, file_pages(content.len() as int) * PAGE_SIZE - content.len())
}

/// The hart after SUM was set and cleared again.
pub open spec fn after_sum_window(h: crate::hart::Hart) -> crate::hart::Hart {
    crate::hart::Hart {
        csr: crate::csr::CsrFile {
            sstatus: (h.csr.sstatus | SSTATUS_SUM) & !SSTATUS_SUM,
            ..h.csr
        },
        ..h
    }
}

/// The path that the caller of `k` passed: the bytes in its memory at the
/// address in `a0`, as many as `a1` says, if they can be loaded.
pub open spec fn passed_path(k: Kernel) -> Option<Seq<u8>> {
    user_run(
        &k.mem,
        satp_table(k.hart.csr.satp) as int,
        current_frame(k).a0,
        current_frame(k).a1 as int,
    )
}

/// What `k1` holds when the call left `v` in `a0` and took the frames from
/// the bump pointer of `k0` up to that of `k1`, and the hart is `h`: nothing
/// else has changed in RAM.
pub open spec fn call_left(k0: Kernel, k1: Kernel, v: u64, h: crate::hart::Hart) -> bool {
    &&& k1.wf()
    &&& k1.in_handler()
    &&& k1.syms == k0.syms
    &&& k1.hart == h
    &&& k1.ptable.current == k0.ptable.current
    &&& k1.alloc.start == k0.alloc.start
    &&& k1.alloc.end == k0.alloc.end
    &&& k1.alloc.next >= k0.alloc.next
    &&& k1.mem.base == k0.mem.base
    &&& k1.mem.bytes@.len() == k0.mem.bytes@.len()
    &&& frame_in(&k1.mem, k0.frame_addr()) == (TrapFrame { a0: v, ..current_frame(k0) })
    &&& forall|a: int|
        k0.mem.contains(a, 1) && !(k0.alloc.next <= a < k1.alloc.next) && !(k0.frame_addr()
            + FRAME_A0 <= a < k0.frame_addr() + FRAME_A0 + 8) ==> #[trigger] k1.mem.byte(a)
            == k0.mem.byte(a)
}

/// Whether `k1` is the kernel `k0` after the process `pid` was made from the
/// image `image`, which lies in frames that end at `loaded_at`, and its
/// identifier left in `a0`: the process stands in the first unused slot, and
/// RAM holds its address space.
pub open spec fn process_started(
    k0: Kernel,
    k1: Kernel,
    image: Seq<u8>,
    loaded_at: u64,
    h: crate::hart::Hart,
    pid: int,
) -> bool {
    &&& call_left(k0, k1, pid as u64, h)
    &&& crate::spawn::is_first_unused(k0.ptable.procs@, pid)
    &&& k1.ptable.procs@ == k0.ptable.procs@.update(
        pid,
        crate::spawn::new_process(
            k0.ptable.procs@[pid],
            pid,
            loaded_at,
            (loaded_at + PAGE_SIZE) as u64,
            k0.syms.user_entry,
            crate::loadelf::image_loaded(image).entry_point,
        ),
    )
    &&& crate::spawn::address_space_made(
        &k1.mem,
        &k1.alloc,
        loaded_at as int,
        k0.syms,
        crate::loadelf::image_loaded(image).segments,
    )
}

/// What making a process from the image `image` does for the caller, where
/// the image was read into frames that end at `loaded_at`: the identifier of
/// the process is left in `a0`, or -1 if the image cannot be loaded; any
/// other failure stops the kernel.
#[verifier::opaque]
pub open spec fn image_step(
    k0: Kernel,
    k1: Kernel,
    image: Seq<u8>,
    loaded_at: u64,
    r: SyscallResult,
    h: crate::hart::Hart,
) -> bool {
    let alloc = crate::allocator::PageAllocator { next: loaded_at, ..k0.alloc };
    match crate::spawn::create_process_fault(k0.ptable.procs@, alloc, k0.syms, image) {
        Some(ProcError::Elf(_)) => {
            &&& r == SyscallResult::Done
            &&& call_left(k0, k1, SYSCALL_FAILED, h)
            &&& k1.alloc.next == loaded_at
            &&& k1.ptable.procs@ == k0.ptable.procs@
        },
        Some(e) => r == SyscallResult::Fatal(KernelPanic::Process(e)),
        None => r == SyscallResult::Done && exists|pid: int| #[trigger]
            process_started(k0, k1, image, loaded_at, h, pid),
    }
}

/// What starting the program in a file with the bytes `content` does for the
/// caller: the file is read into fresh frames, and a process is made from
/// the image that lies there. If the page area cannot hold the file, the
/// kernel stops.
pub open spec fn file_step(
    k0: Kernel,
    k1: Kernel,
    content: Seq<u8>,
    r: SyscallResult,
    h: crate::hart::Hart,
) -> bool {
    let loaded_at = k0.alloc.next + file_pages(content.len() as int) * PAGE_SIZE;
    if loaded_at > k0.alloc.end {
        r == SyscallResult::Fatal(
            KernelPanic::Process(ProcError::Alloc(crate::allocator::AllocError::OutOfMemory)),
        )
    } else {
        image_step(k0, k1, padded_file(content), loaded_at as u64, r, h)
    }
}

/// What starting a program does.
///
/// The path is read from the memory of the caller; a path that cannot be
/// read, or is not UTF-8, stops the kernel. A path that leads to no file
/// leaves -1 in `a0`. Else the program in the file is started as `file_step`
/// says.
pub open spec fn create_step(k0: Kernel, k1: Kernel, fs: MemoryFs, r: SyscallResult) -> bool {
    match passed_path(k0) {
        None => r == SyscallResult::Fatal(KernelPanic::BadUserPointer(current_frame(k0).a0)),
        Some(path) => if !valid_utf8(path) {
            r == SyscallResult::Fatal(KernelPanic::BadPath)
        } else {
            match fs.file(path) {
                None => {
                    &&& r == SyscallResult::Done
                    &&& call_left(k0, k1, SYSCALL_FAILED, after_sum_window(k0.hart))
                    &&& k1.alloc == k0.alloc
                    &&& k1.ptable.procs@ == k0.ptable.procs@
                },
                Some(content) => file_step(k0, k1, content, r, after_sum_window(k0.hart)),
            }
        },
    }
}

/// SUM does not tell where `sret` returns to.
proof fn lemma_sum_window_keeps_mode(s: u64)
    ensures
        sret_mode((s | SSTATUS_SUM) & !SSTATUS_SUM) == sret_mode(s),
{
    assert(((s | 0x4_0000u64) & !0x4_0000u64) & 0x100u64 == s & 0x100u64) by (bit_vector);
}

/// A buffer of `n` zero bytes.
fn zeros(n: usize) -> (v: Vec<u8>)
    ensures
        v@ == crate::physmem::repeat(0, n as int),
{
    let mut v: Vec<u8> = Vec::new();
    let mut i: usize = 0;
    while i < n
        invariant
            i <= n,
            v@ == crate::physmem::repeat(0, i as int),
        decreases n - i,
    {
        v.push(0);
        i += 1;
    }
    v
}

/// Reads the path that the caller passed out of its memory. SUM is set for
/// the time of the copy and cleared after it.
pub fn read_path(k: &mut Kernel, frame: u64) -> (r: Option<Vec<u8>>)
    requires
        old(k).wf(),
        old(k).in_handler(),
        frame == old(k).frame_addr(),
    ensures
        final(k).wf(),
        final(k).in_handler(),
        final(k).mem == old(k).mem,
        final(k).alloc == old(k).alloc,
        final(k).ptable == old(k).ptable,
        final(k).syms == old(k).syms,
        final(k).hart == after_sum_window(old(k).hart),
        match r {
            Some(bytes) => passed_path(*old(k)) == Some(bytes@),
            None => passed_path(*old(k)) is None,
        },
{
    proof {
        reveal(frame_in);
        assert(slot_wf(k.current(), k.ptable.current as int, k.alloc, k.syms));
        lemma_sum_window_keeps_mode(k.hart.csr.sstatus);
    }
    let path_ptr = k.mem.read_u64(frame + FRAME_A0);
    let path_len = k.mem.read_u64(frame + FRAME_A1);
    let top = top_table_of(k.hart.csr.satp);
    set_sum(&mut k.hart.csr);
    let copied = copy_from_user(&k.mem, top, path_ptr, path_len);
    clear_sum(&mut k.hart.csr);
    copied
}

/// Reads the file of `node` into a buffer of `pages` pages: the bytes of the
/// file, and zeros behind them.
fn read_padded(node: &crate::vfs::MemoryNode, pages: usize) -> (image: Vec<u8>)
    requires
        pages == file_pages(node.content().len() as int),
        pages * PAGE_SIZE <= usize::MAX,
    ensures
        image@ == padded_file(node.content()),
{
    let mut image = zeros(pages * (PAGE_SIZE as usize));
    let read = node.read(&mut image);
    assert(read is Ok);
    assert(image@ =~= padded_file(node.content()));
    image
}

/// Reads the file of `node` into fresh frames and returns what lies there:
/// the bytes of the file, and zeros up to the end of the last frame. Nothing
/// is returned, and nothing changed, if the page area cannot hold the file.
pub fn load_file(k: &mut Kernel, node: &crate::vfs::MemoryNode) -> (r: Option<Vec<u8>>)
    requires
        old(k).wf(),
        old(k).in_handler(),
    ensures
        final(k).wf(),
        final(k).in_handler(),
        final(k).hart == old(k).hart,
        final(k).ptable == old(k).ptable,
        final(k).syms == old(k).syms,
        final(k).alloc.start == old(k).alloc.start,
        final(k).alloc.end == old(k).alloc.end,
        final(k).mem.base == old(k).mem.base,
        final(k).mem.bytes@.len() == old(k).mem.bytes@.len(),
        final(k).mem.same_outside(
            &old(k).mem,
            old(k).alloc.next as int,
            final(k).alloc.next as int,
        ),
        r is Some <==> old(k).alloc.next + file_pages(node.content().len() as int) * PAGE_SIZE
            <= old(k).alloc.end,
        match r {
            Some(image) => {
                &&& image@ == padded_file(node.content())
                &&& final(k).alloc.next == old(k).alloc.next + file_pages(
                    node.content().len() as int,
                ) * PAGE_SIZE
            },
            None => final(k).mem == old(k).mem && final(k).alloc == old(k).alloc,
        },
{
    let size = node.size();
    let n = size / (PAGE_SIZE as usize) + if size % (PAGE_SIZE as usize) != 0 {
        1
    } else {
        0
    };
    let buf = match k.alloc.alloc_pages(&mut k.mem, n as u64) {
        Ok(p) => p,
        Err(_) => {
            return None;
        },
    };
    let ghost ka = *k;
    let image = read_padded(node, n);
    k.mem.copy_in(buf, image.as_slice());
    proof {
        assert forall|a: int|
            k.mem.contains(a, 1) && !(old(k).alloc.next <= a < k.alloc.next) implies k.mem.byte(a)
            == old(k).mem.byte(a) by {
            assert(k.mem.byte(a) == ka.mem.byte(a));
            assert(ka.mem.byte(a) == old(k).mem.byte(a));
        }
        crate::kernel::lemma_wf_on_new_frames(*old(k), *k);
        assert(slot_wf(k.current(), k.ptable.current as int, k.alloc, k.syms));
    }
    Some(image)
}

/// Leaves `v` in the `a0` slot of the trap frame of the caller.
pub fn leave_in_a0(k: &mut Kernel, frame: u64, v: u64)
    requires
        old(k).wf(),
        old(k).in_handler(),
        frame == old(k).frame_addr(),
    ensures
        final(k).wf(),
        final(k).in_handler(),
        a0_set(*old(k), *final(k), v),
{
    proof {
        assert(slot_wf(k.current(), k.ptable.current as int, k.alloc, k.syms));
    }
    set_frame_a0(&mut k.mem, frame, v);
    proof {
        crate::kernel::lemma_wf_on_stack_write(*old(k), *k, k.ptable.current as int);
    }
}

/// The caller's view of a call that took frames from the page area and then
/// left a value in `a0`: `k2` is the kernel after the frames were taken, `k3`
/// after the value was left.
proof fn lemma_call_left(k0: Kernel, k2: Kernel, k3: Kernel, v: u64)
    requires
        k0.wf(),
        k0.in_handler(),
        k2.wf(),
        k2.in_handler(),
        k2.syms == k0.syms,
        k2.ptable.current == k0.ptable.current,
        k2.current() == k0.current(),
        k2.alloc.start == k0.alloc.start,
        k2.alloc.end == k0.alloc.end,
        k2.alloc.next >= k0.alloc.next,
        k2.mem.base == k0.mem.base,
        k2.mem.bytes@.len() == k0.mem.bytes@.len(),
        k2.mem.same_outside(&k0.mem, k0.alloc.next as int, k2.alloc.next as int),
        k3.wf(),
        k3.in_handler(),
        a0_set(k2, k3, v),
    ensures
        call_left(k0, k3, v, k2.hart),
{
    assert(slot_wf(k0.current(), k0.ptable.current as int, k0.alloc, k0.syms));
    lemma_frame_same(&k2.mem, &k0.mem, k0.frame_addr());
    assert forall|a: int|
        k0.mem.contains(a, 1) && !(k0.alloc.next <= a < k3.alloc.next) && !(k0.frame_addr()
            + FRAME_A0 <= a < k0.frame_addr() + FRAME_A0 + 8) implies #[trigger] k3.mem.byte(a)
        == k0.mem.byte(a) by {
        assert(k3.mem.byte(a) == k2.mem.byte(a));
        assert(k2.mem.byte(a) == k0.mem.byte(a));
    }
}

/// A process that was made is not the caller, whose slot is as it was.
proof fn lemma_spawn_keeps_caller(k0: Kernel, k2: Kernel, image: Seq<u8>, r: Result<Pid, ProcError>)
    requires
        k0.wf(),
        k0.in_handler(),
        k2.wf(),
        crate::kernel::spawn_done(k0, k2, image, r),
    ensures
        k2.in_handler(),
        k2.current() == k0.current(),
        k2.frame_addr() == k0.frame_addr(),
        k2.mem.base == k0.mem.base,
        k2.mem.bytes@.len() == k0.mem.bytes@.len(),
{
}

/// What `image_step` says where the process was made.
proof fn lemma_image_step_made(k0: Kernel, k2: Kernel, k3: Kernel, image: Seq<u8>, pid: Pid)
    requires
        k0.wf(),
        k0.in_handler(),
        k2.wf(),
        crate::kernel::spawn_done(k0, k2, image, Ok(pid)),
        k3.wf(),
        k3.in_handler(),
        a0_set(k2, k3, pid.0 as u64),
    ensures
        image_step(k0, k3, image, k0.alloc.next, SyscallResult::Done, k0.hart),
{
    reveal(image_step);
    let alloc = crate::allocator::PageAllocator { next: k0.alloc.next, ..k0.alloc };
    assert(alloc == k0.alloc);
    lemma_spawn_keeps_caller(k0, k2, image, Ok(pid));
    lemma_call_left(k0, k2, k3, pid.0 as u64);
    assert((pid.0 as int) as u64 == pid.0 as u64);
    assert(slot_wf(k0.current(), k0.ptable.current as int, k0.alloc, k0.syms));
    crate::spawn::lemma_address_space_kept(
        &k2.mem,
        &k3.mem,
        &k3.alloc,
        k0.alloc.next as int,
        k0.syms,
        crate::loadelf::image_loaded(image).segments,
    );
    assert(process_started(k0, k3, image, k0.alloc.next, k0.hart, pid.0 as int));
}

/// What `image_step` says where the image could not be loaded.
proof fn lemma_image_step_refused(k0: Kernel, k2: Kernel, k3: Kernel, image: Seq<u8>, e: ProcError)
    requires
        k0.wf(),
        k0.in_handler(),
        k2.wf(),
        crate::kernel::spawn_done(k0, k2, image, Err(e)),
        e is Elf,
        k3.wf(),
        k3.in_handler(),
        a0_set(k2, k3, SYSCALL_FAILED),
    ensures
        image_step(k0, k3, image, k0.alloc.next, SyscallResult::Done, k0.hart),
{
    reveal(image_step);
    let alloc = crate::allocator::PageAllocator { next: k0.alloc.next, ..k0.alloc };
    assert(alloc == k0.alloc);
    lemma_spawn_keeps_caller(k0, k2, image, Err(e));
    lemma_call_left(k0, k2, k3, SYSCALL_FAILED);
}

/// What `image_step` says where the kernel stops.
proof fn lemma_image_step_fatal(k0: Kernel, k2: Kernel, image: Seq<u8>, e: ProcError)
    requires
        crate::kernel::spawn_done(k0, k2, image, Err(e)),
        !(e is Elf),
    ensures
        image_step(
            k0,
            k2,
            image,
            k0.alloc.next,
            SyscallResult::Fatal(KernelPanic::Process(e)),
            k0.hart,
        ),
{
    reveal(image_step);
    let alloc = crate::allocator::PageAllocator { next: k0.alloc.next, ..k0.alloc };
    assert(alloc == k0.alloc);
}

/// Makes a process from the image `image` and leaves its identifier in the
/// `a0` slot of the caller's trap frame, or -1 if the image cannot be loaded.
pub fn spawn_image(k: &mut Kernel, frame: u64, image: &[u8]) -> (r: SyscallResult)
    requires
        old(k).wf(),
        old(k).in_handler(),
        frame == old(k).frame_addr(),
    ensures
        image_step(*old(k), *final(k), image@, old(k).alloc.next, r, old(k).hart),
{
    let made = k.spawn(image);
    let ghost k2 = *k;
    proof {
        lemma_spawn_keeps_caller(*old(k), k2, image@, made);
    }
    match made {
        Ok(pid) => {
            leave_in_a0(k, frame, pid.0 as u64);
            proof {
                lemma_image_step_made(*old(k), k2, *k, image@, pid);
            }
            SyscallResult::Done
        },
        Err(ProcError::Elf(e)) => {
            leave_in_a0(k, frame, SYSCALL_FAILED);
            proof {
                lemma_image_step_refused(*old(k), k2, *k, image@, ProcError::Elf(e));
            }
            SyscallResult::Done
        },
        Err(e) => {
            proof {
                lemma_image_step_fatal(*old(k), k2, image@, e);
            }
            SyscallResult::Fatal(KernelPanic::Process(e))
        },
    }
}

/// Starts the program whose path the caller passed.
pub fn sys_create_process(k: &mut Kernel, fs: &MemoryFs, frame: u64) -> (r: SyscallResult)
    requires
        old(k).wf(),
        old(k).in_handler(),
        frame == old(k).frame_addr(),
    ensures
        create_step(*old(k), *final(k), *fs, r),
{
    proof {
        reveal(frame_in);
    }
    let ghost k0 = *k;
    let path_ptr = {
        proof {
            assert(slot_wf(k.current(), k.ptable.current as int, k.alloc, k.syms));
        }
        k.mem.read_u64(frame + FRAME_A0)
    };
    let bytes = match read_path(k, frame) {
        Some(b) => b,
        None => {
            return SyscallResult::Fatal(KernelPanic::BadUserPointer(path_ptr));
        },
    };
    let path = match str_from_utf8(bytes.as_slice()) {
        Some(p) => p,
        None => {
            return SyscallResult::Fatal(KernelPanic::BadPath);
        },
    };
    let ghost k1 = *k;
    let node = match fs.lookup(path) {
        Some(n) => n,
        None => {
            leave_in_a0(k, frame, SYSCALL_FAILED);
            proof {
                lemma_call_left(k0, k1, *k, SYSCALL_FAILED);
                lemma_create_step_not_found(k0, *k, *fs, bytes@);
            }
            return SyscallResult::Done;
        },
    };
    let image = match load_file(k, &node) {
        Some(i) => i,
        None => {
            return SyscallResult::Fatal(
                KernelPanic::Process(ProcError::Alloc(crate::allocator::AllocError::OutOfMemory)),
            );
        },
    };
    let ghost k2 = *k;
    let r = spawn_image(k, frame, image.as_slice());
    proof {
        lemma_create_composed(k0, k2, *k, image@, r);
        lemma_create_step_file(k0, *k, *fs, bytes@, node.content(), r, k2.alloc.next);
    }
    r
}

/// What `create_step` says where the path leads to no file.
proof fn lemma_create_step_not_found(k0: Kernel, k3: Kernel, fs: MemoryFs, path: Seq<u8>)
    requires
        passed_path(k0) == Some(path),
        valid_utf8(path),
        fs.file(path) is None,
        call_left(k0, k3, SYSCALL_FAILED, after_sum_window(k0.hart)),
        k3.alloc == k0.alloc,
        k3.ptable.procs@ == k0.ptable.procs@,
    ensures
        create_step(k0, k3, fs, SyscallResult::Done),
{
}

/// What `create_step` says where the path leads to a file.
proof fn lemma_create_step_file(
    k0: Kernel,
    k3: Kernel,
    fs: MemoryFs,
    path: Seq<u8>,
    content: Seq<u8>,
    r: SyscallResult,
    loaded_at: u64,
)
    requires
        passed_path(k0) == Some(path),
        valid_utf8(path),
        fs.file(path) == Some(content),
        loaded_at == k0.alloc.next + file_pages(content.len() as int) * PAGE_SIZE,
        loaded_at <= k0.alloc.end,
        image_step(k0, k3, padded_file(content), loaded_at, r, after_sum_window(k0.hart)),
    ensures
        create_step(k0, k3, fs, r),
{
}

/// Whether `k2` is `k0` after frames were handed out and filled: the same
/// processes, symbols and limits, and the same RAM below the frames that
/// came since.
pub open spec fn pages_taken(k0: Kernel, k2: Kernel) -> bool {
    &&& k2.ptable == k0.ptable
    &&& k2.syms == k0.syms
    &&& k2.alloc.start == k0.alloc.start
    &&& k2.alloc.end == k0.alloc.end
    &&& k2.alloc.next >= k0.alloc.next
    &&& k2.mem.base == k0.mem.base
    &&& k2.mem.bytes@.len() == k0.mem.bytes@.len()
    &&& k2.mem.same_outside(&k0.mem, k0.alloc.next as int, k2.alloc.next as int)
}

/// Frames handed out in between leave the caller's trap frame where it was.
proof fn lemma_pages_taken_frame(k0: Kernel, k2: Kernel)
    requires
        k0.wf(),
        k0.in_handler(),
        pages_taken(k0, k2),
    ensures
        k2.frame_addr() == k0.frame_addr(),
        current_frame(k2) == current_frame(k0),
{
    assert(slot_wf(k0.current(), k0.ptable.current as int, k0.alloc, k0.syms));
    lemma_frame_same(&k2.mem, &k0.mem, k0.frame_addr());
}

/// A call that left `k2` for `k3` has left `k0` for it too, where `k2` is
/// `k0` after frames were handed out.
proof fn lemma_call_left_after_pages(k0: Kernel, k2: Kernel, k3: Kernel, v: u64, h: crate::hart::Hart)
    requires
        pages_taken(k0, k2),
        k2.frame_addr() == k0.frame_addr(),
        current_frame(k2) == current_frame(k0),
        call_left(k2, k3, v, h),
    ensures
        call_left(k0, k3, v, h),
{
    assert forall|a: int|
        k0.mem.contains(a, 1) && !(k0.alloc.next <= a < k3.alloc.next) && !(k0.frame_addr()
            + FRAME_A0 <= a < k0.frame_addr() + FRAME_A0 + 8) implies #[trigger] k3.mem.byte(a)
        == k0.mem.byte(a) by {
        assert(k2.mem.contains(a, 1));
        assert(k3.mem.byte(a) == k2.mem.byte(a));
        assert(k2.mem.byte(a) == k0.mem.byte(a));
    }
}

/// A file that was read into fresh frames and started from there was started
/// for the caller as it stood before the file was read.
proof fn lemma_create_composed(k0: Kernel, k2: Kernel, k3: Kernel, image: Seq<u8>, r: SyscallResult)
    requires
        k0.wf(),
        k0.in_handler(),
        pages_taken(k0, k2),
        image_step(k2, k3, image, k2.alloc.next, r, k2.hart),
    ensures
        image_step(k0, k3, image, k2.alloc.next, r, k2.hart),
{
    reveal(image_step);
    lemma_pages_taken_frame(k0, k2);
    let alloc = crate::allocator::PageAllocator { next: k2.alloc.next, ..k0.alloc };
    assert(alloc == k2.alloc);
    match crate::spawn::create_process_fault(k0.ptable.procs@, alloc, k0.syms, image) {
        Some(ProcError::Elf(_)) => {
            lemma_call_left_after_pages(k0, k2, k3, SYSCALL_FAILED, k2.hart);
        },
        Some(e) => {},
        None => {
            let pid = choose|pid: int| #[trigger]
                process_started(k2, k3, image, k2.alloc.next, k2.hart, pid);
            lemma_call_left_after_pages(k0, k2, k3, pid as u64, k2.hart);
            assert(process_started(k0, k3, image, k2.alloc.next, k2.hart, pid));
        },
    }
}

/// What a system call does, by the number in the `a3` slot of the trap frame
/// of the caller. A number that stands for no call stops the kernel.
#[verifier::opaque]
pub open spec fn syscall_step(
    k0: Kernel,
    c0: Console,
    k1: Kernel,
    c1: Console,
    fs: MemoryFs,
    r: SyscallResult,
) -> bool {
    let sysno = current_frame(k0).a3;
    if sysno == SYS_WRITE_BYTE {
        write_byte_step(k0, c0, k1, c1, r)
    } else if sysno == SYS_READ_BYTE {
        read_byte_step(k0, c0, k1, c1, r)
    } else if sysno == SYS_YIELD_PROCESS {
        yield_step(k0, k1, r) && same_console(c0, c1)
    } else if sysno == SYS_EXIT_PROCESS {
        exit_step(k0, k1, r) && same_console(c0, c1)
    } else if sysno == SYS_CREATE_PROCESS {
        create_step(k0, k1, fs, r) && same_console(c0, c1)
    } else if sysno == SYS_LIST_PROCESS {
        r == SyscallResult::Listed && same_kernel(k0, k1) && same_console(c0, c1)
    } else {
        &&& r == SyscallResult::Fatal(KernelPanic::UnknownSyscall(sysno))
        &&& same_kernel(k0, k1)
        &&& same_console(c0, c1)
    }
}

/// Handles the system call of the process whose trap frame lies at `frame`:
/// reads the number of the call from the `a3` slot, does what the call asks
/// for, and leaves what the call returns in the `a0` slot.
pub fn handle_syscall(k: &mut Kernel, console: &mut Console, fs: &MemoryFs, frame: u64) -> (r:
    SyscallResult)
    requires
        old(k).wf(),
        old(k).in_handler(),
        frame == old(k).frame_addr(),
        old(console).wf(),
    ensures
        final(console).wf(),
        syscall_step(*old(k), *old(console), *final(k), *final(console), *fs, r),
{
    proof {
        reveal(syscall_step);
        reveal(frame_in);
        assert(slot_wf(k.current(), k.ptable.current as int, k.alloc, k.syms));
    }
    let sysno = k.mem.read_u64(frame + FRAME_A3);
    if sysno == SYS_WRITE_BYTE {
        sys_write_byte(k, console, frame)
    } else if sysno == SYS_READ_BYTE {
        sys_read_byte(k, console, frame)
    } else if sysno == SYS_YIELD_PROCESS {
        sys_yield(k)
    } else if sysno == SYS_EXIT_PROCESS {
        sys_exit(k)
    } else if sysno == SYS_CREATE_PROCESS {
        sys_create_process(k, fs, frame)
    } else if sysno == SYS_LIST_PROCESS {
        SyscallResult::Listed
    } else {
        SyscallResult::Fatal(KernelPanic::UnknownSyscall(sysno))
    }
}

/// Starting a program, where it does not stop the kernel, leaves the kernel
/// well formed and inside the trap handler of the caller.
pub proof fn lemma_create_keeps_handler(k0: Kernel, k1: Kernel, fs: MemoryFs, r: SyscallResult)
    requires
        k0.wf(),
        k0.in_handler(),
        create_step(k0, k1, fs, r),
    ensures
        r is Done ==> k1.wf() && k1.in_handler(),
        !(r is Switched),
        !(r is Listed),
        !(r is Blocked),
{
    reveal(image_step);
}

/// What a call that left `v` in `a0` has done to what the handler keeps for
/// the caller: nothing, but for the `a0` slot of the trap frame.
pub proof fn lemma_call_left_frame(k0: Kernel, k1: Kernel, v: u64, h: crate::hart::Hart)
    requires
        k0.wf(),
        k0.in_handler(),
        call_left(k0, k1, v, h),
        h.regs.sp == k0.hart.regs.sp,
    ensures
        k1.frame_addr() == k0.frame_addr(),
        current_frame(k1) == (TrapFrame { a0: v, ..current_frame(k0) }),
        k1.kept_pc() == k0.kept_pc(),
{
    assert(slot_wf(k0.current(), k0.ptable.current as int, k0.alloc, k0.syms));
    assert(slot_wf(k1.current(), k1.ptable.current as int, k1.alloc, k1.syms));
    assert(k1.frame_addr() == k0.frame_addr());
    crate::physmem::lemma_word_same(&k1.mem, &k0.mem, k0.frame_addr() - TRAP_LOCALS_SIZE + 8);
}

/// What starting a program, where it does not stop the kernel, has done to
/// what the handler keeps for the caller: nothing, but for the `a0` slot of
/// the trap frame.
pub proof fn lemma_create_frame(k0: Kernel, k1: Kernel, fs: MemoryFs, r: SyscallResult)
    requires
        k0.wf(),
        k0.in_handler(),
        create_step(k0, k1, fs, r),
        r is Done,
    ensures
        k1.frame_addr() == k0.frame_addr(),
        k1.ptable.current == k0.ptable.current,
        current_frame(k1) == (TrapFrame { a0: current_frame(k1).a0, ..current_frame(k0) }),
        k1.kept_pc() == k0.kept_pc(),
{
    reveal(image_step);
    let h = after_sum_window(k0.hart);
    if call_left(k0, k1, SYSCALL_FAILED, h) {
        lemma_call_left_frame(k0, k1, SYSCALL_FAILED, h);
    } else {
        let content = fs.file(passed_path(k0).unwrap()).unwrap();
        let loaded_at = (k0.alloc.next + file_pages(content.len() as int) * PAGE_SIZE) as u64;
        let pid = choose|pid: int| #[trigger]
            process_started(k0, k1, padded_file(content), loaded_at, h, pid);
        lemma_call_left_frame(k0, k1, pid as u64, h);
    }
}

/// What a system call that did not give the hart away, and did not stop the
/// kernel, has done to what the handler keeps for the caller: nothing, but
/// for the `a0` slot of the trap frame, where the call returns a value.
pub proof fn lemma_step_frame(
    kh: Kernel,
    c0: Console,
    km: Kernel,
    c1: Console,
    fs: MemoryFs,
    r: SyscallResult,
)
    requires
        kh.wf(),
        kh.in_handler(),
        syscall_step(kh, c0, km, c1, fs, r),
        r is Done || r is Listed || r is Blocked,
    ensures
        km.frame_addr() == kh.frame_addr(),
        km.ptable.current == kh.ptable.current,
        current_frame(km) == (TrapFrame { a0: current_frame(km).a0, ..current_frame(kh) }),
        km.kept_pc() == kh.kept_pc(),
        r is Blocked || current_frame(kh).a3 == SYS_WRITE_BYTE || current_frame(kh).a3
            == SYS_LIST_PROCESS ==> current_frame(km).a0 == current_frame(kh).a0,
        r is Done && current_frame(kh).a3 == SYS_READ_BYTE ==> c0.pending().len() > 0
            && current_frame(km).a0 == c0.pending()[0],
        !(r is Done) ==> current_frame(kh).a3 != SYS_CREATE_PROCESS,
{
    reveal(syscall_step);
    reveal(frame_in);
    let sysno = current_frame(kh).a3;
    assert(slot_wf(kh.current(), kh.ptable.current as int, kh.alloc, kh.syms));
    if sysno == SYS_CREATE_PROCESS {
        lemma_create_keeps_handler(kh, km, fs, r);
        lemma_create_frame(kh, km, fs, r);
    } else if sysno == SYS_READ_BYTE && r is Done {
        crate::physmem::lemma_word_same(&km.mem, &kh.mem, kh.frame_addr() - TRAP_LOCALS_SIZE + 8);
    } else if sysno == SYS_YIELD_PROCESS || sysno == SYS_EXIT_PROCESS {
    } else {
        assert(km.mem.bytes@ == kh.mem.bytes@);
    }
}

/// Whether a call left RAM as it was outside the frames handed out since
/// and outside the `a0` slot of the caller's trap frame.
pub open spec fn memory_kept(k0: Kernel, k1: Kernel) -> bool {
    &&& k1.mem.base == k0.mem.base
    &&& k1.mem.bytes@.len() == k0.mem.bytes@.len()
    &&& k1.alloc.next >= k0.alloc.next
    &&& forall|a: int|
        k0.mem.contains(a, 1) && !(k0.alloc.next <= a < k1.alloc.next) && !(k0.frame_addr()
            + FRAME_A0 <= a < k0.frame_addr() + FRAME_A0 + 8) ==> #[trigger] k1.mem.byte(a)
            == k0.mem.byte(a)
}

/// A kernel that is as it was has kept its memory.
proof fn lemma_same_kernel_memory(k0: Kernel, k1: Kernel)
    requires
        same_kernel(k0, k1),
    ensures
        memory_kept(k0, k1),
{
}

/// Leaving a value in `a0` of the frame touches that slot alone.
proof fn lemma_a0_set_memory(k0: Kernel, k1: Kernel, v: u64)
    requires
        a0_set(k0, k1, v),
    ensures
        memory_kept(k0, k1),
{
}

/// A switch leaves RAM and the allocator alone.
proof fn lemma_switched_memory(k0: Kernel, procs: Seq<crate::proc::Process>, k1: Kernel)
    requires
        switched(k0, procs, k1),
    ensures
        memory_kept(k0, k1),
{
}

/// Reading a byte keeps the memory, whether a byte was there or not.
proof fn lemma_read_memory(k0: Kernel, c0: Console, k1: Kernel, c1: Console, r: SyscallResult)
    requires
        read_byte_step(k0, c0, k1, c1, r),
    ensures
        memory_kept(k0, k1),
{
    if c0.pending().len() == 0 {
        lemma_same_kernel_memory(k0, k1);
    } else {
        lemma_a0_set_memory(k0, k1, c0.pending()[0] as u64);
    }
}

/// What a system call that did not stop the kernel has changed in RAM:
/// nothing but the `a0` slot of the trap frame of the caller, and frames that
/// were handed out meanwhile.
pub proof fn lemma_step_memory(
    kh: Kernel,
    c0: Console,
    km: Kernel,
    c1: Console,
    fs: MemoryFs,
    r: SyscallResult,
)
    requires
        kh.wf(),
        kh.in_handler(),
        syscall_step(kh, c0, km, c1, fs, r),
        !(r is Fatal),
    ensures
        memory_kept(kh, km),
{
    reveal(syscall_step);
    let sysno = current_frame(kh).a3;
    if sysno == SYS_WRITE_BYTE {
        assert(write_byte_step(kh, c0, km, c1, r));
        lemma_same_kernel_memory(kh, km);
    } else if sysno == SYS_READ_BYTE {
        lemma_read_memory(kh, c0, km, c1, r);
    } else if sysno == SYS_YIELD_PROCESS {
        assert(yield_step(kh, km, r));
        lemma_switched_memory(kh, kh.ptable.procs@, km);
    } else if sysno == SYS_EXIT_PROCESS {
        assert(exit_step(kh, km, r));
        lemma_switched_memory(kh, procs_exited(kh.ptable.procs@, kh.ptable.current as int), km);
    } else if sysno == SYS_CREATE_PROCESS {
        lemma_create_memory(kh, km, fs, r);
    } else {
        lemma_same_kernel_memory(kh, km);
    }
}

/// What starting a program, where it does not stop the kernel, has changed
/// in RAM: nothing but the `a0` slot of the trap frame of the caller, and
/// frames that were handed out meanwhile.
pub proof fn lemma_create_memory(k0: Kernel, k1: Kernel, fs: MemoryFs, r: SyscallResult)
    requires
        k0.wf(),
        k0.in_handler(),
        create_step(k0, k1, fs, r),
        !(r is Fatal),
    ensures
        k1.mem.base == k0.mem.base,
        k1.mem.bytes@.len() == k0.mem.bytes@.len(),
        k1.alloc.next >= k0.alloc.next,
        forall|a: int|
            k0.mem.contains(a, 1) && !(k0.alloc.next <= a < k1.alloc.next) && !(k0.frame_addr()
                + FRAME_A0 <= a < k0.frame_addr() + FRAME_A0 + 8) ==> #[trigger] k1.mem.byte(a)
                == k0.mem.byte(a),
{
    reveal(image_step);
    let h = after_sum_window(k0.hart);
    if !call_left(k0, k1, SYSCALL_FAILED, h) {
        let content = fs.file(passed_path(k0).unwrap()).unwrap();
        let loaded_at = (k0.alloc.next + file_pages(content.len() as int) * PAGE_SIZE) as u64;
        let pid = choose|pid: int| #[trigger]
            process_started(k0, k1, padded_file(content), loaded_at, h, pid);
        assert(call_left(k0, k1, pid as u64, h));
    }
}

/// Making a process leaves every slot in use as it was, and the hart with
/// the caller.
proof fn lemma_create_keeps_slots(k0: Kernel, k1: Kernel, fs: MemoryFs, r: SyscallResult, p: int)
    requires
        k0.wf(),
        k0.in_handler(),
        create_step(k0, k1, fs, r),
        !(r is Fatal),
        0 <= p < NPROC,
        k0.ptable.procs@[p].state != ProcState::Unused,
    ensures
        k1.ptable.procs@[p] == k0.ptable.procs@[p],
        k1.ptable.current == k0.ptable.current,
        k1.syms == k0.syms,
{
    reveal(image_step);
    let h = after_sum_window(k0.hart);
    if !call_left(k0, k1, SYSCALL_FAILED, h) {
        let content = fs.file(passed_path(k0).unwrap()).unwrap();
        let loaded_at = (k0.alloc.next + file_pages(content.len() as int) * PAGE_SIZE) as u64;
        let pid = choose|pid: int| #[trigger]
            process_started(k0, k1, padded_file(content), loaded_at, h, pid);
        assert(call_left(k0, k1, pid as u64, h));
        assert(pid != p);
    }
}

/// A system call that does not stop the kernel changes no slot in use but
/// that of the caller, and gives the hart away only by a switch.
pub proof fn lemma_step_keeps_slots(
    kh: Kernel,
    c0: Console,
    km: Kernel,
    c1: Console,
    fs: MemoryFs,
    r: SyscallResult,
    p: int,
)
    requires
        kh.wf(),
        kh.in_handler(),
        syscall_step(kh, c0, km, c1, fs, r),
        !(r is Fatal),
        0 <= p < NPROC,
        p != kh.ptable.current,
        kh.ptable.procs@[p].state != ProcState::Unused,
    ensures
        km.ptable.procs@[p] == kh.ptable.procs@[p],
        km.syms == kh.syms,
        !(r is Switched) ==> km.ptable.current == kh.ptable.current,
{
    reveal(syscall_step);
    let sysno = current_frame(kh).a3;
    if sysno == SYS_CREATE_PROCESS {
        lemma_create_keeps_slots(kh, km, fs, r, p);
    } else if sysno == SYS_READ_BYTE {
        assert(read_byte_step(kh, c0, km, c1, r));
    }
}

/// A call that gave the hart to another process has loaded the registers
/// that were saved in the slot of that process, and left the slot and RAM
/// as they were.
pub proof fn lemma_switch_loads(
    kh: Kernel,
    c0: Console,
    km: Kernel,
    c1: Console,
    fs: MemoryFs,
    r: SyscallResult,
)
    requires
        kh.wf(),
        kh.in_handler(),
        syscall_step(kh, c0, km, c1, fs, r),
        r is Switched,
        km.ptable.current != kh.ptable.current,
    ensures
        arrived(km),
        km.mem.base == kh.mem.base,
        km.mem.bytes@ == kh.mem.bytes@,
        km.alloc == kh.alloc,
        km.syms == kh.syms,
        km.ptable.procs@[km.ptable.current as int] == kh.ptable.procs@[km.ptable.current as int],
        km.hart.pc == kh.ptable.procs@[km.ptable.current as int].context.ra,
        km.hart.regs.sp == kh.ptable.procs@[km.ptable.current as int].context.sp,
{
    reveal(syscall_step);
    let sysno = current_frame(kh).a3;
    if sysno == SYS_CREATE_PROCESS {
        lemma_create_keeps_handler(kh, km, fs, r);
    } else if sysno == SYS_YIELD_PROCESS {
        assert(switched(kh, kh.ptable.procs@, km));
    } else if sysno == SYS_EXIT_PROCESS {
        assert(switched(kh, procs_exited(kh.ptable.procs@, kh.ptable.current as int), km));
    }
}

/// A yield saves the registers of the hart in the slot of the caller, with
/// the address behind the switch as `ra`, and leaves RAM as it was.
pub proof fn lemma_yield_saves(
    kh: Kernel,
    c0: Console,
    km: Kernel,
    c1: Console,
    fs: MemoryFs,
    r: SyscallResult,
)
    requires
        kh.wf(),
        kh.in_handler(),
        syscall_step(kh, c0, km, c1, fs, r),
        current_frame(kh).a3 == SYS_YIELD_PROCESS,
    ensures
        r is Switched,
        arrived(km),
        km.mem.base == kh.mem.base,
        km.mem.bytes@ == kh.mem.bytes@,
        km.syms == kh.syms,
        km.ptable.procs@[kh.ptable.current as int] == (Process {
            context: crate::proc::context_of(
                crate::hart::Hart {
                    regs: crate::hart::Registers { ra: kh.syms.switch_return, ..kh.hart.regs },
                    ..kh.hart
                },
            ),
            ..kh.current()
        }),
{
    reveal(syscall_step);
    assert(switched(kh, kh.ptable.procs@, km));
}

} // verus!
