//! The kernel as a whole: RAM, the page allocator, the process table and the
//! hart, with what holds of them between any two steps of the kernel.

use crate::allocator::PageAllocator;
use crate::csr::CsrFile;
use crate::hart::{hart_returned, sret_mode, Hart, Privilege};
use crate::pagetable::{is_table, table_tree};
use crate::physmem::PhysMemory;
use crate::proc::{Pid, ProcError, ProcState, Process, ProcessTable, KERNEL_STACK_SIZE, NPROC};
use crate::spawn::{
    create_idle_process, create_process, create_process_fault, kernel_shape, new_process,
};
use crate::switch::{start_process, user_entry};
use crate::symbols::KernelSymbols;
use crate::trap::{
    frame_in, regs_of_frame, restore_trap_frame, TRAP_FRAME_SIZE, TRAP_LOCALS_SIZE,
};
use crate::utils::PAGE_SIZE;
use vstd::prelude::*;

verus! {

/// Why the kernel stopped for good.
#[derive(Debug, Clone, Copy, PartialEq, Eq, Structural)]
pub enum KernelPanic {
    /// A trap that is no system call: its cause, trap value and program counter.
    UnexpectedTrap { scause: u64, stval: u64, sepc: u64 },
    /// A system call with a number that stands for none.
    UnknownSyscall(u64),
    /// A byte to write that is no byte.
    ByteOutOfRange(u64),
    /// The console refused a byte, with this error.
    Console(i32),
    /// The path of a program to start cannot be read from user memory.
    BadUserPointer(u64),
    /// The path of a program to start is not UTF-8.
    BadPath,
    /// A process could not be made, for a reason other than its image.
    Process(ProcError),
    /// There is no process to start.
    NoProcess,
}

/// How a step of the kernel ended.
#[derive(Debug, Clone, Copy, PartialEq, Eq, Structural)]
pub enum TrapOutcome {
    /// The hart is in user mode, in the current process.
    Resumed,
    /// As `Resumed`; before, the process asked for the list of processes.
    Listed,
    /// No process can run: the hart is in the loop of the idle process.
    Idle,
    /// The current process waits for a byte from the console: it stands at
    /// its `ecall` again, with its registers as they were, to make the call
    /// once more.
    Blocked,
    /// The kernel has stopped.
    Fatal(KernelPanic),
}

/// The kernel.
pub struct Kernel {
    pub mem: PhysMemory,
    pub alloc: PageAllocator,
    pub ptable: ProcessTable,
    pub hart: Hart,
    pub syms: KernelSymbols,
}

/// What holds of the process `p` in slot `i`. A slot in use holds the process
/// with the identifier `i`; its kernel stack is a frame that was handed out;
/// its saved registers lead to one of the places at which a process goes on
/// in the kernel, and where that is the place behind a switch, its saved
/// stack pointer stands below a trap frame and what the trap handler keeps.
pub open spec fn slot_wf(p: Process, i: int, alloc: PageAllocator, syms: KernelSymbols) -> bool {
    &&& p.kernel_stack.spec_top() <= u64::MAX
    &&& p.state != ProcState::Unused ==> {
        &&& p.pid.0 == i
        &&& p.kernel_stack.size == KERNEL_STACK_SIZE
        &&& alloc.allocated(p.kernel_stack.base as int)
        &&& p.context.ra == syms.switch_return ==> p.context.sp == p.kernel_stack.spec_top()
            - TRAP_FRAME_SIZE - TRAP_LOCALS_SIZE
        &&& if i == 0 {
            p.context.ra == syms.idle_process
        } else {
            p.context.ra == syms.user_entry || p.context.ra == syms.switch_return
        }
    }
}

/// The top-level table of the address space of the process `p`.
pub open spec fn space_top(p: Process) -> int {
    crate::spawn::satp_table(p.satp_value) as int
}

/// What holds of the address space of the process in slot `i`: its tables
/// form a tree of frames that were handed out, and none of them is the kernel
/// stack of a process.
pub open spec fn space_wf(
    mem: &PhysMemory,
    alloc: PageAllocator,
    procs: Seq<Process>,
    i: int,
) -> bool {
    &&& table_tree(mem, &alloc, space_top(procs[i]))
    &&& forall|j: int|
        0 <= j < procs.len() && (#[trigger] procs[j]).state != ProcState::Unused ==> !is_table(
            mem,
            space_top(procs[i]),
            procs[j].kernel_stack.base as int,
        )
}

/// What holds of the address spaces of all processes: see `space_wf`.
#[verifier::opaque]
pub open spec fn spaces_wf(mem: &PhysMemory, alloc: PageAllocator, procs: Seq<Process>) -> bool {
    forall|i: int|
        0 <= i < procs.len() && (#[trigger] procs[i]).state != ProcState::Unused ==> space_wf(
            mem,
            alloc,
            procs,
            i,
        )
}

/// Writing to the kernel stack of a process leaves all address spaces as
/// they were.
pub proof fn lemma_spaces_keep_on_stack_write(
    m0: &PhysMemory,
    m1: &PhysMemory,
    alloc: PageAllocator,
    procs: Seq<Process>,
    i: int,
)
    requires
        spaces_wf(m0, alloc, procs),
        0 <= i < procs.len(),
        procs[i].state != ProcState::Unused,
        procs[i].kernel_stack.base % PAGE_SIZE == 0,
        m1.base == m0.base,
        m1.bytes@.len() == m0.bytes@.len(),
        m1.same_outside(
            m0,
            procs[i].kernel_stack.base as int,
            procs[i].kernel_stack.base + PAGE_SIZE,
        ),
    ensures
        spaces_wf(m1, alloc, procs),
{
    reveal(spaces_wf);
    let base = procs[i].kernel_stack.base as int;
    assert forall|k: int|
        0 <= k < procs.len() && (#[trigger] procs[k]).state != ProcState::Unused implies space_wf(
        m1,
        alloc,
        procs,
        k,
    ) by {
        assert(space_wf(m0, alloc, procs, k));
        let top = space_top(procs[k]);
        assert(!is_table(m0, top, base));
        crate::pagetable::lemma_changes_outside_tables_keep_space(m0, m1, &alloc, top, base);
        assert forall|j: int|
            0 <= j < procs.len() && (#[trigger] procs[j]).state != ProcState::Unused implies !is_table(
            m1,
            top,
            procs[j].kernel_stack.base as int,
        ) by {
            assert(!is_table(m0, top, procs[j].kernel_stack.base as int));
        }
    }
}

/// Handing out frames, whatever is written into them, leaves all address
/// spaces as they were.
pub proof fn lemma_spaces_keep_on_new_frames(
    m0: &PhysMemory,
    m1: &PhysMemory,
    al0: PageAllocator,
    al1: PageAllocator,
    procs: Seq<Process>,
)
    requires
        spaces_wf(m0, al0, procs),
        al1.wf(),
        al1.within(m1),
        al1.start == al0.start,
        al1.end == al0.end,
        al1.next >= al0.next,
        m1.same_outside(m0, al0.next as int, al1.next as int),
    ensures
        spaces_wf(m1, al1, procs),
{
    reveal(spaces_wf);
    assert forall|k: int|
        0 <= k < procs.len() && (#[trigger] procs[k]).state != ProcState::Unused implies space_wf(
        m1,
        al1,
        procs,
        k,
    ) by {
        assert(space_wf(m0, al0, procs, k));
        let top = space_top(procs[k]);
        crate::pagetable::lemma_new_frames_keep_space(m0, m1, &al0, &al1, top);
        assert forall|j: int|
            0 <= j < procs.len() && (#[trigger] procs[j]).state != ProcState::Unused implies !is_table(
            m1,
            top,
            procs[j].kernel_stack.base as int,
        ) by {
            assert(!is_table(m0, top, procs[j].kernel_stack.base as int));
        }
    }
}

/// Address spaces are as they were when the slots have changed in nothing
/// but the saved registers, the state of slots in use and the entry points.
pub proof fn lemma_spaces_keep_on_switch(
    mem: &PhysMemory,
    alloc: PageAllocator,
    p0: Seq<Process>,
    p1: Seq<Process>,
)
    requires
        spaces_wf(mem, alloc, p0),
        p1.len() == p0.len(),
        forall|i: int|
            0 <= i < p0.len() ==> {
                &&& ((#[trigger] p1[i]).state != ProcState::Unused) == (p0[i].state
                    != ProcState::Unused)
                &&& p1[i].satp_value == p0[i].satp_value
                &&& p1[i].kernel_stack == p0[i].kernel_stack
            },
    ensures
        spaces_wf(mem, alloc, p1),
{
    reveal(spaces_wf);
    assert forall|k: int|
        0 <= k < p1.len() && (#[trigger] p1[k]).state != ProcState::Unused implies space_wf(
        mem,
        alloc,
        p1,
        k,
    ) by {
        assert(p0[k].state != ProcState::Unused);
        assert(space_wf(mem, alloc, p0, k));
        assert forall|j: int|
            0 <= j < p1.len() && (#[trigger] p1[j]).state != ProcState::Unused implies !is_table(
            mem,
            space_top(p1[k]),
            p1[j].kernel_stack.base as int,
        ) by {
            assert(p0[j].state != ProcState::Unused);
        }
    }
}

/// The address spaces after a process was made in an unused slot, from
/// frames that lie above all frames that were handed out before: the kernel
/// stack first, then the top-level table, then all other tables.
pub proof fn lemma_spaces_with_new_process(
    m0: &PhysMemory,
    m1: &PhysMemory,
    al0: PageAllocator,
    al1: PageAllocator,
    procs: Seq<Process>,
    pid: int,
    p: Process,
)
    requires
        spaces_wf(m0, al0, procs),
        al0.wf(),
        al1.wf(),
        al1.within(m1),
        al1.start == al0.start,
        al1.end == al0.end,
        al1.end <= 0x100_0000_0000_0000,
        al1.next >= al0.next + 2 * PAGE_SIZE,
        m1.same_outside(m0, al0.next as int, al1.next as int),
        0 <= pid < procs.len(),
        procs[pid].state == ProcState::Unused,
        forall|j: int|
            0 <= j < procs.len() && (#[trigger] procs[j]).state != ProcState::Unused
                ==> al0.allocated(procs[j].kernel_stack.base as int),
        p.kernel_stack.base == al0.next,
        p.satp_value == crate::spawn::satp_for((al0.next + PAGE_SIZE) as u64),
        table_tree(m1, &al1, al0.next + PAGE_SIZE),
        forall|a: int| #[trigger] is_table(m1, al0.next + PAGE_SIZE, a) ==> al0.next + PAGE_SIZE <= a,
    ensures
        spaces_wf(m1, al1, procs.update(pid, p)),
{
    lemma_spaces_keep_on_new_frames(m0, m1, al0, al1, procs);
    reveal(spaces_wf);
    let after = procs.update(pid, p);
    let top = al0.next + PAGE_SIZE;
    crate::spawn::lemma_satp_table(top as u64);
    assert(space_top(p) == top);
    assert forall|k: int|
        0 <= k < after.len() && (#[trigger] after[k]).state != ProcState::Unused implies space_wf(
        m1,
        al1,
        after,
        k,
    ) by {
        if k == pid {
            assert forall|j: int|
                0 <= j < after.len() && (#[trigger] after[j]).state != ProcState::Unused implies !is_table(
                m1,
                top,
                after[j].kernel_stack.base as int,
            ) by {
                if j != pid {
                    assert(procs[j].state != ProcState::Unused);
                    assert(al0.allocated(procs[j].kernel_stack.base as int));
                }
            }
        } else {
            assert(procs[k].state != ProcState::Unused);
            assert(space_wf(m1, al1, procs, k));
            assert(space_wf(m0, al0, procs, k));
            let t = space_top(procs[k]);
            crate::pagetable::lemma_new_frames_keep_space(m0, m1, &al0, &al1, t);
            assert forall|j: int|
                0 <= j < after.len() && (#[trigger] after[j]).state != ProcState::Unused implies !is_table(
                m1,
                t,
                after[j].kernel_stack.base as int,
            ) by {
                if j == pid {
                    if is_table(m1, t, al0.next as int) {
                        assert(is_table(m0, t, al0.next as int));
                        crate::pagetable::lemma_tables_are_allocated(m0, &al0, t, al0.next as int);
                    }
                } else {
                    assert(procs[j].state != ProcState::Unused);
                }
            }
        }
    }
}

/// Whether no two processes share a kernel stack.
#[verifier::opaque]
pub open spec fn stacks_apart(procs: Seq<Process>) -> bool {
    forall|i: int, j: int|
        0 <= i < procs.len() && 0 <= j < procs.len() && i != j && (#[trigger] procs[i]).state
            != ProcState::Unused && (#[trigger] procs[j]).state != ProcState::Unused
            ==> procs[i].kernel_stack.base != procs[j].kernel_stack.base
}

/// Kernel stacks stay apart when the slots change in nothing but the saved
/// registers, the state of slots in use and the entry points.
pub proof fn lemma_stacks_apart_on_switch(p0: Seq<Process>, p1: Seq<Process>)
    requires
        stacks_apart(p0),
        p1.len() == p0.len(),
        forall|i: int|
            0 <= i < p0.len() ==> {
                &&& ((#[trigger] p1[i]).state != ProcState::Unused) == (p0[i].state
                    != ProcState::Unused)
                &&& p1[i].kernel_stack == p0[i].kernel_stack
            },
    ensures
        stacks_apart(p1),
{
    reveal(stacks_apart);
    assert forall|i: int, j: int|
        0 <= i < p1.len() && 0 <= j < p1.len() && i != j && (#[trigger] p1[i]).state
            != ProcState::Unused && (#[trigger] p1[j]).state
            != ProcState::Unused implies p1[i].kernel_stack.base != p1[j].kernel_stack.base by {
        assert(p0[i].state != ProcState::Unused && p0[j].state != ProcState::Unused);
    }
}

/// Kernel stacks stay apart when a process is made in an unused slot, with a
/// frame as its kernel stack that was not handed out before.
pub proof fn lemma_stacks_apart_with_new_process(
    al0: PageAllocator,
    procs: Seq<Process>,
    pid: int,
    p: Process,
)
    requires
        stacks_apart(procs),
        0 <= pid < procs.len(),
        procs[pid].state == ProcState::Unused,
        forall|j: int|
            0 <= j < procs.len() && (#[trigger] procs[j]).state != ProcState::Unused
                ==> al0.allocated(procs[j].kernel_stack.base as int),
        p.kernel_stack.base == al0.next,
    ensures
        stacks_apart(procs.update(pid, p)),
{
    reveal(stacks_apart);
    let after = procs.update(pid, p);
    assert forall|i: int, j: int|
        0 <= i < after.len() && 0 <= j < after.len() && i != j && (#[trigger] after[i]).state
            != ProcState::Unused && (#[trigger] after[j]).state
            != ProcState::Unused implies after[i].kernel_stack.base
        != after[j].kernel_stack.base by {
        if i == pid {
            assert(procs[j].state != ProcState::Unused);
            assert(al0.allocated(procs[j].kernel_stack.base as int));
        } else if j == pid {
            assert(procs[i].state != ProcState::Unused);
            assert(al0.allocated(procs[i].kernel_stack.base as int));
        } else {
            assert(procs[i].state != ProcState::Unused && procs[j].state != ProcState::Unused);
        }
    }
}

/// The kernel stays well formed when nothing changes but RAM inside the
/// kernel stack of the process in slot `i`, and the hart.
pub proof fn lemma_wf_on_stack_write(k0: Kernel, k1: Kernel, i: int)
    requires
        k0.wf(),
        0 <= i < NPROC,
        k0.ptable.procs@[i].state != ProcState::Unused,
        k1.alloc == k0.alloc,
        k1.syms == k0.syms,
        k1.ptable.procs@ == k0.ptable.procs@,
        k1.ptable.current == k0.ptable.current,
        k1.mem.base == k0.mem.base,
        k1.mem.bytes@.len() == k0.mem.bytes@.len(),
        k1.mem.same_outside(
            &k0.mem,
            k0.ptable.procs@[i].kernel_stack.base as int,
            k0.ptable.procs@[i].kernel_stack.base + PAGE_SIZE,
        ),
    ensures
        k1.wf(),
{
    assert(slot_wf(k0.ptable.procs@[i], i, k0.alloc, k0.syms));
    lemma_spaces_keep_on_stack_write(&k0.mem, &k1.mem, k0.alloc, k0.ptable.procs@, i);
    assert forall|j: int| 0 <= j < NPROC implies slot_wf(
        #[trigger] k1.ptable.procs@[j],
        j,
        k1.alloc,
        k1.syms,
    ) by {
        assert(slot_wf(k0.ptable.procs@[j], j, k0.alloc, k0.syms));
    }
}

/// The kernel stays well formed when frames are handed out, whatever is
/// written into them.
pub proof fn lemma_wf_on_new_frames(k0: Kernel, k1: Kernel)
    requires
        k0.wf(),
        k1.alloc.wf(),
        k1.alloc.within(&k1.mem),
        k1.alloc.start == k0.alloc.start,
        k1.alloc.end == k0.alloc.end,
        k1.alloc.next >= k0.alloc.next,
        k1.syms == k0.syms,
        k1.ptable.procs@ == k0.ptable.procs@,
        k1.ptable.current == k0.ptable.current,
        k1.mem.same_outside(&k0.mem, k0.alloc.next as int, k1.alloc.next as int),
    ensures
        k1.wf(),
{
    lemma_spaces_keep_on_new_frames(&k0.mem, &k1.mem, k0.alloc, k1.alloc, k0.ptable.procs@);
    assert forall|j: int| 0 <= j < NPROC implies slot_wf(
        #[trigger] k1.ptable.procs@[j],
        j,
        k1.alloc,
        k1.syms,
    ) by {
        assert(slot_wf(k0.ptable.procs@[j], j, k0.alloc, k0.syms));
    }
}

/// The kernel stays well formed when the slots change in nothing but the
/// saved registers, the state of slots in use and the entry points, as long
/// as each slot stays well formed and the idle process stays runnable.
pub proof fn lemma_wf_on_switch(k0: Kernel, k1: Kernel)
    requires
        k0.wf(),
        k1.alloc == k0.alloc,
        k1.syms == k0.syms,
        k1.mem.base == k0.mem.base,
        k1.mem.bytes@ == k0.mem.bytes@,
        k1.ptable.wf(),
        k1.ptable.procs@[0].state == ProcState::Runnable,
        forall|i: int|
            0 <= i < NPROC ==> {
                &&& slot_wf(#[trigger] k1.ptable.procs@[i], i, k1.alloc, k1.syms)
                &&& (k1.ptable.procs@[i].state != ProcState::Unused) == (k0.ptable.procs@[i].state
                    != ProcState::Unused)
                &&& k1.ptable.procs@[i].satp_value == k0.ptable.procs@[i].satp_value
                &&& k1.ptable.procs@[i].kernel_stack == k0.ptable.procs@[i].kernel_stack
            },
    ensures
        k1.wf(),
{
    assert(slot_wf(k0.ptable.procs@[0], 0, k0.alloc, k0.syms));
    lemma_spaces_keep_on_stack_write(&k0.mem, &k1.mem, k0.alloc, k0.ptable.procs@, 0);
    lemma_spaces_keep_on_switch(&k1.mem, k0.alloc, k0.ptable.procs@, k1.ptable.procs@);
    lemma_stacks_apart_on_switch(k0.ptable.procs@, k1.ptable.procs@);
}

/// Whether `k1` is the kernel `km` after it left the trap handler and the
/// trap gate: the hart is in user mode, with the registers that lay in the
/// trap frame of the current process, at the program counter that the
/// handler kept, or behind the `ecall` there if `advance` is set.
pub open spec fn back_in_user(km: Kernel, k1: Kernel, advance: bool) -> bool {
    &&& k1.wf()
    &&& k1.in_user()
    &&& k1.mem.base == km.mem.base
    &&& k1.mem.bytes@ == km.mem.bytes@
    &&& k1.alloc == km.alloc
    &&& k1.ptable.procs@ == km.ptable.procs@
    &&& k1.ptable.current == km.ptable.current
    &&& k1.syms == km.syms
    &&& k1.hart.regs == regs_of_frame(frame_in(&km.mem, km.frame_addr()))
    &&& k1.hart.pc == if advance {
        after_ecall(km.kept_pc())
    } else {
        km.kept_pc()
    }
    &&& k1.hart.csr == (CsrFile {
        sepc: k1.hart.pc,
        sstatus: crate::hart::sstatus_on_sret(km.hart.csr.sstatus),
        ..km.hart.csr
    })
}

/// Whether `k1` is the kernel `km` after it went on where the registers that
/// a switch had loaded lead: in the idle loop, in user mode for the first
/// time, or out of the trap handler of the process that got the hart.
pub open spec fn went_on(km: Kernel, k1: Kernel, out: TrapOutcome) -> bool {
    &&& k1.wf()
    &&& k1.mem.base == km.mem.base
    &&& k1.mem.bytes@ == km.mem.bytes@
    &&& k1.alloc == km.alloc
    &&& k1.ptable.procs@ == km.ptable.procs@
    &&& k1.ptable.current == km.ptable.current
    &&& k1.syms == km.syms
    &&& if km.hart.pc == km.syms.idle_process {
        out == TrapOutcome::Idle && k1.hart == km.hart
    } else if km.hart.pc == km.syms.user_entry {
        &&& out == TrapOutcome::Resumed
        &&& k1.in_user()
        &&& k1.hart == hart_returned(
            Hart {
                regs: crate::hart::Registers { a0: 0, ..km.hart.regs },
                csr: CsrFile { sstatus: crate::csr::SSTATUS_SPIE, ..km.hart.csr },
                ..km.hart
            },
        )
    } else {
        out == TrapOutcome::Resumed && back_in_user(km, k1, true)
    }
}

/// Whether `kg` is the kernel `km` after the trap handler returned to the
/// trap gate: the handler has given up its place on the kernel stack, and
/// `sepc` holds the program counter that it kept, or the one behind the
/// `ecall` there if `advance` is set. Nothing else has changed.
pub open spec fn handler_left(km: Kernel, kg: Kernel, advance: bool) -> bool {
    &&& kg.mem.base == km.mem.base
    &&& kg.mem.bytes@ == km.mem.bytes@
    &&& kg.alloc == km.alloc
    &&& kg.ptable.procs@ == km.ptable.procs@
    &&& kg.ptable.current == km.ptable.current
    &&& kg.syms == km.syms
    &&& kg.hart == (Hart {
        regs: crate::hart::Registers { sp: km.frame_addr() as u64, ..km.hart.regs },
        csr: CsrFile {
            sepc: if advance {
                after_ecall(km.kept_pc())
            } else {
                km.kept_pc()
            },
            ..km.hart.csr
        },
        ..km.hart
    })
}

/// Whether `k1` is the kernel `kg` after the second half of the trap gate:
/// the registers were loaded from the trap frame of the current process, and
/// `sret` took the hart to `sepc`. Nothing else has changed.
pub open spec fn gate_left(kg: Kernel, k1: Kernel) -> bool {
    &&& k1.mem.base == kg.mem.base
    &&& k1.mem.bytes@ == kg.mem.bytes@
    &&& k1.alloc == kg.alloc
    &&& k1.ptable.procs@ == kg.ptable.procs@
    &&& k1.ptable.current == kg.ptable.current
    &&& k1.syms == kg.syms
    &&& k1.hart == hart_returned(
        Hart { regs: regs_of_frame(frame_in(&kg.mem, kg.frame_addr())), ..kg.hart },
    )
}

/// Leaving the handler and then returning from the trap is going back to user mode.
pub proof fn lemma_back_in_user(km: Kernel, kg: Kernel, k1: Kernel, advance: bool)
    requires
        km.wf(),
        km.in_handler(),
        handler_left(km, kg, advance),
        gate_left(kg, k1),
        k1.wf(),
        k1.in_user(),
    ensures
        back_in_user(km, k1, advance),
{
    assert(slot_wf(km.current(), km.ptable.current as int, km.alloc, km.syms));
    assert(kg.frame_addr() == km.frame_addr());
    crate::trap::lemma_frame_same(&kg.mem, &km.mem, km.frame_addr());
}

/// Whether `k1` is the kernel `k0` after `spawn` tried to make a process from
/// the image `image`, with the result `r`.
///
/// It failed as `create_process_fault` says, and the table is as it was; an
/// image that cannot be loaded leaves everything as it was. Or the process
/// stands in the first unused slot, which is not slot 0, and RAM holds its
/// address space. Nothing changes in RAM outside the frames that were taken
/// from the page area, and nothing of the hart.
pub open spec fn spawn_done(k0: Kernel, k1: Kernel, image: Seq<u8>, r: Result<Pid, ProcError>) -> bool {
    &&& k1.hart == k0.hart
    &&& k1.syms == k0.syms
    &&& k1.ptable.current == k0.ptable.current
    &&& k1.alloc.start == k0.alloc.start
    &&& k1.alloc.end == k0.alloc.end
    &&& k1.alloc.next >= k0.alloc.next
    &&& k1.mem.same_outside(&k0.mem, k0.alloc.next as int, k1.alloc.next as int)
    &&& match create_process_fault(k0.ptable.procs@, k0.alloc, k0.syms, image) {
        Some(e) => r == Err::<Pid, ProcError>(e),
        None => r is Ok,
    }
    &&& match r {
        Ok(pid) => {
            &&& crate::spawn::address_space_made(
                &k1.mem,
                &k1.alloc,
                k0.alloc.next as int,
                k0.syms,
                crate::loadelf::image_loaded(image).segments,
            )
            &&& crate::spawn::is_first_unused(k0.ptable.procs@, pid.0 as int)
            &&& pid.0 > 0
            &&& k1.ptable.procs@ == k0.ptable.procs@.update(
                pid.0 as int,
                new_process(
                    k0.ptable.procs@[pid.0 as int],
                    pid.0 as int,
                    k0.alloc.next,
                    (k0.alloc.next + PAGE_SIZE) as u64,
                    k0.syms.user_entry,
                    crate::loadelf::image_loaded(image).entry_point,
                ),
            )
        },
        Err(e) => k1.ptable.procs@ == k0.ptable.procs@ && (e is Elf ==> {
            &&& k1.mem == k0.mem
            &&& k1.alloc == k0.alloc
        }),
    }
}

/// The program counter behind the `ecall` at `pc`.
pub open spec fn after_ecall(pc: u64) -> u64 {
    if pc + 4 > u64::MAX {
        (pc + 4 - 0x1_0000_0000_0000_0000) as u64
    } else {
        (pc + 4) as u64
    }
}

/// Computes the program counter behind the `ecall` at `pc`.
pub fn pc_after_ecall(pc: u64) -> (r: u64)
    ensures
        r == after_ecall(pc),
{
    if pc > u64::MAX - 4 {
        pc - (u64::MAX - 3)
    } else {
        pc + 4
    }
}

impl Kernel {
    /// What holds between any two steps of the kernel: the page area is the
    /// one of the symbols and lies in RAM, every slot of the process table is
    /// well formed, slot 0 holds the idle process, no two processes share a
    /// kernel stack, and the address space of every process is well formed.
    pub open spec fn wf(&self) -> bool {
        &&& self.alloc.wf()
        &&& self.alloc.within(&self.mem)
        &&& self.syms.wf()
        &&& self.alloc.start == self.syms.page_area_start
        &&& self.alloc.end == self.syms.page_area_end
        &&& self.ptable.wf()
        &&& forall|i: int|
            0 <= i < NPROC ==> slot_wf(#[trigger] self.ptable.procs@[i], i, self.alloc, self.syms)
        &&& self.ptable.procs@[0].state == ProcState::Runnable
        &&& stacks_apart(self.ptable.procs@)
        &&& spaces_wf(&self.mem, self.alloc, self.ptable.procs@)
    }

    /// The process that has the hart.
    pub open spec fn current(&self) -> Process {
        self.ptable.procs@[self.ptable.current as int]
    }

    /// The control registers belong to the current process, which is a user
    /// process that can run, and a return from the trap leads to user mode.
    pub open spec fn owns_hart(&self) -> bool {
        &&& self.ptable.current > 0
        &&& self.current().state == ProcState::Runnable
        &&& self.hart.csr.sscratch == self.current().kernel_stack.spec_top()
        &&& self.hart.csr.satp == self.current().satp_value
    }

    /// The hart runs the current process in user mode.
    pub open spec fn in_user(&self) -> bool {
        self.owns_hart() && self.hart.mode == Privilege::User
    }

    /// The hart has taken a trap from the current process, which ran in user
    /// mode, and nothing has happened since.
    pub open spec fn trapped(&self) -> bool {
        &&& self.owns_hart()
        &&& self.hart.mode == Privilege::Supervisor
        &&& sret_mode(self.hart.csr.sstatus) == Privilege::User
    }

    /// The kernel is inside the trap handler, on the kernel stack of the
    /// current process, above a trap frame and what the handler keeps there.
    pub open spec fn in_handler(&self) -> bool {
        &&& self.trapped()
        &&& self.hart.regs.sp == self.current().kernel_stack.spec_top() - TRAP_FRAME_SIZE
            - TRAP_LOCALS_SIZE
    }

    /// The address of the trap frame of the current process.
    pub open spec fn frame_addr(&self) -> int {
        self.current().kernel_stack.spec_top() - TRAP_FRAME_SIZE
    }

    /// Starts the kernel on the RAM `mem` with the symbols `syms`: the page
    /// area is all free, no process exists but the idle process, which is
    /// made in slot 0, and the hart is as after reset, with the trap vector
    /// set.
    pub fn boot(mem: PhysMemory, syms: KernelSymbols) -> (r: Result<Kernel, ProcError>)
        requires
            mem.wf(),
            syms.wf(),
            mem.base <= syms.page_area_start,
            syms.page_area_end <= mem.end(),
        ensures
            r is Ok <==> kernel_shape(syms.page_area_start as int, syms).next
                <= syms.page_area_end,
            match r {
                Ok(k) => {
                    &&& k.wf()
                    &&& k.syms == syms
                    &&& k.alloc.start == syms.page_area_start
                    &&& k.alloc.end == syms.page_area_end
                    &&& k.alloc.next == kernel_shape(syms.page_area_start as int, syms).next
                    &&& k.mem.same_outside(&mem, syms.page_area_start as int, k.alloc.next as int)
                    &&& k.ptable.current == 0
                    &&& k.ptable.procs@[0] == new_process(
                        crate::proc::unused_process(),
                        0,
                        syms.page_area_start,
                        (syms.page_area_start + PAGE_SIZE) as u64,
                        syms.idle_process,
                        0,
                    )
                    &&& forall|i: int|
                        1 <= i < NPROC ==> #[trigger] k.ptable.procs@[i]
                            == crate::proc::unused_process()
                    &&& forall|v: u64|
                        #[trigger] crate::paging::walk(
                            &k.mem,
                            syms.page_area_start + PAGE_SIZE,
                            v,
                        ) == crate::spawn::kernel_lookup(syms, v)
                    &&& k.hart == crate::hart::reset_hart(syms.kernel_entry)
                    &&& sret_mode(k.hart.csr.sstatus) == Privilege::User
                },
                Err(e) => e == ProcError::Alloc(crate::allocator::AllocError::OutOfMemory),
            },
    {
        let mut k = Kernel {
            mem,
            alloc: PageAllocator::new(syms.page_area_start, syms.page_area_end),
            ptable: ProcessTable::new(),
            hart: Hart::new(syms.kernel_entry),
            syms,
        };
        proof {
            assert(0u64 & 0x100u64 == 0) by (bit_vector);
        }
        let ghost unused = k.ptable.procs@;
        let ghost m0 = k.mem;
        let ghost al0 = k.alloc;
        match create_idle_process(&mut k.mem, &mut k.alloc, &mut k.ptable, &syms) {
            Err(e) => Err(e),
            Ok(_) => {
                proof {
                    assert(spaces_wf(&m0, al0, unused)) by {
                        reveal(spaces_wf);
                        assert forall|i: int| 0 <= i < unused.len() implies (#[trigger] unused[i]).state
                            == ProcState::Unused by {
                            assert(unused[i] == crate::proc::unused_process());
                        }
                    }
                    assert(unused[0] == crate::proc::unused_process());
                    assert(stacks_apart(unused)) by {
                        reveal(stacks_apart);
                        assert forall|i: int| 0 <= i < unused.len() implies (#[trigger] unused[i]).state
                            == ProcState::Unused by {
                            assert(unused[i] == crate::proc::unused_process());
                        }
                    }
                    lemma_stacks_apart_with_new_process(al0, unused, 0, k.ptable.procs@[0]);
                    lemma_spaces_with_new_process(
                        &m0,
                        &k.mem,
                        al0,
                        k.alloc,
                        unused,
                        0,
                        k.ptable.procs@[0],
                    );
                    assert forall|i: int| 0 <= i < NPROC implies slot_wf(
                        #[trigger] k.ptable.procs@[i],
                        i,
                        k.alloc,
                        k.syms,
                    ) by {
                        if i > 0 {
                            assert(unused[i] == crate::proc::unused_process());
                        }
                    }
                }
                Ok(k)
            },
        }
    }

    /// Makes a process from the ELF64 image `elf_data`, in the first unused
    /// slot, as `create_process` does.
    pub fn spawn(&mut self, elf_data: &[u8]) -> (r: Result<Pid, ProcError>)
        requires
            old(self).wf(),
        ensures
            final(self).wf(),
            spawn_done(*old(self), *final(self), elf_data@, r),
    {
        let syms = self.syms;
        let r = create_process(&mut self.mem, &mut self.alloc, &mut self.ptable, &syms, elf_data);
        proof {
            match r {
                Ok(pid) => {
                    crate::spawn::lemma_address_space_takes_frames(
                        &self.mem,
                        &self.alloc,
                        old(self).alloc.next as int,
                        syms,
                        crate::loadelf::image_loaded(elf_data@).segments,
                    );
                    assert forall|j: int|
                        0 <= j < NPROC && (#[trigger] old(self).ptable.procs@[j]).state
                            != ProcState::Unused implies old(self).alloc.allocated(
                        old(self).ptable.procs@[j].kernel_stack.base as int,
                    ) by {
                        assert(slot_wf(
                            old(self).ptable.procs@[j],
                            j,
                            old(self).alloc,
                            old(self).syms,
                        ));
                    }
                    lemma_spaces_with_new_process(
                        &old(self).mem,
                        &self.mem,
                        old(self).alloc,
                        self.alloc,
                        old(self).ptable.procs@,
                        pid.0 as int,
                        self.ptable.procs@[pid.0 as int],
                    );
                    lemma_stacks_apart_with_new_process(
                        old(self).alloc,
                        old(self).ptable.procs@,
                        pid.0 as int,
                        self.ptable.procs@[pid.0 as int],
                    );
                },
                Err(_) => {
                    lemma_spaces_keep_on_new_frames(
                        &old(self).mem,
                        &self.mem,
                        old(self).alloc,
                        self.alloc,
                        old(self).ptable.procs@,
                    );
                },
            }
            assert forall|i: int| 0 <= i < NPROC implies slot_wf(
                #[trigger] self.ptable.procs@[i],
                i,
                self.alloc,
                self.syms,
            ) by {
                assert(slot_wf(old(self).ptable.procs@[i], i, old(self).alloc, old(self).syms));
            }
        }
        r
    }

    /// The program counter of the trap that the handler keeps on the kernel
    /// stack of the current process.
    pub open spec fn kept_pc(&self) -> u64 {
        self.mem.word(self.frame_addr() - TRAP_LOCALS_SIZE + 8)
    }

    /// The kernel is in the trap gate, behind the trap handler: the stack
    /// pointer points to the trap frame of the current process.
    pub open spec fn at_gate(&self) -> bool {
        self.trapped() && self.hart.regs.sp == self.frame_addr()
    }

    /// The end of the trap handler: the program counter of the trap is taken
    /// off the kernel stack, and `sepc` is set to it, or behind the `ecall`
    /// there if `advance` is set.
    pub fn leave_handler(&mut self, advance: bool)
        requires
            old(self).wf(),
            old(self).in_handler(),
        ensures
            final(self).wf(),
            final(self).at_gate(),
            handler_left(*old(self), *final(self), advance),
            final(self).mem == old(self).mem,
            final(self).ptable == old(self).ptable,
    {
        proof {
            assert(slot_wf(self.current(), self.ptable.current as int, self.alloc, self.syms));
        }
        let user_pc = self.mem.read_u64(self.hart.regs.sp + 8);
        self.hart.regs.sp = self.hart.regs.sp + TRAP_LOCALS_SIZE;
        self.hart.csr.sepc = if advance {
            pc_after_ecall(user_pc)
        } else {
            user_pc
        };
    }

    /// The second half of the trap gate: the registers are loaded from the
    /// trap frame, and `sret` takes the hart back to user mode, to `sepc`.
    pub fn trap_return(&mut self)
        requires
            old(self).wf(),
            old(self).at_gate(),
        ensures
            final(self).wf(),
            final(self).in_user(),
            gate_left(*old(self), *final(self)),
            final(self).mem == old(self).mem,
            final(self).ptable == old(self).ptable,
    {
        proof {
            assert(slot_wf(self.current(), self.ptable.current as int, self.alloc, self.syms));
        }
        restore_trap_frame(&mut self.hart, &self.mem);
        self.hart.sret();
    }

    /// Whether the hart stands where a switch has taken it, and the trap
    /// handler of the process that got the hart, if it was inside one, has
    /// returned: in the idle loop, at the first entry into user mode, or in
    /// the trap gate.
    pub open spec fn switched_to(&self) -> bool {
        &&& self.wf()
        &&& self.hart.mode == Privilege::Supervisor
        &&& sret_mode(self.hart.csr.sstatus) == Privilege::User
        &&& self.hart.pc == self.syms.idle_process || {
            &&& self.owns_hart()
            &&& self.hart.pc == self.current().context.ra
            &&& self.hart.pc != self.syms.user_entry ==> self.at_gate()
        }
    }

    /// Goes on behind the trap handler where a switch has taken the hart:
    /// into user mode for the first time, out of the trap gate, or into the
    /// idle loop.
    pub fn go_on(&mut self) -> (out: TrapOutcome)
        requires
            old(self).switched_to(),
        ensures
            final(self).wf(),
            final(self).mem == old(self).mem,
            final(self).alloc == old(self).alloc,
            final(self).ptable == old(self).ptable,
            final(self).syms == old(self).syms,
            out == TrapOutcome::Idle <==> old(self).hart.pc == old(self).syms.idle_process,
            out == TrapOutcome::Idle || out == TrapOutcome::Resumed,
            out == TrapOutcome::Idle ==> final(self).hart == old(self).hart,
            out == TrapOutcome::Resumed ==> final(self).in_user(),
            out == TrapOutcome::Resumed ==> if old(self).hart.pc == old(self).syms.user_entry {
                final(self).hart == hart_returned(
                    Hart {
                        regs: crate::hart::Registers { a0: 0, ..old(self).hart.regs },
                        csr: CsrFile { sstatus: crate::csr::SSTATUS_SPIE, ..old(self).hart.csr },
                        ..old(self).hart
                    },
                )
            } else {
                gate_left(*old(self), *final(self))
            },
    {
        if self.hart.pc == self.syms.idle_process {
            TrapOutcome::Idle
        } else if self.hart.pc == self.syms.user_entry {
            user_entry(&mut self.hart);
            TrapOutcome::Resumed
        } else {
            self.trap_return();
            TrapOutcome::Resumed
        }
    }

    /// Goes on in the kernel where the registers that were just loaded lead:
    /// into user mode for the first time, back out of the trap handler and
    /// the trap gate, or into the idle loop.
    pub fn resume(&mut self) -> (out: TrapOutcome)
        requires
            old(self).wf(),
            old(self).hart.mode == Privilege::Supervisor,
            sret_mode(old(self).hart.csr.sstatus) == Privilege::User,
            old(self).hart.pc == old(self).syms.idle_process || {
                &&& old(self).owns_hart()
                &&& old(self).hart.pc == old(self).current().context.ra
                &&& old(self).hart.regs.sp == old(self).current().context.sp
            },
        ensures
            went_on(*old(self), *final(self), out),
            final(self).mem == old(self).mem,
            final(self).ptable == old(self).ptable,
            out == TrapOutcome::Resumed ==> final(self).in_user(),
    {
        proof {
            if self.hart.pc != self.syms.idle_process {
                assert(slot_wf(self.current(), self.ptable.current as int, self.alloc, self.syms));
            }
        }
        if self.hart.pc == self.syms.idle_process {
            TrapOutcome::Idle
        } else if self.hart.pc == self.syms.user_entry {
            user_entry(&mut self.hart);
            TrapOutcome::Resumed
        } else {
            self.leave_handler(true);
            let ghost kg = *self;
            self.trap_return();
            proof {
                lemma_back_in_user(*old(self), kg, *self, true);
            }
            TrapOutcome::Resumed
        }
    }

    /// Gives the hart to the first process and lets it run: the scheduler
    /// picks it, its registers are loaded, and it enters user mode.
    pub fn start(&mut self) -> (out: TrapOutcome)
        requires
            old(self).wf(),
            old(self).hart.mode == Privilege::Supervisor,
            sret_mode(old(self).hart.csr.sstatus) == Privilege::User,
        ensures
            final(self).wf(),
            final(self).mem == old(self).mem,
            final(self).alloc == old(self).alloc,
            final(self).ptable.procs@ == old(self).ptable.procs@,
            final(self).syms == old(self).syms,
            crate::proc::none_schedulable(old(self).ptable.procs@) <==> out == TrapOutcome::Fatal(
                KernelPanic::NoProcess,
            ),
            !crate::proc::none_schedulable(old(self).ptable.procs@) ==> {
                &&& out == TrapOutcome::Resumed
                &&& final(self).in_user()
                &&& exists|k: int|
                    crate::proc::first_in_ring(
                        old(self).ptable.procs@,
                        old(self).ptable.current as int,
                        k,
                    ) && final(self).ptable.current == crate::proc::ring(
                        old(self).ptable.current as int,
                        k,
                    )
                &&& if final(self).current().context.ra == final(self).syms.user_entry {
                    &&& final(self).hart.pc == final(self).current().entry_point
                    &&& final(self).hart.regs == (crate::hart::Registers {
                        a0: 0,
                        ..crate::switch::hart_with_context(
                            old(self).hart,
                            final(self).current().context,
                        ).regs
                    })
                } else {
                    &&& final(self).hart.pc == after_ecall(final(self).kept_pc())
                    &&& final(self).hart.regs == regs_of_frame(
                        frame_in(&final(self).mem, final(self).frame_addr()),
                    )
                }
            },
    {
        proof {
            assert forall|i: int| 0 <= i < NPROC implies (#[trigger] self.ptable.procs@[i]).kernel_stack.spec_top()
                <= u64::MAX by {
                assert(slot_wf(self.ptable.procs@[i], i, self.alloc, self.syms));
            }
            assert(slot_wf(self.ptable.procs@[0], 0, self.alloc, self.syms));
        }
        match start_process(&mut self.hart, &mut self.ptable) {
            None => TrapOutcome::Fatal(KernelPanic::NoProcess),
            Some(next) => {
                proof {
                    assert(slot_wf(self.ptable.procs@[next as int], next as int, self.alloc, self.syms));
                }
                self.resume()
            },
        }
    }
}

} // verus!
