//! Processes: the process table, the round-robin scheduler, creation of a
//! process from a loaded image, and the switch from one process to the next.

use crate::allocator::AllocError;
use crate::hart::Hart;
use crate::loadelf::ElfError;
use vstd::prelude::*;

verus! {

/// Number of slots of the process table.
pub const NPROC: usize = 128;

/// Size of the kernel stack of a process, in bytes.
pub const KERNEL_STACK_SIZE: u64 = 4096;

/// Why a process could not be made.
#[derive(Debug, Clone, Copy, PartialEq, Eq, Structural)]
pub enum ProcError {
    /// Every slot of the process table is in use.
    NoFreeSlot,
    /// The page allocator refused a request.
    Alloc(AllocError),
    /// A segment does not fit the frames that its size in memory asks for, or
    /// runs past the end of the address space.
    BadSegment,
    /// The image could not be loaded.
    Elf(ElfError),
}

/// A process identifier: the index of the slot that holds the process.
#[derive(Debug, Clone, Copy, PartialEq, Eq, Structural)]
pub struct Pid(pub usize);

impl Pid {
    /// The identifier as a number.
    pub fn as_usize(&self) -> (n: usize)
        ensures
            n == self.0,
    {
        self.0
    }
}

/// State of a slot of the process table.
#[derive(Debug, Clone, Copy, PartialEq, Eq, Structural)]
pub enum ProcState {
    /// The slot holds no process.
    Unused,
    /// The process can be given the hart.
    Runnable,
    /// The process has ended; it is never given the hart again.
    Exited,
}

/// The kernel stack of a process: `size` bytes from `base` on. The stack
/// grows down from its top.
#[derive(Debug, Clone, Copy, PartialEq, Eq, Structural)]
pub struct KernelStack {
    pub base: u64,
    pub size: u64,
}

impl KernelStack {
    /// The address just above the stack.
    pub open spec fn spec_top(&self) -> int {
        self.base + self.size
    }

    /// The address just above the stack, where the stack pointer starts.
    pub fn top(&self) -> (t: u64)
        requires
            self.base + self.size <= u64::MAX,
        ensures
            t == self.spec_top(),
    {
        self.base + self.size
    }

    /// The stack of a slot that holds no process.
    pub fn null() -> (s: KernelStack)
        ensures
            s == (KernelStack { base: 0, size: 0 }),
    {
        KernelStack { base: 0, size: 0 }
    }
}

/// The registers that a switch saves and loads: the return address, the
/// stack pointer and the callee-saved registers.
#[derive(Debug, Clone, Copy, PartialEq, Eq, Structural)]
pub struct Context {
    pub ra: u64,
    pub sp: u64,
    pub s0: u64,
    pub s1: u64,
    pub s2: u64,
    pub s3: u64,
    pub s4: u64,
    pub s5: u64,
    pub s6: u64,
    pub s7: u64,
    pub s8: u64,
    pub s9: u64,
    pub s10: u64,
    pub s11: u64,
}

/// The context with every register zero.
pub open spec fn zero_context() -> Context {
    Context {
        ra: 0,
        sp: 0,
        s0: 0,
        s1: 0,
        s2: 0,
        s3: 0,
        s4: 0,
        s5: 0,
        s6: 0,
        s7: 0,
        s8: 0,
        s9: 0,
        s10: 0,
        s11: 0,
    }
}

impl Context {
    /// The context with every register zero.
    pub fn zero() -> (c: Context)
        ensures
            c == zero_context(),
    {
        Context {
            ra: 0,
            sp: 0,
            s0: 0,
            s1: 0,
            s2: 0,
            s3: 0,
            s4: 0,
            s5: 0,
            s6: 0,
            s7: 0,
            s8: 0,
            s9: 0,
            s10: 0,
            s11: 0,
        }
    }
}

/// The registers of `h` that a switch saves.
pub open spec fn context_of(h: Hart) -> Context {
    Context {
        ra: h.regs.ra,
        sp: h.regs.sp,
        s0: h.regs.s0,
        s1: h.regs.s1,
        s2: h.regs.s2,
        s3: h.regs.s3,
        s4: h.regs.s4,
        s5: h.regs.s5,
        s6: h.regs.s6,
        s7: h.regs.s7,
        s8: h.regs.s8,
        s9: h.regs.s9,
        s10: h.regs.s10,
        s11: h.regs.s11,
    }
}

/// One slot of the process table.
#[derive(Debug, Clone, Copy, PartialEq, Eq, Structural)]
pub struct Process {
    pub pid: Pid,
    pub state: ProcState,
    pub kernel_stack: KernelStack,
    pub context: Context,
    /// What `satp` holds while the process runs: the Sv39 mode and the page
    /// number of the top-level table.
    pub satp_value: u64,
    pub entry_point: u64,
}

/// The slot that holds no process.
pub open spec fn unused_process() -> Process {
    Process {
        pid: Pid(usize::MAX),
        state: ProcState::Unused,
        kernel_stack: KernelStack { base: 0, size: 0 },
        context: zero_context(),
        satp_value: 0,
        entry_point: 0,
    }
}

impl Process {
    /// The slot that holds no process.
    pub fn unused() -> (p: Process)
        ensures
            p == unused_process(),
    {
        Process {
            pid: Pid(usize::MAX),
            state: ProcState::Unused,
            kernel_stack: KernelStack::null(),
            context: Context::zero(),
            satp_value: 0,
            entry_point: 0,
        }
    }
}

/// The process table: `NPROC` slots, and the index of the slot whose process
/// has the hart.
#[derive(Debug)]
pub struct ProcessTable {
    pub procs: Vec<Process>,
    pub current: usize,
}

/// Whether the scheduler may pick `p`: it is runnable and not the idle process.
pub open spec fn schedulable(p: Process) -> bool {
    p.state == ProcState::Runnable && p.pid.0 > 0
}

/// The slot that stands `k` slots after `cur` in the ring of slots.
pub open spec fn ring(cur: int, k: int) -> int {
    (cur + k) % (NPROC as int)
}

/// Whether no slot of `procs` can be picked.
pub open spec fn none_schedulable(procs: Seq<Process>) -> bool {
    forall|i: int| 0 <= i < procs.len() ==> !schedulable(#[trigger] procs[i])
}

/// Whether the slot `k` steps after `cur` is the first after `cur`, in ring
/// order, that can be picked. The ring ends with `cur` itself, at `k == NPROC`.
pub open spec fn first_in_ring(procs: Seq<Process>, cur: int, k: int) -> bool {
    &&& 1 <= k <= NPROC
    &&& schedulable(procs[ring(cur, k)])
    &&& forall|m: int| 1 <= m < k ==> !schedulable(procs[#[trigger] ring(cur, m)])
}

/// Every slot is met on the way once round the ring.
pub proof fn lemma_ring_covers(cur: int, i: int)
    requires
        0 <= cur < NPROC,
        0 <= i < NPROC,
    ensures
        exists|k: int| 1 <= k <= NPROC && #[trigger] ring(cur, k) == i,
{
    let k = if i > cur {
        i - cur
    } else {
        i - cur + NPROC
    };
    assert(ring(cur, k) == i);
}

impl ProcessTable {
    /// The table has its `NPROC` slots and a current slot among them.
    pub open spec fn wf(&self) -> bool {
        &&& self.procs@.len() == NPROC
        &&& self.current < NPROC
    }

    /// A table whose slots are all unused; slot 0 is current.
    pub fn new() -> (t: ProcessTable)
        ensures
            t.wf(),
            t.current == 0,
            forall|i: int| 0 <= i < NPROC ==> #[trigger] t.procs@[i] == unused_process(),
    {
        let mut procs: Vec<Process> = Vec::new();
        let mut i: usize = 0;
        while i < NPROC
            invariant
                i <= NPROC,
                procs@.len() == i,
                forall|j: int| 0 <= j < i ==> #[trigger] procs@[j] == unused_process(),
            decreases NPROC - i,
        {
            procs.push(Process::unused());
            i += 1;
        }
        ProcessTable { procs, current: 0 }
    }

    /// The slots, to read.
    pub fn procs_ref(&self) -> (p: &Vec<Process>)
        ensures
            p@ == self.procs@,
    {
        &self.procs
    }

    /// The slot of the process that has the hart.
    pub fn current_proc_ref(&self) -> (p: &Process)
        requires
            self.wf(),
        ensures
            *p == self.procs@[self.current as int],
    {
        &self.procs[self.current]
    }

    /// The index of the first unused slot, if there is one.
    pub fn find_unused(&self) -> (r: Option<usize>)
        requires
            self.wf(),
        ensures
            match r {
                Some(i) => {
                    &&& i < NPROC
                    &&& self.procs@[i as int].state == ProcState::Unused
                    &&& forall|j: int|
                        0 <= j < i ==> (#[trigger] self.procs@[j]).state != ProcState::Unused
                },
                None => forall|j: int|
                    0 <= j < NPROC ==> (#[trigger] self.procs@[j]).state != ProcState::Unused,
            },
    {
        let mut i: usize = 0;
        while i < NPROC
            invariant
                i <= NPROC,
                self.wf(),
                forall|j: int| 0 <= j < i ==> (#[trigger] self.procs@[j]).state != ProcState::Unused,
            decreases NPROC - i,
        {
            if self.procs[i].state == ProcState::Unused {
                return Some(i);
            }
            i += 1;
        }
        None
    }
}

/// Picks the process that gets the hart next.
///
/// The slots are tried in ring order from the one after the current slot,
/// the current slot last. The first that is runnable and not the idle process
/// is picked and becomes current. If there is none, the idle slot 0 is
/// returned and the current slot stays. No slot is changed.
pub fn schedule(table: &mut ProcessTable) -> (next: usize)
    requires
        old(table).wf(),
    ensures
        final(table).wf(),
        final(table).procs@ == old(table).procs@,
        next < NPROC,
        none_schedulable(old(table).procs@) ==> next == 0 && final(table).current == old(
            table,
        ).current,
        !none_schedulable(old(table).procs@) ==> {
            &&& schedulable(old(table).procs@[next as int])
            &&& final(table).current == next
            &&& exists|k: int|
                first_in_ring(old(table).procs@, old(table).current as int, k) && next == ring(
                    old(table).current as int,
                    k,
                )
        },
{
    let cur_idx = table.current;
    let mut i: usize = 0;
    while i < NPROC
        invariant
            i <= NPROC,
            table.wf(),
            table.procs@ == old(table).procs@,
            table.current == old(table).current,
            cur_idx == table.current,
            forall|m: int| 1 <= m < i + 1 ==> !schedulable(table.procs@[#[trigger] ring(cur_idx as int, m)]),
        decreases NPROC - i,
    {
        let next_idx = (cur_idx + i + 1) % NPROC;
        let p = &table.procs[next_idx];
        if p.state == ProcState::Runnable && p.pid.as_usize() > 0 {
            proof {
                assert(next_idx == ring(cur_idx as int, i + 1));
                assert(first_in_ring(table.procs@, cur_idx as int, i + 1));
            }
            table.current = next_idx;
            return next_idx;
        }
        i += 1;
    }
    proof {
        assert forall|j: int| 0 <= j < table.procs@.len() implies !schedulable(
            #[trigger] table.procs@[j],
        ) by {
            lemma_ring_covers(cur_idx as int, j);
        }
    }
    0
}

/// While a process other than the idle process can run, the scheduler picks
/// one such process and not the idle slot.
pub proof fn lemma_schedule_avoids_idle(procs: Seq<Process>, cur: int, k: int)
    requires
        procs.len() == NPROC,
        0 <= cur < NPROC,
        first_in_ring(procs, cur, k),
    ensures
        procs[ring(cur, k)].pid.0 != 0,
        procs[ring(cur, k)].state == ProcState::Runnable,
{
}

/// The step by which the scheduler advances is the smallest that reaches a
/// process that can be picked: no two steps are both first.
pub proof fn lemma_first_in_ring_unique(procs: Seq<Process>, cur: int, k1: int, k2: int)
    requires
        first_in_ring(procs, cur, k1),
        first_in_ring(procs, cur, k2),
    ensures
        k1 == k2,
{
    if k1 < k2 {
        assert(!schedulable(procs[ring(cur, k1)]));
    } else if k2 < k1 {
        assert(!schedulable(procs[ring(cur, k2)]));
    }
}

/// The slots that a listing of `procs` shows, in the order of the table: all
/// of them if `verbose`, and those in use if not.
pub open spec fn listed(procs: Seq<Process>, verbose: bool) -> Seq<Process>
    decreases procs.len(),
{
    if procs.len() == 0 {
        Seq::empty()
    } else if verbose || procs.last().state != ProcState::Unused {
        listed(procs.drop_last(), verbose).push(procs.last())
    } else {
        listed(procs.drop_last(), verbose)
    }
}

/// Lists the processes: the slots in use, in the order of the table, and the
/// unused ones among them if `verbose`.
pub fn dump_process_list(table: &ProcessTable, verbose: bool) -> (list: Vec<Process>)
    ensures
        list@ == listed(table.procs@, verbose),
{
    let mut list: Vec<Process> = Vec::new();
    let n = table.procs.len();
    let mut i: usize = 0;
    while i < n
        invariant
            i <= n,
            n == table.procs@.len(),
            list@ == listed(table.procs@.subrange(0, i as int), verbose),
        decreases n - i,
    {
        let p = table.procs[i];
        proof {
            let next = table.procs@.subrange(0, i + 1);
            assert(next.drop_last() =~= table.procs@.subrange(0, i as int));
            assert(next.last() == table.procs@[i as int]);
        }
        if p.state != ProcState::Unused || verbose {
            list.push(p);
        }
        i += 1;
    }
    proof {
        assert(table.procs@.subrange(0, n as int) =~= table.procs@);
    }
    list
}

} // verus!
