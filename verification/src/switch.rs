//! Giving the hart to another process: the switch of the saved registers, the
//! control registers that go with a process, and the first entry into user
//! mode.

use crate::csr::{CsrFile, SSTATUS_SPIE};
use crate::hart::{hart_returned, Hart, Privilege, Registers};
use crate::proc::{
    context_of, first_in_ring, none_schedulable, ring, schedulable, schedule, Context, ProcState,
    Process, ProcessTable, NPROC,
};
use crate::symbols::KernelSymbols;
use vstd::prelude::*;

verus! {

/// The hart `h` after the registers of `c` were loaded and the hart returned
/// to the address in `ra`.
pub open spec fn hart_with_context(h: Hart, c: Context) -> Hart {
    Hart {
        regs: Registers {
            ra: c.ra,
            sp: c.sp,
            s0: c.s0,
            s1: c.s1,
            s2: c.s2,
            s3: c.s3,
            s4: c.s4,
            s5: c.s5,
            s6: c.s6,
            s7: c.s7,
            s8: c.s8,
            s9: c.s9,
            s10: c.s10,
            s11: c.s11,
            ..h.regs
        },
        pc: c.ra,
        ..h
    }
}

/// Loading a context and taking it off the hart again gives the context.
pub proof fn lemma_context_round_trip(h: Hart, c: Context)
    ensures
        context_of(hart_with_context(h, c)) == c,
        hart_with_context(h, context_of(h)) == (Hart { pc: h.regs.ra, ..h }),
{
}

/// Takes the registers that a switch saves off the hart.
pub fn save_context(hart: &Hart) -> (c: Context)
    ensures
        c == context_of(*hart),
{
    Context {
        ra: hart.regs.ra,
        sp: hart.regs.sp,
        s0: hart.regs.s0,
        s1: hart.regs.s1,
        s2: hart.regs.s2,
        s3: hart.regs.s3,
        s4: hart.regs.s4,
        s5: hart.regs.s5,
        s6: hart.regs.s6,
        s7: hart.regs.s7,
        s8: hart.regs.s8,
        s9: hart.regs.s9,
        s10: hart.regs.s10,
        s11: hart.regs.s11,
    }
}

/// Loads the registers of `ctx` and returns to the address in its `ra`: the
/// second half of a switch, which is all that starting the first process takes.
pub fn start_proc(hart: &mut Hart, ctx: &Context)
    ensures
        *final(hart) == hart_with_context(*old(hart), *ctx),
{
    hart.regs.ra = ctx.ra;
    hart.regs.sp = ctx.sp;
    hart.regs.s0 = ctx.s0;
    hart.regs.s1 = ctx.s1;
    hart.regs.s2 = ctx.s2;
    hart.regs.s3 = ctx.s3;
    hart.regs.s4 = ctx.s4;
    hart.regs.s5 = ctx.s5;
    hart.regs.s6 = ctx.s6;
    hart.regs.s7 = ctx.s7;
    hart.regs.s8 = ctx.s8;
    hart.regs.s9 = ctx.s9;
    hart.regs.s10 = ctx.s10;
    hart.regs.s11 = ctx.s11;
    hart.pc = ctx.ra;
}

/// The slots after the hart's registers were saved into the context of slot
/// `prev`.
pub open spec fn procs_saved(procs: Seq<Process>, prev: int, h: Hart) -> Seq<Process> {
    procs.update(prev, Process { context: context_of(h), ..procs[prev] })
}

/// Saves ra, sp and s0 to s11 into the context of slot `prev`, then loads them
/// from the context of slot `next` and returns to the loaded `ra`.
///
/// The save comes first: where `prev` and `next` are the same slot, the hart
/// goes on with the registers it had.
pub fn swtch(hart: &mut Hart, table: &mut ProcessTable, prev: usize, next: usize)
    requires
        old(table).wf(),
        prev < NPROC,
        next < NPROC,
    ensures
        final(table).wf(),
        final(table).current == old(table).current,
        final(table).procs@ == procs_saved(old(table).procs@, prev as int, *old(hart)),
        *final(hart) == hart_with_context(*old(hart), final(table).procs@[next as int].context),
{
    let mut p = table.procs[prev];
    p.context = save_context(hart);
    table.procs.set(prev, p);
    let ctx = table.procs[next].context;
    start_proc(hart, &ctx);
}

/// The control registers after they were set up for the process `p`: `satp`
/// selects its address space, `sscratch` holds the top of its kernel stack,
/// and `sepc` its entry point.
pub open spec fn csr_for_process(f: CsrFile, p: Process) -> CsrFile {
    CsrFile {
        satp: p.satp_value,
        sscratch: p.kernel_stack.spec_top() as u64,
        sepc: p.entry_point,
        ..f
    }
}

/// Sets the control registers up for the process `next`.
pub fn enter_address_space(hart: &mut Hart, next: &Process)
    requires
        next.kernel_stack.base + next.kernel_stack.size <= u64::MAX,
    ensures
        *final(hart) == (Hart { csr: csr_for_process(old(hart).csr, *next), ..*old(hart) }),
{
    hart.csr.satp = next.satp_value;
    hart.csr.sscratch = next.kernel_stack.top();
    hart.csr.sepc = next.entry_point;
}

/// The hart `h` at the call of the register switch inside `switch_context`,
/// on its way to the process `p`: the control registers are set up for `p`
/// and `ra` holds the address behind the call.
pub open spec fn hart_at_switch(h: Hart, p: Process, syms: KernelSymbols) -> Hart {
    Hart {
        regs: Registers { ra: syms.switch_return, ..h.regs },
        csr: csr_for_process(h.csr, p),
        ..h
    }
}

/// Gives the hart to the process in slot `next`.
///
/// In this order: `satp` is set to select the address space of `next`,
/// `sscratch` to the top of its kernel stack and `sepc` to its entry point;
/// then the registers are switched, which saves those of the hart into slot
/// `prev`, with the address behind the switch as `ra`, and loads those of
/// `next`. The hart goes on at the `ra` of `next`.
pub fn switch_context(
    hart: &mut Hart,
    table: &mut ProcessTable,
    syms: &KernelSymbols,
    prev: usize,
    next: usize,
)
    requires
        old(table).wf(),
        prev < NPROC,
        next < NPROC,
        old(table).procs@[next as int].kernel_stack.spec_top() <= u64::MAX,
    ensures
        final(table).wf(),
        final(table).current == old(table).current,
        final(table).procs@ == procs_saved(
            old(table).procs@,
            prev as int,
            hart_at_switch(*old(hart), old(table).procs@[next as int], *syms),
        ),
        *final(hart) == hart_with_context(
            hart_at_switch(*old(hart), old(table).procs@[next as int], *syms),
            final(table).procs@[next as int].context,
        ),
{
    let next_proc = table.procs[next];
    enter_address_space(hart, &next_proc);
    hart.regs.ra = syms.switch_return;
    swtch(hart, table, prev, next);
}

/// The first entry of a process into user mode: `sstatus` is set to SPIE
/// alone, so that interrupts are on after the return, `a0` is cleared, so that
/// the process finds zero there, and `sret` takes the hart to `sepc` in user
/// mode.
pub fn user_entry(hart: &mut Hart)
    ensures
        *final(hart) == hart_returned(
            Hart {
                regs: Registers { a0: 0, ..old(hart).regs },
                csr: CsrFile { sstatus: SSTATUS_SPIE, ..old(hart).csr },
                ..*old(hart)
            },
        ),
        final(hart).mode == Privilege::User,
        final(hart).pc == old(hart).csr.sepc,
        final(hart).regs == (Registers { a0: 0, ..old(hart).regs }),
{
    proof {
        crate::hart::lemma_trap_from_user_returns_to_user(0);
    }
    hart.csr.sstatus = SSTATUS_SPIE;
    hart.regs.a0 = 0;
    hart.sret();
}

/// Whether the process in slot `cur` is the only one that the scheduler may
/// pick.
pub open spec fn runs_alone(procs: Seq<Process>, cur: int) -> bool {
    &&& schedulable(procs[cur])
    &&& forall|i: int| 0 <= i < procs.len() && i != cur ==> !schedulable(#[trigger] procs[i])
}

/// A process that runs alone is its own successor in the ring.
pub proof fn lemma_alone_is_next(procs: Seq<Process>, cur: int, k: int)
    requires
        procs.len() == NPROC,
        0 <= cur < NPROC,
        runs_alone(procs, cur),
        first_in_ring(procs, cur, k),
    ensures
        ring(cur, k) == cur,
{
    assert(schedulable(procs[ring(cur, k)]));
}

/// Lets the current process give up the hart: the scheduler picks the next
/// process and the hart is switched to it. Returns the slot of the process
/// that has the hart now.
///
/// Where no other process can run, the current process is picked and goes on
/// with the registers it had: the context that the switch saved is the one
/// it loads. Its `ra` is the address behind the switch, which the call of the
/// switch puts there whatever `ra` held before. Where none at all can run,
/// the idle process in slot 0 gets the hart while the current slot stays.
pub fn yield_process(hart: &mut Hart, table: &mut ProcessTable, syms: &KernelSymbols) -> (next:
    usize)
    requires
        old(table).wf(),
        forall|i: int|
            0 <= i < NPROC ==> (#[trigger] old(table).procs@[i]).kernel_stack.spec_top()
                <= u64::MAX,
    ensures
        final(table).wf(),
        next < NPROC,
        none_schedulable(old(table).procs@) ==> next == 0 && final(table).current == old(
            table,
        ).current,
        !none_schedulable(old(table).procs@) ==> {
            &&& schedulable(old(table).procs@[next as int])
            &&& final(table).current == next
            &&& exists|k: int|
                first_in_ring(old(table).procs@, old(table).current as int, k) && next == ring(
                    old(table).current as int,
                    k,
                )
        },
        final(table).procs@ == procs_saved(
            old(table).procs@,
            old(table).current as int,
            hart_at_switch(*old(hart), old(table).procs@[next as int], *syms),
        ),
        *final(hart) == hart_with_context(
            hart_at_switch(*old(hart), old(table).procs@[next as int], *syms),
            final(table).procs@[next as int].context,
        ),
        runs_alone(old(table).procs@, old(table).current as int) ==> {
            &&& next == old(table).current
            &&& final(hart).regs == (Registers { ra: syms.switch_return, ..old(hart).regs })
            &&& final(hart).pc == syms.switch_return
            &&& final(table).procs@[next as int].context == context_of(*final(hart))
        },
{
    let prev = table.current;
    let next = schedule(table);
    proof {
        if runs_alone(old(table).procs@, prev as int) {
            assert(!none_schedulable(old(table).procs@)) by {
                assert(schedulable(old(table).procs@[prev as int]));
            }
            let k = choose|k: int|
                first_in_ring(old(table).procs@, prev as int, k) && next == ring(prev as int, k);
            lemma_alone_is_next(old(table).procs@, prev as int, k);
        }
    }
    switch_context(hart, table, syms, prev, next);
    next
}

/// The slots after the process in slot `cur` has ended.
pub open spec fn procs_exited(procs: Seq<Process>, cur: int) -> Seq<Process> {
    procs.update(cur, Process { state: ProcState::Exited, ..procs[cur] })
}

/// Ends the current process: its slot is marked as exited, the scheduler
/// picks the next process, and the hart is switched to it. Returns the slot
/// of the process that has the hart now, which is never the one that ended
/// unless that is the idle slot 0 and nothing can run.
pub fn end_process(hart: &mut Hart, table: &mut ProcessTable, syms: &KernelSymbols) -> (next: usize)
    requires
        old(table).wf(),
        forall|i: int|
            0 <= i < NPROC ==> (#[trigger] old(table).procs@[i]).kernel_stack.spec_top()
                <= u64::MAX,
    ensures
        final(table).wf(),
        next < NPROC,
        final(table).procs@[old(table).current as int].state == ProcState::Exited,
        ({
            let exited = procs_exited(old(table).procs@, old(table).current as int);
            &&& none_schedulable(exited) ==> next == 0 && final(table).current == old(
                table,
            ).current
            &&& !none_schedulable(exited) ==> {
                &&& schedulable(exited[next as int])
                &&& next != old(table).current
                &&& final(table).current == next
                &&& exists|k: int|
                    first_in_ring(exited, old(table).current as int, k) && next == ring(
                        old(table).current as int,
                        k,
                    )
            }
            &&& final(table).procs@ == procs_saved(
                exited,
                old(table).current as int,
                hart_at_switch(*old(hart), exited[next as int], *syms),
            )
            &&& *final(hart) == hart_with_context(
                hart_at_switch(*old(hart), exited[next as int], *syms),
                final(table).procs@[next as int].context,
            )
        }),
{
    let prev = table.current;
    let mut p = table.procs[prev];
    p.state = ProcState::Exited;
    table.procs.set(prev, p);
    let ghost exited = table.procs@;
    assert(exited == procs_exited(old(table).procs@, prev as int));
    assert forall|i: int| 0 <= i < NPROC implies (#[trigger] table.procs@[i]).kernel_stack.spec_top()
        <= u64::MAX by {
        assert(old(table).procs@[i].kernel_stack.spec_top() <= u64::MAX);
    }
    let next = schedule(table);
    switch_context(hart, table, syms, prev, next);
    next
}

/// Gives the hart to the first process, from the kernel's start: the
/// scheduler picks it, the control registers are set up for it, and its
/// registers are loaded; nothing is saved. Returns the slot of the process,
/// or `None`, with nothing changed but the scheduler's choice, where the
/// choice fell on a process with identifier 0: then there is no process to
/// start.
pub fn start_process(hart: &mut Hart, table: &mut ProcessTable) -> (r: Option<usize>)
    requires
        old(table).wf(),
        forall|i: int|
            0 <= i < NPROC ==> (#[trigger] old(table).procs@[i]).kernel_stack.spec_top()
                <= u64::MAX,
    ensures
        final(table).wf(),
        final(table).procs@ == old(table).procs@,
        none_schedulable(old(table).procs@) ==> final(table).current == old(table).current && (
        r is Some ==> r == Some(0usize)),
        !none_schedulable(old(table).procs@) ==> {
            &&& r is Some
            &&& schedulable(old(table).procs@[r.unwrap() as int])
            &&& final(table).current == r.unwrap()
            &&& exists|k: int|
                first_in_ring(old(table).procs@, old(table).current as int, k) && r.unwrap()
                    == ring(old(table).current as int, k)
        },
        r is None <==> none_schedulable(old(table).procs@) && old(table).procs@[0].pid.0 == 0,
        match r {
            Some(next) => {
                let p = old(table).procs@[next as int];
                &&& next < NPROC
                &&& *final(hart) == hart_with_context(
                    Hart { csr: csr_for_process(old(hart).csr, p), ..*old(hart) },
                    p.context,
                )
            },
            None => *final(hart) == *old(hart),
        },
{
    let next = schedule(table);
    let p = table.procs[next];
    if p.pid.as_usize() == 0 {
        return None;
    }
    enter_address_space(hart, &p);
    start_proc(hart, &p.context);
    Some(next)
}

} // verus!
