use rvkernel::hart::Hart;
use rvkernel::proc::{
    dump_process_list, schedule, Context, KernelStack, Pid, ProcState, Process, ProcessTable,
    NPROC,
};
use rvkernel::switch::{
    end_process, save_context, start_proc, start_process, swtch, switch_context, user_entry,
    yield_process,
};
use rvkernel::symbols::KernelSymbols;

fn runnable(table: &mut ProcessTable, i: usize) {
    let mut p = Process::unused();
    p.pid = Pid(i);
    p.state = ProcState::Runnable;
    p.kernel_stack = KernelStack { base: 0x8000_0000 + 0x1000 * i as u64, size: 0x1000 };
    p.context.ra = 0x100 + i as u64;
    p.context.sp = p.kernel_stack.top();
    p.satp_value = 0x8000_0000_0000_0000 | i as u64;
    p.entry_point = 0x1_0000 * i as u64;
    table.procs[i] = p;
}

fn symbols() -> KernelSymbols {
    KernelSymbols {
        kernel_base: 0x8020_0000,
        page_area_start: 0x8021_0000,
        page_area_end: 0x8040_0000,
        kernel_entry: 0x8020_0100,
        user_entry: 0x8020_0200,
        idle_process: 0x8020_0300,
        switch_return: 0x8020_0400,
    }
}

#[test]
fn new_table_is_unused() {
    let table = ProcessTable::new();
    assert_eq!(table.procs.len(), NPROC);
    assert_eq!(table.current, 0);
    assert!(table.procs.iter().all(|p| *p == Process::unused()));
    assert_eq!(table.find_unused(), Some(0));
    assert_eq!(Process::unused().pid, Pid(usize::MAX));
    assert_eq!(Process::unused().context, Context::zero());
    assert_eq!(KernelStack::null().top(), 0);
    assert_eq!(Pid(7).as_usize(), 7);
    assert_eq!(table.procs_ref().len(), NPROC);
    assert_eq!(*table.current_proc_ref(), Process::unused());
}

#[test]
fn scheduler_advances_to_the_next_runnable() {
    let mut table = ProcessTable::new();
    for i in [0, 2, 5, 9] {
        runnable(&mut table, i);
    }
    table.current = 2;
    assert_eq!(schedule(&mut table), 5);
    assert_eq!(table.current, 5);
    assert_eq!(schedule(&mut table), 9);
    assert_eq!(schedule(&mut table), 2);
    assert_eq!(schedule(&mut table), 5);
    assert_eq!(table.current, 5);
}

#[test]
fn scheduler_wraps_around_the_ring() {
    let mut table = ProcessTable::new();
    runnable(&mut table, 0);
    runnable(&mut table, 1);
    runnable(&mut table, NPROC - 1);
    table.current = NPROC - 1;
    assert_eq!(schedule(&mut table), 1);
    assert_eq!(schedule(&mut table), NPROC - 1);
    assert_eq!(table.current, NPROC - 1);
}

#[test]
fn scheduler_never_picks_idle_while_another_can_run() {
    let mut table = ProcessTable::new();
    runnable(&mut table, 0);
    runnable(&mut table, 3);
    for start in 0..NPROC {
        table.current = start;
        assert_eq!(schedule(&mut table), 3);
    }
}

#[test]
fn scheduler_picks_the_current_process_last() {
    let mut table = ProcessTable::new();
    runnable(&mut table, 0);
    runnable(&mut table, 4);
    table.current = 4;
    assert_eq!(schedule(&mut table), 4);
    assert_eq!(table.current, 4);
}

#[test]
fn scheduler_falls_back_to_idle() {
    let mut table = ProcessTable::new();
    runnable(&mut table, 0);
    runnable(&mut table, 4);
    table.procs[4].state = ProcState::Exited;
    table.current = 4;
    let before = table.procs.clone();
    assert_eq!(schedule(&mut table), 0);
    // the current slot stays, and no slot changes
    assert_eq!(table.current, 4);
    assert_eq!(table.procs, before);
}

#[test]
fn scheduler_skips_exited_and_unused_slots() {
    let mut table = ProcessTable::new();
    for i in [0, 1, 2, 3] {
        runnable(&mut table, i);
    }
    table.procs[2].state = ProcState::Exited;
    table.current = 1;
    assert_eq!(schedule(&mut table), 3);
    assert_eq!(schedule(&mut table), 1);
}

#[test]
fn find_unused_is_the_first() {
    let mut table = ProcessTable::new();
    runnable(&mut table, 0);
    runnable(&mut table, 1);
    runnable(&mut table, 3);
    assert_eq!(table.find_unused(), Some(2));
    table.procs[1].state = ProcState::Exited;
    assert_eq!(table.find_unused(), Some(2));
    for i in 0..NPROC {
        runnable(&mut table, i);
    }
    assert_eq!(table.find_unused(), None);
}

#[test]
fn switch_saves_then_loads() {
    let mut table = ProcessTable::new();
    runnable(&mut table, 1);
    runnable(&mut table, 2);
    table.procs[2].context.s3 = 33;
    let mut hart = Hart::new(0);
    hart.regs.ra = 0xaaa;
    hart.regs.sp = 0xbbb;
    hart.regs.s0 = 10;
    hart.regs.s11 = 21;
    hart.regs.t0 = 99;
    hart.regs.a0 = 77;
    swtch(&mut hart, &mut table, 1, 2);
    assert_eq!(table.procs[1].context.ra, 0xaaa);
    assert_eq!(table.procs[1].context.sp, 0xbbb);
    assert_eq!(table.procs[1].context.s0, 10);
    assert_eq!(table.procs[1].context.s11, 21);
    assert_eq!(hart.regs.ra, 0x102);
    assert_eq!(hart.pc, 0x102);
    assert_eq!(hart.regs.sp, 0x8000_3000);
    assert_eq!(hart.regs.s3, 33);
    assert_eq!(hart.regs.s0, 0);
    // caller-saved registers are not switched
    assert_eq!(hart.regs.t0, 99);
    assert_eq!(hart.regs.a0, 77);
}

#[test]
fn switch_to_itself_keeps_the_registers() {
    let mut table = ProcessTable::new();
    runnable(&mut table, 1);
    let mut hart = Hart::new(0);
    hart.regs.ra = 0xaaa;
    hart.regs.sp = 0xbbb;
    hart.regs.s5 = 55;
    let before = hart.regs;
    swtch(&mut hart, &mut table, 1, 1);
    assert_eq!(hart.regs, before);
    assert_eq!(hart.pc, 0xaaa);
    assert_eq!(table.procs[1].context, save_context(&hart));
}

#[test]
fn switch_context_sets_the_control_registers_first() {
    let syms = symbols();
    let mut table = ProcessTable::new();
    runnable(&mut table, 1);
    runnable(&mut table, 2);
    let mut hart = Hart::new(syms.kernel_entry);
    hart.regs.sp = 0x8000_1f00;
    switch_context(&mut hart, &mut table, &syms, 1, 2);
    assert_eq!(hart.csr.satp, 0x8000_0000_0000_0002);
    assert_eq!(hart.csr.sscratch, 0x8000_3000);
    assert_eq!(hart.csr.sepc, 0x2_0000);
    assert_eq!(hart.csr.stvec, syms.kernel_entry);
    // the process that gave up the hart goes on behind the switch
    assert_eq!(table.procs[1].context.ra, syms.switch_return);
    assert_eq!(table.procs[1].context.sp, 0x8000_1f00);
    assert_eq!(hart.pc, 0x102);
}

#[test]
fn yield_with_one_runnable_process_comes_back() {
    let syms = symbols();
    let mut table = ProcessTable::new();
    runnable(&mut table, 0);
    runnable(&mut table, 6);
    table.current = 6;
    let mut hart = Hart::new(syms.kernel_entry);
    hart.regs.sp = 0x1234;
    hart.regs.s7 = 7;
    hart.regs.a5 = 5;
    let before = hart.regs;
    assert_eq!(yield_process(&mut hart, &mut table, &syms), 6);
    assert_eq!(table.current, 6);
    let mut expected = before;
    expected.ra = syms.switch_return;
    assert_eq!(hart.regs, expected);
    assert_eq!(hart.pc, syms.switch_return);
    assert_eq!(table.procs[6].context, save_context(&hart));
}

#[test]
fn yield_goes_round_robin() {
    let syms = symbols();
    let mut table = ProcessTable::new();
    for i in [0, 1, 2, 3] {
        runnable(&mut table, i);
    }
    table.current = 1;
    let mut hart = Hart::new(0);
    assert_eq!(yield_process(&mut hart, &mut table, &syms), 2);
    assert_eq!(yield_process(&mut hart, &mut table, &syms), 3);
    assert_eq!(yield_process(&mut hart, &mut table, &syms), 1);
    assert_eq!(table.current, 1);
}

#[test]
fn ended_process_is_never_picked_again() {
    let syms = symbols();
    let mut table = ProcessTable::new();
    for i in [0, 1, 2] {
        runnable(&mut table, i);
    }
    table.current = 1;
    let mut hart = Hart::new(0);
    assert_eq!(end_process(&mut hart, &mut table, &syms), 2);
    assert_eq!(table.procs[1].state, ProcState::Exited);
    for _ in 0..5 {
        assert_eq!(yield_process(&mut hart, &mut table, &syms), 2);
    }
    // the last process ends: only the idle process is left
    assert_eq!(end_process(&mut hart, &mut table, &syms), 0);
    assert_eq!(table.procs[2].state, ProcState::Exited);
    assert_eq!(table.current, 2);
    assert_eq!(hart.pc, 0x100);
}

#[test]
fn start_process_loads_without_saving() {
    let mut table = ProcessTable::new();
    runnable(&mut table, 0);
    runnable(&mut table, 1);
    let before = table.procs.clone();
    let mut hart = Hart::new(0);
    assert_eq!(start_process(&mut hart, &mut table), Some(1));
    assert_eq!(table.procs, before);
    assert_eq!(table.current, 1);
    assert_eq!(hart.pc, 0x101);
    assert_eq!(hart.regs.sp, 0x8000_2000);
    assert_eq!(hart.csr.satp, 0x8000_0000_0000_0001);
    assert_eq!(hart.csr.sscratch, 0x8000_2000);
    assert_eq!(hart.csr.sepc, 0x1_0000);
}

#[test]
fn start_process_without_a_process_starts_nothing() {
    let mut table = ProcessTable::new();
    runnable(&mut table, 0);
    let mut hart = Hart::new(0);
    let before = hart;
    assert_eq!(start_process(&mut hart, &mut table), None);
    assert_eq!(hart, before);
}

#[test]
fn start_proc_loads_a_context() {
    let mut hart = Hart::new(0);
    hart.regs.t3 = 3;
    let mut ctx = Context::zero();
    ctx.ra = 0x500;
    ctx.sp = 0x600;
    ctx.s1 = 1;
    start_proc(&mut hart, &ctx);
    assert_eq!(save_context(&hart), ctx);
    assert_eq!(hart.pc, 0x500);
    assert_eq!(hart.regs.t3, 3);
}

#[test]
fn user_entry_drops_to_user_mode() {
    let mut hart = Hart::new(0);
    hart.csr.sepc = 0x1_0000;
    hart.csr.sstatus = 0x100;
    hart.regs.a0 = 0x8000_1234;
    hart.regs.sp = 0x8000_2000;
    user_entry(&mut hart);
    assert_eq!(hart.mode, rvkernel::hart::Privilege::User);
    assert_eq!(hart.pc, 0x1_0000);
    assert_eq!(hart.regs.a0, 0);
    assert_eq!(hart.regs.sp, 0x8000_2000);
    // SPIE was set alone, so interrupts are on after the return
    assert_eq!(hart.csr.sstatus & 0x2, 0x2);
    assert_eq!(hart.csr.sstatus & 0x100, 0);
}

#[test]
fn listing_shows_the_slots_in_use() {
    let mut table = ProcessTable::new();
    runnable(&mut table, 0);
    runnable(&mut table, 2);
    table.procs[2].state = ProcState::Exited;
    let list = dump_process_list(&table, false);
    assert_eq!(list.len(), 2);
    assert_eq!(list[0].pid, Pid(0));
    assert_eq!(list[1].pid, Pid(2));
    assert_eq!(list[1].state, ProcState::Exited);
    assert_eq!(dump_process_list(&table, true).len(), NPROC);
}
