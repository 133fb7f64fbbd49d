use rvkernel::console::{read_byte, Console};
use rvkernel::csr::{
    clear_sum, read_csr, set_sum, write_csr, Csr, CsrFile, SCAUSE_ECALL, SCAUSE_STORE_PAGE_FAULT,
    SSTATUS_SUM,
};
use rvkernel::hart::{Hart, Privilege, Registers};
use rvkernel::kernel::{pc_after_ecall, Kernel, KernelPanic, TrapOutcome};
use rvkernel::message::{
    panic_message, proc_error_message, push_decimal, push_hexadecimal, push_text,
};
use rvkernel::ksyscall::{
    copy_from_user, handle_syscall, read_user_byte, SyscallResult, SYS_CREATE_PROCESS,
    SYS_EXIT_PROCESS, SYS_LIST_PROCESS, SYS_READ_BYTE, SYS_WRITE_BYTE, SYS_YIELD_PROCESS,
};
use rvkernel::paging::walk_page;
use rvkernel::physmem::PhysMemory;
use rvkernel::proc::{Pid, ProcError, ProcState};
use rvkernel::spawn::top_table_of;
use rvkernel::symbols::KernelSymbols;
use rvkernel::trap::{
    handle_trap, kernel_entry, restore_trap_frame, save_trap_frame, set_frame_a0, TrapFrame,
    TRAP_FRAME_SIZE,
};
use rvkernel::userlib::{
    as_signed, create_process, exit_process, spawn, syscall, write_byte, yield_process,
};
use rvkernel::vfs::{bytes_equal, Fs, MemoryFs, MemoryNode, Node};

const KB: u64 = 0x8020_0000;
const AREA: u64 = KB + 0x1_0000;
const END: u64 = KB + 0x20_0000;
const USER: u64 = 0x1_0000;
const TEXT: &[u8] = b"shnonexistent\xffbad";

fn symbols() -> KernelSymbols {
    KernelSymbols {
        kernel_base: KB,
        page_area_start: AREA,
        page_area_end: END,
        kernel_entry: KB + 0x100,
        user_entry: KB + 0x200,
        idle_process: KB + 0x300,
        switch_return: KB + 0x400,
    }
}

/// An image whose one segment holds `TEXT` at `USER`, readable and executable.
fn program() -> Vec<u8> {
    let mut img = vec![0u8; 64 + 56];
    img[24..32].copy_from_slice(&(USER + 0x20).to_le_bytes());
    img[32..40].copy_from_slice(&64u64.to_le_bytes());
    img[56..58].copy_from_slice(&1u16.to_le_bytes());
    img[64..68].copy_from_slice(&1u32.to_le_bytes());
    img[68..72].copy_from_slice(&5u32.to_le_bytes());
    img[72..80].copy_from_slice(&120u64.to_le_bytes());
    img[80..88].copy_from_slice(&USER.to_le_bytes());
    img[96..104].copy_from_slice(&(TEXT.len() as u64).to_le_bytes());
    img[104..112].copy_from_slice(&0x1000u64.to_le_bytes());
    img.extend_from_slice(TEXT);
    img
}

fn booted() -> Kernel {
    Kernel::boot(PhysMemory::new(KB, (END - KB) as usize), symbols()).unwrap()
}

/// A kernel with `n` processes of `program`, the first of which runs.
fn running(n: usize) -> Kernel {
    let mut k = booted();
    let img = program();
    for i in 0..n {
        assert_eq!(k.spawn(&img), Ok(Pid(i + 1)));
    }
    assert_eq!(k.start(), TrapOutcome::Resumed);
    k
}

fn written(console: &Console) -> String {
    String::from_utf8(console.writer.written.clone()).unwrap()
}

#[test]
fn boot_makes_the_idle_process() {
    let k = booted();
    assert_eq!(k.ptable.procs[0].pid, Pid(0));
    assert_eq!(k.ptable.procs[0].state, ProcState::Runnable);
    assert_eq!(k.ptable.procs[0].context.ra, symbols().idle_process);
    assert!(k.ptable.procs[1..].iter().all(|p| p.state == ProcState::Unused));
    assert_eq!(k.hart.mode, Privilege::Supervisor);
    assert_eq!(k.hart.csr.stvec, symbols().kernel_entry);
    assert_eq!(k.alloc.start, AREA);
    assert_eq!(k.alloc.end, END);
    assert_eq!(k.alloc.next, AREA + 4 * 4096);
}

#[test]
fn boot_needs_room_for_the_idle_process() {
    let mut syms = symbols();
    syms.page_area_end = AREA + 3 * 4096;
    let r = Kernel::boot(PhysMemory::new(KB, (END - KB) as usize), syms);
    assert_eq!(r.err(), Some(ProcError::Alloc(rvkernel::allocator::AllocError::OutOfMemory)));
    syms.page_area_end = AREA + 4 * 4096;
    assert!(Kernel::boot(PhysMemory::new(KB, (END - KB) as usize), syms).is_ok());
    assert!(syms.is_wf());
    syms.idle_process = syms.user_entry;
    assert!(!syms.is_wf());
}

#[test]
fn start_without_a_process_stops_the_kernel() {
    let mut k = booted();
    assert_eq!(k.start(), TrapOutcome::Fatal(KernelPanic::NoProcess));
}

#[test]
fn start_enters_the_first_process_in_user_mode() {
    let k = running(1);
    assert_eq!(k.ptable.current, 1);
    assert_eq!(k.hart.mode, Privilege::User);
    assert_eq!(k.hart.pc, USER + 0x20);
    assert_eq!(k.hart.csr.satp, k.ptable.procs[1].satp_value);
    assert_eq!(k.hart.csr.sscratch, k.ptable.procs[1].kernel_stack.top());
    assert_eq!(k.hart.regs.a0, 0);
}

#[test]
fn single_process_writes_a_stream_of_a() {
    let mut k = running(1);
    let mut console = Console::new();
    let fs = MemoryFs::new();
    for _ in 0..20 {
        assert_eq!(write_byte(&mut k, &mut console, &fs, b'A'), (TrapOutcome::Resumed, Ok(())));
        assert_eq!(yield_process(&mut k, &mut console, &fs).0, TrapOutcome::Resumed);
        assert_eq!(k.ptable.current, 1);
    }
    assert_eq!(written(&console), "A".repeat(20));
}

#[test]
fn two_processes_interleave() {
    let mut k = running(2);
    let mut console = Console::new();
    let fs = MemoryFs::new();
    for _ in 0..6 {
        let byte = if k.ptable.current == 1 { b'A' } else { b'B' };
        write_byte(&mut k, &mut console, &fs, byte);
        assert_eq!(yield_process(&mut k, &mut console, &fs).0, TrapOutcome::Resumed);
    }
    assert_eq!(written(&console), "ABABAB");
}

#[test]
fn process_finds_its_registers_after_others_ran() {
    let mut k = running(3);
    let mut console = Console::new();
    let fs = MemoryFs::new();
    // each process marks its registers and gives up the hart
    for round in 0..3u64 {
        for _ in 0..3 {
            let me = k.ptable.current as u64;
            if round > 0 {
                assert_eq!(k.hart.regs.s2, 1000 * me + round - 1);
                assert_eq!(k.hart.regs.t4, 2000 * me + round - 1);
                assert_eq!(k.hart.regs.sp, 0x7000 + me);
                assert_eq!(k.hart.pc, USER + 0x100 * me + 4);
            }
            k.hart.regs.s2 = 1000 * me + round;
            k.hart.regs.t4 = 2000 * me + round;
            k.hart.regs.sp = 0x7000 + me;
            k.hart.pc = USER + 0x100 * me;
            assert_eq!(yield_process(&mut k, &mut console, &fs).0, TrapOutcome::Resumed);
            assert_eq!(k.hart.csr.satp, k.ptable.procs[k.ptable.current].satp_value);
        }
    }
}

#[test]
fn exited_process_is_not_scheduled_again() {
    let mut k = running(2);
    let mut console = Console::new();
    let fs = MemoryFs::new();
    assert_eq!(k.ptable.current, 1);
    write_byte(&mut k, &mut console, &fs, b'X');
    assert_eq!(exit_process(&mut k, &mut console, &fs).0, TrapOutcome::Resumed);
    assert_eq!(k.ptable.procs[1].state, ProcState::Exited);
    for _ in 0..3 {
        assert_eq!(k.ptable.current, 2);
        write_byte(&mut k, &mut console, &fs, b'Y');
        yield_process(&mut k, &mut console, &fs);
    }
    assert_eq!(written(&console), "XYYY");
    // when the last process ends, the idle process gets the hart
    assert_eq!(exit_process(&mut k, &mut console, &fs).0, TrapOutcome::Idle);
    assert_eq!(k.hart.pc, symbols().idle_process);
    assert_eq!(k.hart.mode, Privilege::Supervisor);
    assert_eq!(k.ptable.procs[2].state, ProcState::Exited);
    assert_eq!(k.ptable.procs[0].state, ProcState::Runnable);
}

#[test]
fn unknown_syscall_stops_the_kernel() {
    let mut k = running(1);
    let mut console = Console::new();
    let fs = MemoryFs::new();
    let (out, _) = syscall(&mut k, &mut console, &fs, 999, 0, 0, 0);
    assert_eq!(out, TrapOutcome::Fatal(KernelPanic::UnknownSyscall(999)));
    let message = String::from_utf8(panic_message(KernelPanic::UnknownSyscall(999))).unwrap();
    assert!(message.contains("999"));
    assert_eq!(message, "not implemented: 999");
    let mut k = running(1);
    let (out, _) = syscall(&mut k, &mut console, &fs, 0, 0, 0, 0);
    assert_eq!(out, TrapOutcome::Fatal(KernelPanic::UnknownSyscall(0)));
}

#[test]
fn store_to_unmapped_memory_stops_the_kernel() {
    let mut k = running(1);
    let mut console = Console::new();
    let fs = MemoryFs::new();
    let top = top_table_of(k.hart.csr.satp);
    assert_eq!(walk_page(&k.mem, top, 0xdead_beef), None);
    k.hart.pc = USER + 0x44;
    k.hart.trap(SCAUSE_STORE_PAGE_FAULT, 0xdead_beef);
    let out = kernel_entry(&mut k, &mut console, &fs);
    let panic = KernelPanic::UnexpectedTrap { scause: 15, stval: 0xdead_beef, sepc: USER + 0x44 };
    assert_eq!(out, TrapOutcome::Fatal(panic));
    assert_eq!(
        String::from_utf8(panic_message(panic)).unwrap(),
        "[TRAP ] unexpected trap: scause=f, stval=deadbeef, sepc=10044"
    );
}

#[test]
fn messages_of_a_stopped_kernel() {
    let text = |p| String::from_utf8(panic_message(p)).unwrap();
    assert_eq!(text(KernelPanic::UnknownSyscall(0)), "not implemented: 0");
    assert_eq!(text(KernelPanic::UnknownSyscall(u64::MAX)), "not implemented: 18446744073709551615");
    assert_eq!(text(KernelPanic::ByteOutOfRange(256)), "not a byte: 256");
    assert_eq!(text(KernelPanic::BadUserPointer(0xabc0)), "unreadable path at 0xabc0");
    assert_eq!(text(KernelPanic::BadPath), "path is not UTF-8");
    assert_eq!(text(KernelPanic::Console(1)), "console error");
    assert_eq!(text(KernelPanic::NoProcess), "[start_process] no process to start");
    assert_eq!(
        text(KernelPanic::Process(ProcError::Alloc(rvkernel::allocator::AllocError::OutOfMemory))),
        "Out of memory!"
    );
    assert_eq!(
        proc_error_message(ProcError::Alloc(rvkernel::allocator::AllocError::OverFlow)),
        "Page calculation overflowed!"
    );
    assert_eq!(proc_error_message(ProcError::NoFreeSlot), "create process failed!");
    assert_eq!(proc_error_message(ProcError::BadSegment), "segment does not fit its frames");
    assert_eq!(
        proc_error_message(ProcError::Elf(rvkernel::loadelf::ElfError::TooManySegments)),
        "too many program headers"
    );
    let mut out = b"x".to_vec();
    push_decimal(&mut out, 1050);
    push_text(&mut out, "/");
    push_hexadecimal(&mut out, 0x10af);
    assert_eq!(out, b"x1050/10af");
}

#[test]
fn round_trip_keeps_every_register_but_a0() {
    let mut k = running(1);
    let mut console = Console::new();
    let fs = MemoryFs::new();
    assert_eq!(Registers::zero().a0, 0);
    let words: Vec<u64> = (1..=31).map(|i| 0x1111_0000_0000_0000 * (i % 15) + i).collect();
    let mut f = TrapFrame::from_words(&words);
    f.a0 = b'q' as u64;
    f.a3 = SYS_WRITE_BYTE;
    let mut regs = f.to_regs();
    k.hart.regs = regs;
    k.hart.pc = USER + 0x40;
    k.hart.ecall();
    assert_eq!(k.hart.mode, Privilege::Supervisor);
    assert_eq!(k.hart.pc, symbols().kernel_entry);
    assert_eq!(k.hart.csr.scause, SCAUSE_ECALL);
    assert_eq!(kernel_entry(&mut k, &mut console, &fs), TrapOutcome::Resumed);
    assert_eq!(k.hart.regs, regs);
    assert_eq!(k.hart.pc, USER + 0x44);
    assert_eq!(k.hart.mode, Privilege::User);
    assert_eq!(written(&console), "q");
    // a call that returns a value changes a0 and nothing else
    console.type_byte(0x5a);
    k.hart.regs.a3 = SYS_READ_BYTE;
    k.hart.ecall();
    assert_eq!(kernel_entry(&mut k, &mut console, &fs), TrapOutcome::Resumed);
    regs.a3 = SYS_READ_BYTE;
    regs.a0 = 0x5a;
    assert_eq!(k.hart.regs, regs);
    assert_eq!(k.hart.pc, USER + 0x48);
}

#[test]
fn yield_alone_returns_to_the_same_process() {
    let mut k = running(1);
    let mut console = Console::new();
    let fs = MemoryFs::new();
    let words: Vec<u64> = (100..131).collect();
    let mut regs = TrapFrame::from_words(&words).to_regs();
    regs.a3 = SYS_YIELD_PROCESS;
    k.hart.regs = regs;
    k.hart.pc = USER + 0x80;
    k.hart.ecall();
    assert_eq!(kernel_entry(&mut k, &mut console, &fs), TrapOutcome::Resumed);
    assert_eq!(k.ptable.current, 1);
    assert_eq!(k.hart.regs, regs);
    assert_eq!(k.hart.pc, USER + 0x84);
    assert_eq!(k.hart.csr.satp, k.ptable.procs[1].satp_value);
    assert_eq!(k.hart.csr.sscratch, k.ptable.procs[1].kernel_stack.top());
    // the saved context is the one the process went through the switch with
    let ctx = k.ptable.procs[1].context;
    assert_eq!(ctx.ra, symbols().switch_return);
    assert_eq!(ctx.sp, k.ptable.procs[1].kernel_stack.top() - 264);
    assert_eq!(ctx.s0, regs.s0);
    assert_eq!(ctx.s11, regs.s11);
}

#[test]
fn read_waits_for_the_console() {
    let mut k = running(1);
    let mut console = Console::new();
    let fs = MemoryFs::new();
    k.hart.pc = USER + 0x60;
    k.hart.regs.a0 = 0x77;
    k.hart.regs.s1 = 5;
    let alloc = k.alloc;
    let (out, _) = syscall(&mut k, &mut console, &fs, SYS_READ_BYTE, 0x77, 0, 0);
    assert_eq!(out, TrapOutcome::Blocked);
    // the caller stands at its call again, with a0 as it was
    assert_eq!(k.hart.pc, USER + 0x60);
    assert_eq!(k.hart.regs.a0, 0x77);
    assert_eq!(k.hart.regs.a3, SYS_READ_BYTE);
    assert_eq!(k.hart.regs.s1, 5);
    assert_eq!(k.hart.mode, Privilege::User);
    assert_eq!(k.alloc, alloc);
    console.type_byte(b'x');
    console.type_byte(b'y');
    assert!(console.has_input());
    assert_eq!(rvkernel::userlib::read_byte(&mut k, &mut console, &fs), (TrapOutcome::Resumed, Ok(b'x')));
    assert_eq!(k.hart.pc, USER + 0x64);
    assert_eq!(rvkernel::userlib::read_byte(&mut k, &mut console, &fs), (TrapOutcome::Resumed, Ok(b'y')));
    assert!(!console.has_input());
    assert_eq!(rvkernel::userlib::read_byte(&mut k, &mut console, &fs).0, TrapOutcome::Blocked);
    assert_eq!(written(&console), "");
}

#[test]
fn write_of_a_value_that_is_no_byte_stops_the_kernel() {
    let mut k = running(1);
    let mut console = Console::new();
    let fs = MemoryFs::new();
    let (out, _) = syscall(&mut k, &mut console, &fs, SYS_WRITE_BYTE, 256, 0, 0);
    assert_eq!(out, TrapOutcome::Fatal(KernelPanic::ByteOutOfRange(256)));
    assert_eq!(written(&console), "");
    let mut k = running(1);
    let (out, _) = syscall(&mut k, &mut console, &fs, SYS_WRITE_BYTE, u64::MAX, 0, 0);
    assert_eq!(out, TrapOutcome::Fatal(KernelPanic::ByteOutOfRange(u64::MAX)));
    let mut k = running(1);
    let (out, ret) = syscall(&mut k, &mut console, &fs, SYS_WRITE_BYTE, 255, 0, 0);
    assert_eq!((out, ret), (TrapOutcome::Resumed, Ok(255)));
    assert_eq!(console.writer.written, vec![255]);
}

#[test]
fn console_that_refuses_a_byte_stops_the_kernel() {
    let mut k = running(1);
    let mut console = Console::new();
    let fs = MemoryFs::new();
    console.writer.status = -3;
    let (out, _) = syscall(&mut k, &mut console, &fs, SYS_WRITE_BYTE, b'a' as u64, 0, 0);
    assert_eq!(out, TrapOutcome::Fatal(KernelPanic::Console(-3)));
    assert_eq!(written(&console), "");
    assert_eq!(console.writer.write_byte(b'b'), Err(-3));
}

#[test]
fn list_is_passed_on() {
    let mut k = running(1);
    let mut console = Console::new();
    let fs = MemoryFs::new();
    k.hart.pc = USER;
    let (out, ret) = syscall(&mut k, &mut console, &fs, SYS_LIST_PROCESS, 9, 8, 7);
    assert_eq!((out, ret), (TrapOutcome::Listed, Ok(9)));
    assert_eq!(k.hart.pc, USER + 4);
    assert_eq!(k.hart.regs.a1, 8);
}

#[test]
fn create_process_by_path() {
    let mut k = running(1);
    let mut console = Console::new();
    let mut fs = MemoryFs::new();
    let img = program();
    fs.add("sh", &img);
    let next = k.alloc.next;
    let (out, ret) = create_process(&mut k, &mut console, &fs, USER, 2);
    assert_eq!((out, ret), (TrapOutcome::Resumed, Ok(2)));
    assert_eq!(k.ptable.current, 1);
    let p = k.ptable.procs[2];
    assert_eq!(p.state, ProcState::Runnable);
    assert_eq!(p.pid, Pid(2));
    assert_eq!(p.entry_point, USER + 0x20);
    // the file was read into one fresh frame, and the process made behind it
    assert_eq!(k.mem.read_bytes(next, img.len()), img);
    assert_eq!(p.kernel_stack.base, next + 4096);
    // SUM is clear again
    assert_eq!(k.hart.csr.sstatus & SSTATUS_SUM, 0);
    // the new process starts with zero in a0
    assert_eq!(yield_process(&mut k, &mut console, &fs).0, TrapOutcome::Resumed);
    assert_eq!(k.ptable.current, 2);
    assert_eq!(k.hart.regs.a0, 0);
    assert_eq!(k.hart.pc, USER + 0x20);
    assert_eq!(k.hart.mode, Privilege::User);
    // and its creator finds the identifier in a0 when it runs again
    assert_eq!(yield_process(&mut k, &mut console, &fs).0, TrapOutcome::Resumed);
    assert_eq!(k.ptable.current, 1);
}

#[test]
fn create_process_of_a_missing_file_fails() {
    let mut k = running(1);
    let mut console = Console::new();
    let mut fs = MemoryFs::new();
    let img = program();
    fs.add("sh", &img);
    let next = k.alloc.next;
    k.hart.pc = USER + 8;
    let (out, ret) = create_process(&mut k, &mut console, &fs, USER + 2, 11);
    assert_eq!((out, ret), (TrapOutcome::Resumed, Err(-1)));
    assert_eq!(k.hart.regs.a0, u64::MAX);
    assert_eq!(k.hart.regs.a1, 11);
    assert_eq!(k.hart.pc, USER + 12);
    assert_eq!(k.alloc.next, next);
    assert!(k.ptable.procs[2..].iter().all(|p| p.state == ProcState::Unused));
}

#[test]
fn create_process_of_a_file_that_is_no_image_fails() {
    let mut k = running(1);
    let mut console = Console::new();
    let mut fs = MemoryFs::new();
    // one program header, which lies far behind the end of the file
    let mut file = vec![0u8; 64];
    file[32..40].copy_from_slice(&0x10_0000u64.to_le_bytes());
    file[56..58].copy_from_slice(&1u16.to_le_bytes());
    fs.add("sh", &file);
    let next = k.alloc.next;
    let (out, ret) = create_process(&mut k, &mut console, &fs, USER, 2);
    assert_eq!((out, ret), (TrapOutcome::Resumed, Err(-1)));
    // the frame that the file was read into stays taken
    assert_eq!(k.alloc.next, next + 4096);
    assert_eq!(k.ptable.procs[2].state, ProcState::Unused);
}

#[test]
fn create_process_with_a_bad_path_stops_the_kernel() {
    let fs = MemoryFs::new();
    let mut console = Console::new();
    // the path lies in memory that is not mapped
    let mut k = running(1);
    let (out, _) = create_process(&mut k, &mut console, &fs, 0x5000_0000, 2);
    assert_eq!(out, TrapOutcome::Fatal(KernelPanic::BadUserPointer(0x5000_0000)));
    // the path runs out of the mapped page
    let mut k = running(1);
    let (out, _) = create_process(&mut k, &mut console, &fs, USER + 0xfff, 2);
    assert_eq!(out, TrapOutcome::Fatal(KernelPanic::BadUserPointer(USER + 0xfff)));
    // the path is no UTF-8
    let mut k = running(1);
    let (out, _) = create_process(&mut k, &mut console, &fs, USER + 13, 1);
    assert_eq!(out, TrapOutcome::Fatal(KernelPanic::BadPath));
    // the empty path is a path
    let mut k = running(1);
    let (out, ret) = create_process(&mut k, &mut console, &fs, 0x5000_0000, 0);
    assert_eq!((out, ret), (TrapOutcome::Resumed, Err(-1)));
}

#[test]
fn create_process_without_memory_stops_the_kernel() {
    let mut syms = symbols();
    // room for the idle process, one process, and the file, but no second process
    syms.page_area_end = AREA + (4 + 7 + 2) * 4096;
    let mut k = Kernel::boot(PhysMemory::new(KB, (END - KB) as usize), syms).unwrap();
    let img = program();
    assert_eq!(k.spawn(&img), Ok(Pid(1)));
    assert_eq!(k.alloc.next, AREA + 11 * 4096);
    assert_eq!(k.start(), TrapOutcome::Resumed);
    let mut console = Console::new();
    let mut fs = MemoryFs::new();
    fs.add("sh", &img);
    let (out, _) = create_process(&mut k, &mut console, &fs, USER, 2);
    assert_eq!(
        out,
        TrapOutcome::Fatal(KernelPanic::Process(ProcError::Alloc(
            rvkernel::allocator::AllocError::OutOfMemory
        )))
    );
}

#[test]
fn spawn_starts_and_yields() {
    let mut k = running(1);
    let mut console = Console::new();
    let mut fs = MemoryFs::new();
    let img = program();
    fs.add("sh", &img);
    assert_eq!(spawn(&mut k, &mut console, &fs, USER, 2), (TrapOutcome::Resumed, Ok(())));
    assert_eq!(k.ptable.current, 2);
    // a program that cannot be started is a failure, and the hart is kept
    assert_eq!(spawn(&mut k, &mut console, &fs, USER + 2, 11), (TrapOutcome::Resumed, Err(-1)));
    assert_eq!(k.ptable.current, 2);
}

#[test]
fn trap_frame_lies_below_the_top_of_the_kernel_stack() {
    let mut k = running(1);
    let top = k.ptable.procs[1].kernel_stack.top();
    let words: Vec<u64> = (1..=31).collect();
    let f = TrapFrame::from_words(&words);
    k.hart.regs = f.to_regs();
    let frame = save_trap_frame(&mut k.hart, &mut k.mem);
    assert_eq!(frame, top - TRAP_FRAME_SIZE);
    assert_eq!(k.mem.load_words(frame, 31), words);
    assert_eq!(TrapFrame::load(&k.mem, frame), f);
    assert_eq!(f.to_words(), words);
    // ra first, a0 in slot 10, the stack pointer of the program last
    assert_eq!(k.mem.read_u64(frame), f.ra);
    assert_eq!(k.mem.read_u64(frame + 80), f.a0);
    assert_eq!(k.mem.read_u64(frame + 104), f.a3);
    assert_eq!(k.mem.read_u64(frame + 240), f.sp);
    assert_eq!(k.hart.regs.sp, frame);
    assert_eq!(k.hart.regs.a0, frame);
    assert_eq!(k.hart.csr.sscratch, top);
    set_frame_a0(&mut k.mem, frame, 0xabc);
    restore_trap_frame(&mut k.hart, &k.mem);
    let mut expected = f.to_regs();
    expected.a0 = 0xabc;
    assert_eq!(k.hart.regs, expected);
    assert_eq!(TrapFrame::from_regs(&expected).a0, 0xabc);
}

#[test]
fn syscall_handler_reads_the_frame() {
    let mut k = running(1);
    let mut console = Console::new();
    let fs = MemoryFs::new();
    k.hart.regs.a0 = b'!' as u64;
    k.hart.regs.a3 = SYS_WRITE_BYTE;
    k.hart.ecall();
    let frame = save_trap_frame(&mut k.hart, &mut k.mem);
    k.hart.regs.sp -= 16;
    assert_eq!(handle_syscall(&mut k, &mut console, &fs, frame), SyscallResult::Done);
    assert_eq!(written(&console), "!");
    set_frame_a0(&mut k.mem, frame, 3);
    k.mem.write_u64(frame + 104, SYS_EXIT_PROCESS);
    assert_eq!(handle_syscall(&mut k, &mut console, &fs, frame), SyscallResult::Switched);
    assert_eq!(k.ptable.procs[1].state, ProcState::Exited);
    assert_eq!(SYS_CREATE_PROCESS, 5);
}

#[test]
fn user_memory_is_read_through_the_page_table() {
    let k = running(1);
    let top = top_table_of(k.hart.csr.satp);
    assert_eq!(read_user_byte(&k.mem, top, USER), Some(b's'));
    assert_eq!(read_user_byte(&k.mem, top, USER + 1), Some(b'h'));
    assert_eq!(read_user_byte(&k.mem, top, USER + 0x1000), None);
    assert_eq!(copy_from_user(&k.mem, top, USER + 2, 11), Some(b"nonexistent".to_vec()));
    assert_eq!(copy_from_user(&k.mem, top, USER, 0), Some(vec![]));
    assert_eq!(copy_from_user(&k.mem, top, USER + 0xffe, 3), None);
    assert_eq!(copy_from_user(&k.mem, top, u64::MAX, 2), None);
    // the kernel's own pages can be read too
    assert_eq!(read_user_byte(&k.mem, top, KB), Some(0));
}

#[test]
fn file_system_finds_the_first_file_of_a_name() {
    let mut fs = MemoryFs::new();
    assert!(fs.lookup("sh").is_none());
    fs.add("sh", b"one");
    fs.add("ps", b"two!");
    fs.add("sh", b"three");
    let node = fs.lookup("sh").unwrap();
    assert_eq!(node.get_id(), 0);
    assert_eq!(node.size(), 3);
    let mut buf = vec![9u8; 5];
    assert_eq!(node.read(&mut buf), Ok(()));
    assert_eq!(buf, vec![b'o', b'n', b'e', 9, 9]);
    let ps = fs.lookup("ps").unwrap();
    assert_eq!(ps.get_id(), 1);
    let mut short = vec![0u8; 3];
    assert_eq!(ps.read(&mut short), Err(()));
    assert_eq!(short, vec![0, 0, 0]);
    assert!(fs.lookup("s").is_none());
    assert!(fs.lookup("").is_none());
    assert_eq!(fs.find("ps"), Some(1));
    assert_eq!(MemoryNode::new(4, b"abc").size(), 3);
    assert!(bytes_equal(b"abc", b"abc"));
    assert!(!bytes_equal(b"abc", b"abd"));
    assert!(!bytes_equal(b"abc", b"ab"));
}

#[test]
fn console_hands_bytes_out_in_order() {
    let mut c = Console::new();
    assert_eq!(read_byte(&mut c), -1);
    c.type_byte(1);
    c.type_byte(200);
    assert_eq!(read_byte(&mut c), 1);
    assert_eq!(read_byte(&mut c), 200);
    assert_eq!(read_byte(&mut c), -1);
    assert_eq!(c.writer.write_byte(b'z'), Ok(()));
    assert_eq!(c.writer.written, vec![b'z']);
}

#[test]
fn control_registers_read_what_was_written() {
    let mut f = CsrFile::new();
    for (i, csr) in [Csr::Stvec, Csr::Scause, Csr::Stval, Csr::Sepc, Csr::Sscratch, Csr::Satp, Csr::Sstatus]
        .into_iter()
        .enumerate()
    {
        write_csr(&mut f, csr, 100 + i as u64);
    }
    assert_eq!(read_csr(&f, Csr::Stvec), 100);
    assert_eq!(read_csr(&f, Csr::Scause), 101);
    assert_eq!(read_csr(&f, Csr::Stval), 102);
    assert_eq!(read_csr(&f, Csr::Sepc), 103);
    assert_eq!(read_csr(&f, Csr::Sscratch), 104);
    assert_eq!(read_csr(&f, Csr::Satp), 105);
    assert_eq!(read_csr(&f, Csr::Sstatus), 106);
    set_sum(&mut f);
    assert_eq!(f.sstatus, 106 | 0x4_0000);
    clear_sum(&mut f);
    assert_eq!(f.sstatus, 106);
}

#[test]
fn trap_and_return_of_the_hart() {
    let mut h = Hart::new(0x8000);
    h.mode = Privilege::User;
    h.pc = 0x1234;
    h.csr.sstatus = 0x2;
    h.trap(13, 0x99);
    assert_eq!(h.mode, Privilege::Supervisor);
    assert_eq!(h.pc, 0x8000);
    assert_eq!(h.csr.sepc, 0x1234);
    assert_eq!(h.csr.scause, 13);
    assert_eq!(h.csr.stval, 0x99);
    // SIE went to SPIE, and SPP says user mode
    assert_eq!(h.csr.sstatus, 0x20);
    h.sret();
    assert_eq!(h.mode, Privilege::User);
    assert_eq!(h.pc, 0x1234);
    assert_eq!(h.csr.sstatus, 0x22);
    // a trap taken in supervisor mode returns there
    h.mode = Privilege::Supervisor;
    h.trap(1, 0);
    assert_eq!(h.csr.sstatus & 0x100, 0x100);
    h.sret();
    assert_eq!(h.mode, Privilege::Supervisor);
}

#[test]
fn program_counter_wraps_behind_an_ecall() {
    assert_eq!(pc_after_ecall(0x1000), 0x1004);
    assert_eq!(pc_after_ecall(u64::MAX - 4), u64::MAX);
    assert_eq!(pc_after_ecall(u64::MAX - 3), 0);
    assert_eq!(pc_after_ecall(u64::MAX), 3);
    assert_eq!(as_signed(u64::MAX), -1);
    assert_eq!(as_signed(0x8000_0000_0000_0000), i64::MIN);
    assert_eq!(as_signed(5), 5);
}

#[test]
fn handler_sets_sepc_behind_the_ecall() {
    let mut k = running(1);
    let mut console = Console::new();
    let fs = MemoryFs::new();
    k.hart.pc = USER + 0x80;
    k.hart.regs.a0 = b'!' as u64;
    k.hart.regs.a3 = SYS_WRITE_BYTE;
    k.hart.ecall();
    assert_eq!(k.hart.csr.sepc, USER + 0x80);
    let frame = save_trap_frame(&mut k.hart, &mut k.mem);
    assert_eq!(handle_trap(&mut k, &mut console, &fs, frame), SyscallResult::Done);
    assert_eq!(k.hart.csr.sepc, USER + 0x84);
    assert_eq!(k.hart.regs.sp, frame);
    assert_eq!(written(&console), "!");
    // what is left restores the registers and returns, and sets no counter
    k.trap_return();
    assert_eq!(k.hart.pc, USER + 0x84);
    assert_eq!(k.hart.csr.sepc, USER + 0x84);
    assert_eq!(k.hart.mode, Privilege::User);
    assert_eq!(k.hart.regs.a0, b'!' as u64);
}

#[test]
fn handler_sets_sepc_from_the_value_read_on_entry() {
    let mut k = running(1);
    let mut console = Console::new();
    let mut fs = MemoryFs::new();
    let img = program();
    fs.add("sh", &img);
    k.hart.pc = USER + 0x90;
    k.hart.regs.a0 = USER;
    k.hart.regs.a1 = 2;
    k.hart.regs.a3 = SYS_CREATE_PROCESS;
    k.hart.ecall();
    let frame = save_trap_frame(&mut k.hart, &mut k.mem);
    assert_eq!(handle_trap(&mut k, &mut console, &fs, frame), SyscallResult::Done);
    assert_eq!(k.hart.csr.sepc, USER + 0x94);
    assert_eq!(k.ptable.procs[2].state, ProcState::Runnable);
    k.trap_return();
    assert_eq!(k.hart.pc, USER + 0x94);
    assert_eq!(k.hart.regs.a0, 2);
}

#[test]
fn handler_keeps_sepc_for_a_call_that_waits() {
    let mut k = running(1);
    let mut console = Console::new();
    let fs = MemoryFs::new();
    k.hart.pc = USER + 0xa0;
    k.hart.regs.a3 = SYS_READ_BYTE;
    k.hart.ecall();
    let frame = save_trap_frame(&mut k.hart, &mut k.mem);
    assert_eq!(handle_trap(&mut k, &mut console, &fs, frame), SyscallResult::Blocked);
    assert_eq!(k.hart.csr.sepc, USER + 0xa0);
    assert_eq!(k.hart.regs.sp, frame);
    k.trap_return();
    assert_eq!(k.hart.pc, USER + 0xa0);
    assert_eq!(k.hart.regs.a3, SYS_READ_BYTE);
}

#[test]
fn handler_changes_nothing_on_a_trap_that_is_no_ecall() {
    let mut k = running(2);
    let mut console = Console::new();
    let fs = MemoryFs::new();
    k.hart.pc = USER + 0x44;
    k.hart.regs.a3 = SYS_WRITE_BYTE;
    k.hart.regs.a0 = b'x' as u64;
    k.hart.trap(SCAUSE_STORE_PAGE_FAULT, 0xdead_beef);
    let frame = save_trap_frame(&mut k.hart, &mut k.mem);
    let bytes = k.mem.bytes.clone();
    let hart = k.hart;
    let alloc = k.alloc;
    let procs = k.ptable.procs.clone();
    let current = k.ptable.current;
    let panic = KernelPanic::UnexpectedTrap { scause: 15, stval: 0xdead_beef, sepc: USER + 0x44 };
    assert_eq!(handle_trap(&mut k, &mut console, &fs, frame), SyscallResult::Fatal(panic));
    assert!(k.mem.bytes == bytes);
    assert_eq!(k.hart, hart);
    assert_eq!(k.alloc, alloc);
    assert!(k.ptable.procs == procs);
    assert_eq!(k.ptable.current, current);
    assert_eq!(written(&console), "");
}

#[test]
fn calls_without_a_value_fail_with_minus_one_alone() {
    let mut k = running(1);
    let mut console = Console::new();
    let fs = MemoryFs::new();
    assert_eq!(write_byte(&mut k, &mut console, &fs, 0xff), (TrapOutcome::Resumed, Ok(())));
    assert_eq!(k.hart.regs.a0, 0xff);
    assert_eq!(yield_process(&mut k, &mut console, &fs), (TrapOutcome::Resumed, Ok(())));
    assert_eq!(create_process(&mut k, &mut console, &fs, USER, 2), (TrapOutcome::Resumed, Err(-1)));
    assert_eq!(k.hart.regs.a0, u64::MAX);
    assert_eq!(as_signed(u64::MAX), -1);
    assert_eq!(as_signed(u64::MAX - 1), -2);
}

#[test]
fn trap_that_stops_the_kernel_leaves_the_registers_spilled() {
    let mut k = running(1);
    let mut console = Console::new();
    let fs = MemoryFs::new();
    k.hart.pc = USER + 0x44;
    k.hart.regs.s3 = 0x33;
    k.hart.regs.sp = 0x7ff0;
    k.hart.trap(SCAUSE_STORE_PAGE_FAULT, 0xdead_beef);
    let alloc = k.alloc;
    let procs = k.ptable.procs.clone();
    let regs = k.hart.regs;
    let out = kernel_entry(&mut k, &mut console, &fs);
    assert!(matches!(out, TrapOutcome::Fatal(KernelPanic::UnexpectedTrap { .. })));
    let frame = k.ptable.procs[1].kernel_stack.top() - TRAP_FRAME_SIZE;
    assert_eq!(k.hart.regs.sp, frame);
    assert_eq!(k.hart.regs.a0, frame);
    assert_eq!(TrapFrame::load(&k.mem, frame), TrapFrame::from_regs(&regs));
    assert_eq!(k.hart.csr.sepc, USER + 0x44);
    assert_eq!(k.alloc, alloc);
    assert!(k.ptable.procs == procs);
    assert_eq!(written(&console), "");
}
