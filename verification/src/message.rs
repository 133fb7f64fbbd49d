//! What the kernel says when it stops, as ASCII text.

use crate::allocator::AllocError;
use crate::kernel::KernelPanic;
use crate::loadelf::ElfError;
use crate::proc::ProcError;
use vstd::prelude::*;
use vstd::string::StringSliceAdditionalSpecFns;

verus! {

/// The hexadecimal digit of `d`, as a lower-case ASCII character.
pub open spec fn digit(d: nat) -> u8 {
    if d < 10 {
        (48 + d) as u8
    } else {
        (87 + d) as u8
    }
}

/// The decimal digits of `n`, most significant first.
pub open spec fn decimal(n: nat) -> Seq<u8>
    decreases n,
{
    if n < 10 {
        seq![digit(n)]
    } else {
        decimal(n / 10).push(digit(n % 10))
    }
}

/// The hexadecimal digits of `n`, most significant first.
pub open spec fn hexadecimal(n: nat) -> Seq<u8>
    decreases n,
{
    if n < 16 {
        seq![digit(n)]
    } else {
        hexadecimal(n / 16).push(digit(n % 16))
    }
}

/// Appends the decimal digits of `n` to `out`.
pub fn push_decimal(out: &mut Vec<u8>, n: u64)
    ensures
        final(out)@ == old(out)@ + decimal(n as nat),
    decreases n,
{
    if n >= 10 {
        push_decimal(out, n / 10);
    }
    out.push(48 + (n % 10) as u8);
    proof {
        assert(out@ =~= old(out)@ + decimal(n as nat));
    }
}

/// Appends the hexadecimal digits of `n` to `out`.
pub fn push_hexadecimal(out: &mut Vec<u8>, n: u64)
    ensures
        final(out)@ == old(out)@ + hexadecimal(n as nat),
    decreases n,
{
    if n >= 16 {
        push_hexadecimal(out, n / 16);
    }
    let d = (n % 16) as u8;
    out.push(
        if d < 10 {
            48 + d
        } else {
            87 + d
        },
    );
    proof {
        assert(out@ =~= old(out)@ + hexadecimal(n as nat));
    }
}

/// Appends the bytes of `text` to `out`.
pub fn push_text(out: &mut Vec<u8>, text: &str)
    ensures
        final(out)@ == old(out)@ + text.spec_bytes(),
{
    let bytes = text.as_bytes();
    let n = bytes.len();
    let mut i: usize = 0;
    while i < n
        invariant
            i <= n,
            n == bytes@.len(),
            bytes@ == text.spec_bytes(),
            out@ == old(out)@ + bytes@.subrange(0, i as int),
        decreases n - i,
    {
        out.push(bytes[i]);
        proof {
            assert(bytes@.subrange(0, i + 1) =~= bytes@.subrange(0, i as int).push(bytes@[i as int]));
            assert(out@ =~= old(out)@ + bytes@.subrange(0, i + 1));
        }
        i += 1;
    }
    proof {
        assert(bytes@.subrange(0, n as int) =~= bytes@);
    }
}

/// What the kernel says when the page allocator refuses a request.
pub open spec fn alloc_error_text(e: AllocError) -> Seq<u8> {
    match e {
        AllocError::OutOfMemory => "Out of memory!".spec_bytes(),
        AllocError::OverFlow => "Page calculation overflowed!".spec_bytes(),
    }
}

/// What the kernel says when an image cannot be loaded.
pub open spec fn elf_error_text(e: ElfError) -> Seq<u8> {
    match e {
        ElfError::TruncatedHeader => "image shorter than an ELF header".spec_bytes(),
        ElfError::ProgramHeaderOutOfRange => "program header outside the image".spec_bytes(),
        ElfError::SegmentOutOfRange => "segment outside the image".spec_bytes(),
        ElfError::TooManySegments => "too many program headers".spec_bytes(),
    }
}

/// What the kernel says when a process cannot be made.
pub open spec fn proc_error_text(e: ProcError) -> Seq<u8> {
    match e {
        ProcError::NoFreeSlot => "create process failed!".spec_bytes(),
        ProcError::Alloc(e) => alloc_error_text(e),
        ProcError::BadSegment => "segment does not fit its frames".spec_bytes(),
        ProcError::Elf(e) => elf_error_text(e),
    }
}

/// What the kernel says when it stops. Numbers of system calls stand in
/// decimal digits, addresses and the registers of a trap in hexadecimal ones.
pub open spec fn panic_text(p: KernelPanic) -> Seq<u8> {
    match p {
        KernelPanic::UnexpectedTrap { scause, stval, sepc } =>
            "[TRAP ] unexpected trap: scause=".spec_bytes() + hexadecimal(scause as nat)
            + ", stval=".spec_bytes() + hexadecimal(stval as nat) + ", sepc=".spec_bytes() + hexadecimal(sepc as nat),
        KernelPanic::UnknownSyscall(sysno) => "not implemented: ".spec_bytes() + decimal(sysno as nat),
        KernelPanic::ByteOutOfRange(value) => "not a byte: ".spec_bytes() + decimal(value as nat),
        KernelPanic::Console(err) => "console error".spec_bytes(),
        KernelPanic::BadUserPointer(addr) => "unreadable path at 0x".spec_bytes() + hexadecimal(addr as nat),
        KernelPanic::BadPath => "path is not UTF-8".spec_bytes(),
        KernelPanic::Process(e) => proc_error_text(e),
        KernelPanic::NoProcess => "[start_process] no process to start".spec_bytes(),
    }
}

/// The text for a refusal of the page allocator.
pub fn alloc_error_message(e: AllocError) -> (text: &'static str)
    ensures
        text.spec_bytes() == alloc_error_text(e),
{
    match e {
        AllocError::OutOfMemory => "Out of memory!",
        AllocError::OverFlow => "Page calculation overflowed!",
    }
}

/// The text for an image that cannot be loaded.
pub fn elf_error_message(e: ElfError) -> (text: &'static str)
    ensures
        text.spec_bytes() == elf_error_text(e),
{
    match e {
        ElfError::TruncatedHeader => "image shorter than an ELF header",
        ElfError::ProgramHeaderOutOfRange => "program header outside the image",
        ElfError::SegmentOutOfRange => "segment outside the image",
        ElfError::TooManySegments => "too many program headers",
    }
}

/// The text for a process that cannot be made.
pub fn proc_error_message(e: ProcError) -> (text: &'static str)
    ensures
        text.spec_bytes() == proc_error_text(e),
{
    match e {
        ProcError::NoFreeSlot => "create process failed!",
        ProcError::Alloc(e) => alloc_error_message(e),
        ProcError::BadSegment => "segment does not fit its frames",
        ProcError::Elf(e) => elf_error_message(e),
    }
}

/// The text that the kernel prints when it stops for the reason `p`.
pub fn panic_message(p: KernelPanic) -> (text: Vec<u8>)
    ensures
        text@ == panic_text(p),
{
    let mut text: Vec<u8> = Vec::new();
    match p {
        KernelPanic::UnexpectedTrap { scause, stval, sepc } => {
            push_text(&mut text, "[TRAP ] unexpected trap: scause=");
            push_hexadecimal(&mut text, scause);
            push_text(&mut text, ", stval=");
            push_hexadecimal(&mut text, stval);
            push_text(&mut text, ", sepc=");
            push_hexadecimal(&mut text, sepc);
        },
        KernelPanic::UnknownSyscall(sysno) => {
            push_text(&mut text, "not implemented: ");
            push_decimal(&mut text, sysno);
        },
        KernelPanic::ByteOutOfRange(value) => {
            push_text(&mut text, "not a byte: ");
            push_decimal(&mut text, value);
        },
        KernelPanic::Console(_) => {
            push_text(&mut text, "console error");
        },
        KernelPanic::BadUserPointer(addr) => {
            push_text(&mut text, "unreadable path at 0x");
            push_hexadecimal(&mut text, addr);
        },
        KernelPanic::BadPath => {
            push_text(&mut text, "path is not UTF-8");
        },
        KernelPanic::Process(e) => {
            push_text(&mut text, proc_error_message(e));
        },
        KernelPanic::NoProcess => {
            push_text(&mut text, "[start_process] no process to start");
        },
    }
    proof {
        assert(text@ =~= panic_text(p));
    }
    text
}

} // verus!
