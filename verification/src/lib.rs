//! An executable, machine-checked model of the core of a small multitasking
//! kernel for 64-bit RISC-V: physical page allocation, Sv39 page tables, ELF
//! loading, the process table with its round-robin scheduler, context
//! switching, and the trap path with syscall dispatch.
//!
//! The hart, its control registers and physical memory are plain values, so
//! every transition of the kernel is an ordinary function with a contract.

pub mod addrspace;
pub mod allocator;
pub mod bytes;
pub mod console;
pub mod csr;
pub mod hart;
pub mod heap;
pub mod kernel;
pub mod ksyscall;
pub mod loadelf;
pub mod log;
pub mod message;
pub mod pagetable;
pub mod paging;
pub mod physmem;
pub mod proc;
pub mod spawn;
pub mod switch;
pub mod symbols;
pub mod timer;
pub mod trap;
pub mod userlib;
pub mod utils;
pub mod vfs;
