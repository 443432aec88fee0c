//! The process and memory core of a small single-core teaching kernel:
//! address spaces made of page-aligned areas, task control blocks, a stride
//! scheduler over a task table, and the syscalls that drive them.
pub mod abi;
pub mod config;
pub mod elf;
pub mod loader;
pub mod manager;
pub mod mm;
pub mod syscall;
pub mod task;
pub mod trap;
