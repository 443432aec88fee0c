//! The syscalls, each as a function of the task table and the raw arguments.
pub mod fs;
pub mod process;
