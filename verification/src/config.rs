//! Constants shared by the whole kernel core.
use vstd::prelude::*;

verus! {

/// Size of one page of virtual memory, in bytes.
pub const PAGE_SIZE: usize = 4096;

/// Number of syscall counters kept per task.
pub const MAX_SYSCALL_NUM: usize = 500;

/// The stride scheduler divides this constant by a task's priority to get its pass.
pub const BIGSTRIDE: usize = 0x7FFF_FFFF;

/// Priority of a freshly created task.
pub const DEFAULT_PRIORITY: isize = 16;

/// Stride of a freshly created task.
pub const DEFAULT_STRIDE: usize = 0;

/// Pass of a freshly created task.
pub const DEFAULT_PASS: usize = BIGSTRIDE / 16;

/// Size of the user stack given to every program, in bytes.
pub const USER_STACK_SIZE: usize = 8192;

pub const SYSCALL_UNLINKAT: usize = 35;
pub const SYSCALL_LINKAT: usize = 37;
pub const SYSCALL_OPEN: usize = 56;
pub const SYSCALL_CLOSE: usize = 57;
pub const SYSCALL_READ: usize = 63;
pub const SYSCALL_WRITE: usize = 64;
pub const SYSCALL_FSTAT: usize = 80;
pub const SYSCALL_EXIT: usize = 93;
pub const SYSCALL_YIELD: usize = 124;
pub const SYSCALL_SET_PRIORITY: usize = 140;
pub const SYSCALL_GET_TIME: usize = 169;
pub const SYSCALL_GETPID: usize = 172;
pub const SYSCALL_SBRK: usize = 214;
pub const SYSCALL_MUNMAP: usize = 215;
pub const SYSCALL_FORK: usize = 220;
pub const SYSCALL_EXEC: usize = 221;
pub const SYSCALL_MMAP: usize = 222;
pub const SYSCALL_WAITPID: usize = 260;
pub const SYSCALL_SPAWN: usize = 400;
pub const SYSCALL_TASK_INFO: usize = 410;

/// The largest page number whose pages end at a representable address.
pub open spec fn max_vpn() -> int {
    usize::MAX as int / 4096
}

/// Executable form of [`max_vpn`].
pub fn max_vpn_exec() -> (r: usize)
    ensures
        r == max_vpn(),
{
    usize::MAX / PAGE_SIZE
}

} // verus!
