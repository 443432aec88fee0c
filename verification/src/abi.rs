//! The values that syscalls hand to user programs through memory, and their
//! layout there: little-endian, fields at their natural alignment, with
//! `usize` taking eight bytes.
use vstd::prelude::*;
use crate::config::MAX_SYSCALL_NUM;
use crate::elf::{u32_at, u64_at};
use crate::task::TaskStatus;

verus! {

/// A wall-clock time, split into seconds and microseconds.
#[derive(Clone, Copy, Debug)]
pub struct TimeVal {
    pub sec: usize,
    pub usec: usize,
}

/// What `task_info` reports about a task.
#[derive(Clone, Copy, Debug)]
pub struct TaskInfo {
    /// The task's status.
    pub status: TaskStatus,
    /// How often the task called each syscall.
    pub syscall_times: [u32; MAX_SYSCALL_NUM],
    /// Time the task has been running since it was first scheduled.
    pub time: usize,
}

/// Number of bytes an exit code takes in user memory.
pub const EXIT_CODE_SIZE: usize = 4;

/// Number of bytes a `TimeVal` takes in user memory.
pub const TIME_VAL_SIZE: usize = 16;

/// Number of bytes a `TaskInfo` takes in user memory: the status byte and
/// three bytes of padding, the counters, four bytes of padding, the time.
pub const TASK_INFO_SIZE: usize = 2016;

/// Number of bytes a file status record takes in user memory.
pub const STAT_SIZE: usize = 80;

/// The four bytes of `v`, lowest first.
pub open spec fn u32_le(v: u32) -> Seq<u8> {
    seq![
        (v as int % 256) as u8,
        (v as int / 256 % 256) as u8,
        (v as int / 65536 % 256) as u8,
        (v as int / 16777216) as u8,
    ]
}

/// The eight bytes of `v`, lowest first.
pub open spec fn u64_le(v: u64) -> Seq<u8> {
    u32_le((v as int % 4294967296) as u32) + u32_le((v as int / 4294967296) as u32)
}

/// The four bytes of `v` in two's complement, lowest first.
pub open spec fn i32_le(v: i32) -> Seq<u8> {
    u32_le(
        if v >= 0 {
            v as u32
        } else {
            (v + 4294967296) as u32
        },
    )
}

/// The byte that stands for a status.
pub open spec fn status_code(s: TaskStatus) -> u8 {
    match s {
        TaskStatus::Ready => 1,
        TaskStatus::Running => 2,
        TaskStatus::Zombie => 3,
    }
}

/// The bytes of the first `n` counters, each lowest byte first.
pub open spec fn counts_le(counts: Seq<u32>, n: int) -> Seq<u8>
    decreases n,
{
    if n <= 0 {
        Seq::<u8>::empty()
    } else {
        counts_le(counts, n - 1) + u32_le(counts[n - 1])
    }
}

/// A `TimeVal` as it lies in user memory.
pub open spec fn time_val_bytes(t: TimeVal) -> Seq<u8> {
    u64_le(t.sec as u64) + u64_le(t.usec as u64)
}

/// A `TaskInfo` as it lies in user memory. Padding bytes are zero.
pub open spec fn task_info_bytes(status: TaskStatus, counts: Seq<u32>, time: usize) -> Seq<u8> {
    seq![status_code(status), 0u8, 0u8, 0u8] + counts_le(counts, counts.len() as int) + seq![0u8, 0u8, 0u8, 0u8]
        + u64_le(time as u64)
}

/// Reading four little-endian bytes gives back the number they were made from.
pub proof fn lemma_u32_round_trip(v: u32)
    ensures
        u32_le(v).len() == 4,
        u32_at(u32_le(v), 0) == v,
{
}

/// Reading eight little-endian bytes gives back the number they were made from.
pub proof fn lemma_u64_round_trip(v: u64)
    ensures
        u64_le(v).len() == 8,
        u64_at(u64_le(v), 0) == v,
{
    let lo = (v as int % 4294967296) as u32;
    let hi = (v as int / 4294967296) as u32;
    lemma_u32_round_trip(lo);
    lemma_u32_round_trip(hi);
    let b = u64_le(v);
    assert(b[0] == u32_le(lo)[0] && b[1] == u32_le(lo)[1] && b[2] == u32_le(lo)[2] && b[3] == u32_le(lo)[3]);
    assert(b[4] == u32_le(hi)[0] && b[5] == u32_le(hi)[1] && b[6] == u32_le(hi)[2] && b[7] == u32_le(hi)[3]);
}

/// Appends the four bytes of `v`, lowest first.
pub fn push_u32(out: &mut Vec<u8>, v: u32)
    ensures
        final(out)@ == old(out)@ + u32_le(v),
{
    out.push((v % 256) as u8);
    out.push((v / 256 % 256) as u8);
    out.push((v / 65536 % 256) as u8);
    out.push((v / 16777216) as u8);
    assert(out@ =~= old(out)@ + u32_le(v));
}

/// Appends the eight bytes of `v`, lowest first.
pub fn push_u64(out: &mut Vec<u8>, v: u64)
    ensures
        final(out)@ == old(out)@ + u64_le(v),
{
    push_u32(out, (v % 4294967296) as u32);
    push_u32(out, (v / 4294967296) as u32);
    assert(out@ =~= old(out)@ + u64_le(v));
}

/// The four bytes of `v` in two's complement, lowest first.
pub fn encode_i32(v: i32) -> (out: Vec<u8>)
    ensures
        out@ == i32_le(v),
{
    let u: u32 = if v >= 0 {
        v as u32
    } else {
        (v as i64 + 4294967296) as u32
    };
    let mut out: Vec<u8> = Vec::new();
    push_u32(&mut out, u);
    assert(out@ =~= i32_le(v));
    out
}

impl TimeVal {
    /// The time `us` microseconds after the start of the clock.
    pub fn from_micros(us: usize) -> (r: TimeVal)
        ensures
            r.sec == us / 1_000_000,
            r.usec == us % 1_000_000,
    {
        TimeVal { sec: us / 1_000_000, usec: us % 1_000_000 }
    }

    /// The value as it lies in user memory.
    pub fn to_bytes(&self) -> (out: Vec<u8>)
        ensures
            out@ == time_val_bytes(*self),
            out@.len() == TIME_VAL_SIZE,
    {
        let mut out: Vec<u8> = Vec::new();
        push_u64(&mut out, self.sec as u64);
        push_u64(&mut out, self.usec as u64);
        assert(out@ =~= time_val_bytes(*self));
        out
    }
}

/// The encoded counters take four bytes each.
pub proof fn lemma_counts_len(counts: Seq<u32>, n: int)
    requires
        0 <= n,
    ensures
        counts_le(counts, n).len() == 4 * n,
    decreases n,
{
    if n > 0 {
        lemma_counts_len(counts, n - 1);
    }
}

impl TaskInfo {
    /// The value as it lies in user memory.
    pub fn to_bytes(&self) -> (out: Vec<u8>)
        ensures
            out@ == task_info_bytes(self.status, self.syscall_times@, self.time),
            out@.len() == TASK_INFO_SIZE,
    {
        let mut out: Vec<u8> = Vec::new();
        let code: u8 = match self.status {
            TaskStatus::Ready => 1,
            TaskStatus::Running => 2,
            TaskStatus::Zombie => 3,
        };
        out.push(code);
        out.push(0);
        out.push(0);
        out.push(0);
        let ghost head = out@;
        assert(head =~= seq![status_code(self.status), 0u8, 0u8, 0u8]);
        let mut i: usize = 0;
        while i < MAX_SYSCALL_NUM
            invariant
                i <= MAX_SYSCALL_NUM,
                out@ == head + counts_le(self.syscall_times@, i as int),
            decreases MAX_SYSCALL_NUM - i,
        {
            push_u32(&mut out, self.syscall_times[i]);
            i += 1;
            assert(out@ =~= head + counts_le(self.syscall_times@, i as int));
        }
        out.push(0);
        out.push(0);
        out.push(0);
        out.push(0);
        push_u64(&mut out, self.time as u64);
        proof {
            lemma_counts_len(self.syscall_times@, MAX_SYSCALL_NUM as int);
            assert(out@ =~= task_info_bytes(self.status, self.syscall_times@, self.time));
        }
        out
    }
}

/// What the file system reports about a file.
#[derive(Clone, Copy, Debug)]
pub struct Stat {
    /// Number of the device that holds the file.
    pub dev: u64,
    /// Number of the file's inode.
    pub ino: u64,
    /// Kind of the file.
    pub mode: u32,
    /// Number of names the file has.
    pub nlink: u32,
}

/// Mode of a directory.
pub const STAT_MODE_DIR: u32 = 0o040000;

/// Mode of an ordinary file.
pub const STAT_MODE_FILE: u32 = 0o100000;

/// A `Stat` as it lies in user memory: the four fields, then padding of zero bytes.
pub open spec fn stat_bytes(st: Stat) -> Seq<u8> {
    u64_le(st.dev) + u64_le(st.ino) + u32_le(st.mode) + u32_le(st.nlink) + Seq::new(56, |i: int| 0u8)
}

impl Stat {
    /// The value as it lies in user memory.
    pub fn to_bytes(&self) -> (out: Vec<u8>)
        ensures
            out@ == stat_bytes(*self),
            out@.len() == STAT_SIZE,
    {
        let mut out: Vec<u8> = Vec::new();
        push_u64(&mut out, self.dev);
        push_u64(&mut out, self.ino);
        push_u32(&mut out, self.mode);
        push_u32(&mut out, self.nlink);
        let ghost head = out@;
        let mut i: usize = 0;
        while i < 56
            invariant
                i <= 56,
                out@ == head + Seq::new(i as nat, |j: int| 0u8),
            decreases 56 - i,
        {
            out.push(0);
            i += 1;
            assert(out@ =~= head + Seq::new(i as nat, |j: int| 0u8));
        }
        assert(out@ =~= stat_bytes(*self));
        out
    }
}

} // verus!
