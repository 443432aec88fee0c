//! Task control blocks: everything the kernel knows about one process.
use vstd::prelude::*;
use crate::config::{DEFAULT_PASS, DEFAULT_PRIORITY, DEFAULT_STRIDE, MAX_SYSCALL_NUM};
use crate::mm::{
    areas_wf, image_layout, page_ceil, page_floor, resize_allowed, resize_result, AreaView, ImageLayout,
    MemorySet, ceil_vpn, floor_vpn,
};
use crate::trap::{init_context, TrapContext, TrapView};

verus! {

/// Where a task is in its life.
#[derive(Clone, Copy, Debug, PartialEq, Eq, Structural)]
pub enum TaskStatus {
    /// Waiting for the processor.
    Ready,
    /// On the processor.
    Running,
    /// Exited, and kept until its parent collects the exit code.
    Zombie,
}

/// An open file as a task's descriptor table holds it. Copies of a handle
/// name the same open file.
#[derive(Clone, Copy, Debug)]
pub struct FileHandle {
    /// What the file system calls the open file.
    pub id: usize,
    /// Whether the file may be read through this handle.
    pub readable: bool,
    /// Whether the file may be written through this handle.
    pub writable: bool,
}

/// Handle of the standard input.
pub open spec fn stdin_handle() -> FileHandle {
    FileHandle { id: 0, readable: true, writable: false }
}

/// Handle of the standard output, which also serves as standard error.
pub open spec fn stdout_handle() -> FileHandle {
    FileHandle { id: 1, readable: false, writable: true }
}

/// The descriptor table of a fresh task: standard input, output and error.
pub open spec fn std_fds() -> Seq<Option<FileHandle>> {
    seq![Some(stdin_handle()), Some(stdout_handle()), Some(stdout_handle())]
}

/// Syscall counters that are all zero.
pub open spec fn zero_counts() -> Seq<u32> {
    Seq::new(MAX_SYSCALL_NUM as nat, |i: int| 0u32)
}

/// The mathematical content of a task control block.
pub struct TaskView {
    pub pid: usize,
    pub status: TaskStatus,
    pub parent: Option<usize>,
    pub children: Seq<usize>,
    pub memory: Seq<AreaView>,
    pub trap_cx: TrapView,
    pub heap_bottom: usize,
    pub program_brk: usize,
    pub fd_table: Seq<Option<FileHandle>>,
    pub priority: isize,
    pub stride: usize,
    pub pass: usize,
    pub syscall_times: Seq<u32>,
    pub start_time: Option<usize>,
    pub exit_code: i32,
}

impl TaskView {
    /// The invariant of a task: its areas do not overlap, it has one counter
    /// per syscall number, its priority is at least 2, its break is not
    /// below its page-aligned heap bottom, and no child is listed twice.
    pub open spec fn wf(self) -> bool {
        &&& areas_wf(self.memory)
        &&& self.syscall_times.len() == MAX_SYSCALL_NUM
        &&& self.priority >= 2
        &&& self.heap_bottom % 4096 == 0
        &&& self.heap_bottom <= self.program_brk
        &&& self.children.no_duplicates()
    }
}

/// The task that `TaskControlBlock::new` and `spawn` build from a loaded image.
pub open spec fn fresh_task(l: ImageLayout, pid: usize, parent: Option<usize>) -> TaskView {
    TaskView {
        pid,
        status: TaskStatus::Ready,
        parent,
        children: Seq::<usize>::empty(),
        memory: l.areas,
        trap_cx: init_context(l.entry as usize, l.user_sp as usize),
        heap_bottom: l.user_sp as usize,
        program_brk: l.user_sp as usize,
        fd_table: std_fds(),
        priority: DEFAULT_PRIORITY,
        stride: DEFAULT_STRIDE,
        pass: DEFAULT_PASS,
        syscall_times: zero_counts(),
        start_time: None,
        exit_code: 0,
    }
}

/// The child that `fork` makes of `parent`: the same memory contents,
/// registers, break, descriptors and priority; stride and pass at their
/// defaults; no children, no syscalls counted, not yet scheduled.
pub open spec fn forked_child(parent: TaskView, pid: usize) -> TaskView {
    TaskView {
        pid,
        status: TaskStatus::Ready,
        parent: Some(parent.pid),
        children: Seq::<usize>::empty(),
        memory: parent.memory,
        trap_cx: parent.trap_cx,
        heap_bottom: parent.heap_bottom,
        program_brk: parent.program_brk,
        fd_table: parent.fd_table,
        priority: parent.priority,
        stride: DEFAULT_STRIDE,
        pass: DEFAULT_PASS,
        syscall_times: zero_counts(),
        start_time: None,
        exit_code: 0,
    }
}

/// The task after it replaced its program by the one loaded as `l`.
pub open spec fn exec_result(t: TaskView, l: ImageLayout) -> TaskView {
    TaskView {
        memory: l.areas,
        trap_cx: init_context(l.entry as usize, l.user_sp as usize),
        heap_bottom: l.user_sp as usize,
        program_brk: l.user_sp as usize,
        ..t
    }
}

/// The inputs on which moving the break by `delta` succeeds: the new break
/// is representable and not below the heap bottom, the heap area is where
/// the break says, and no other area is in the way of the new heap.
pub open spec fn brk_allowed(t: TaskView, delta: int) -> bool {
    &&& t.heap_bottom <= t.program_brk + delta <= usize::MAX
    &&& resize_allowed(
        t.memory,
        page_floor(t.heap_bottom as int),
        page_ceil(t.program_brk as int),
        page_ceil(t.program_brk + delta),
    )
}

/// The task after its break moved by `delta`.
pub open spec fn brk_result(t: TaskView, delta: int) -> TaskView {
    TaskView {
        memory: resize_result(
            t.memory,
            page_floor(t.heap_bottom as int),
            page_ceil(t.program_brk as int),
            page_ceil(t.program_brk + delta),
        ),
        program_brk: (t.program_brk + delta) as usize,
        ..t
    }
}

/// The counters after one more call of syscall `num` was counted. A counter
/// that has reached the largest value stays there; a number without a
/// counter counts nowhere.
pub open spec fn counted(counts: Seq<u32>, num: int) -> Seq<u32> {
    if 0 <= num < counts.len() && counts[num] < u32::MAX {
        counts.update(num, (counts[num] + 1) as u32)
    } else {
        counts
    }
}

/// The task after a call of syscall `num` was counted for it, which
/// happens only while it is Running.
pub open spec fn syscall_counted(t: TaskView, num: int) -> TaskView {
    if t.status == TaskStatus::Running {
        TaskView { syscall_times: counted(t.syscall_times, num), ..t }
    } else {
        t
    }
}

/// Descriptor `fd` is the lowest free one of the table: it is empty or one
/// past the end, and every descriptor below it is taken.
pub open spec fn is_lowest_free(fds: Seq<Option<FileHandle>>, fd: int) -> bool {
    &&& 0 <= fd <= fds.len()
    &&& fd < fds.len() ==> fds[fd] is None
    &&& forall|j: int| 0 <= j < fd ==> (#[trigger] fds[j]) is Some
}

/// The lowest free descriptor of a table, which is its length when no slot is free.
pub open spec fn lowest_free(fds: Seq<Option<FileHandle>>) -> int {
    choose|fd: int| is_lowest_free(fds, fd)
}

/// A table has one lowest free descriptor.
pub proof fn lemma_lowest_free_unique(fds: Seq<Option<FileHandle>>, fd: int)
    requires
        is_lowest_free(fds, fd),
    ensures
        lowest_free(fds) == fd,
{
    let c = lowest_free(fds);
    assert(is_lowest_free(fds, c));
    if c < fd {
        assert(fds[c] is Some);
    } else if fd < c {
        assert(fds[fd] is Some);
    }
}

/// One process's complete state.
pub struct TaskControlBlock {
    pid: usize,
    status: TaskStatus,
    parent: Option<usize>,
    children: Vec<usize>,
    memory_set: MemorySet,
    trap_cx: TrapContext,
    heap_bottom: usize,
    program_brk: usize,
    fd_table: Vec<Option<FileHandle>>,
    priority: isize,
    stride: usize,
    pass: usize,
    syscall_times: [u32; MAX_SYSCALL_NUM],
    start_time: Option<usize>,
    exit_code: i32,
}

impl View for TaskControlBlock {
    type V = TaskView;

    closed spec fn view(&self) -> TaskView {
        TaskView {
            pid: self.pid,
            status: self.status,
            parent: self.parent,
            children: self.children@,
            memory: self.memory_set@,
            trap_cx: self.trap_cx@,
            heap_bottom: self.heap_bottom,
            program_brk: self.program_brk,
            fd_table: self.fd_table@,
            priority: self.priority,
            stride: self.stride,
            pass: self.pass,
            syscall_times: self.syscall_times@,
            start_time: self.start_time,
            exit_code: self.exit_code,
        }
    }
}

impl TaskControlBlock {
    /// The invariant of a task control block.
    pub open spec fn wf(&self) -> bool {
        self@.wf()
    }

    /// A task in the Ready state that runs the program in `image`: a fresh
    /// address space, registers set to the entry point and the stack
    /// pointer, the three standard descriptors, never scheduled. `None`
    /// exactly when the image cannot be loaded.
    pub fn new(image: &[u8], pid: usize) -> (r: Option<TaskControlBlock>)
        ensures
            r is Some <==> image_layout(image@) is Some,
            r matches Some(t) ==> t.wf() && t@ == fresh_task(image_layout(image@).unwrap(), pid, None),
    {
        Self::build(image, pid, None)
    }

    fn build(image: &[u8], pid: usize, parent: Option<usize>) -> (r: Option<TaskControlBlock>)
        ensures
            r is Some <==> image_layout(image@) is Some,
            r matches Some(t) ==> t.wf() && t@ == fresh_task(image_layout(image@).unwrap(), pid, parent),
    {
        let (memory_set, user_sp, entry) = match MemorySet::from_elf(image) {
            Some(loaded) => loaded,
            None => { return None; },
        };
        let mut fd_table: Vec<Option<FileHandle>> = Vec::new();
        fd_table.push(Some(FileHandle { id: 0, readable: true, writable: false }));
        fd_table.push(Some(FileHandle { id: 1, readable: false, writable: true }));
        fd_table.push(Some(FileHandle { id: 1, readable: false, writable: true }));
        let t = TaskControlBlock {
            pid,
            status: TaskStatus::Ready,
            parent,
            children: Vec::new(),
            memory_set,
            trap_cx: TrapContext::app_init_context(entry, user_sp),
            heap_bottom: user_sp,
            program_brk: user_sp,
            fd_table,
            priority: DEFAULT_PRIORITY,
            stride: DEFAULT_STRIDE,
            pass: DEFAULT_PASS,
            syscall_times: [0u32; MAX_SYSCALL_NUM],
            start_time: None,
            exit_code: 0,
        };
        proof {
            assert(t@.fd_table =~= std_fds());
            assert(t@.syscall_times =~= zero_counts());
            assert(t@.children =~= Seq::<usize>::empty());
        }
        Some(t)
    }

    /// The task's pid.
    pub fn getpid(&self) -> (r: usize)
        ensures
            r == self@.pid,
    {
        self.pid
    }

    /// The task's status.
    pub fn status(&self) -> (r: TaskStatus)
        ensures
            r == self@.status,
    {
        self.status
    }

    /// Whether the task has exited.
    pub fn is_zombie(&self) -> (r: bool)
        ensures
            r == (self@.status == TaskStatus::Zombie),
    {
        self.status == TaskStatus::Zombie
    }

    /// Pid of the task's parent.
    pub fn parent(&self) -> (r: Option<usize>)
        ensures
            r == self@.parent,
    {
        self.parent
    }

    /// Pids of the task's children, oldest first.
    pub fn children(&self) -> (r: &Vec<usize>)
        ensures
            r@ == self@.children,
    {
        &self.children
    }

    /// The task's address space.
    pub fn memory_set(&self) -> (r: &MemorySet)
        ensures
            r@ == self@.memory,
    {
        &self.memory_set
    }

    /// The task's saved registers.
    pub fn get_trap_cx(&self) -> (r: TrapContext)
        ensures
            r@ == self@.trap_cx,
    {
        self.trap_cx
    }

    /// The bottom of the task's heap.
    pub fn heap_bottom(&self) -> (r: usize)
        ensures
            r == self@.heap_bottom,
    {
        self.heap_bottom
    }

    /// The task's program break.
    pub fn program_brk(&self) -> (r: usize)
        ensures
            r == self@.program_brk,
    {
        self.program_brk
    }

    /// The task's priority.
    pub fn get_priority(&self) -> (r: isize)
        ensures
            r == self@.priority,
    {
        self.priority
    }

    /// The task's stride.
    pub fn get_stride(&self) -> (r: usize)
        ensures
            r == self@.stride,
    {
        self.stride
    }

    /// The task's pass.
    pub fn get_pass(&self) -> (r: usize)
        ensures
            r == self@.pass,
    {
        self.pass
    }

    /// The task's syscall counters.
    pub fn get_sys_call(&self) -> (r: [u32; MAX_SYSCALL_NUM])
        ensures
            r@ == self@.syscall_times,
    {
        self.syscall_times
    }

    /// When the task was first scheduled, if it ever was.
    pub fn start_time(&self) -> (r: Option<usize>)
        ensures
            r == self@.start_time,
    {
        self.start_time
    }

    /// The task's exit code, which means something once the task is a zombie.
    pub fn exit_code(&self) -> (r: i32)
        ensures
            r == self@.exit_code,
    {
        self.exit_code
    }

    /// The handle in descriptor `fd`, if the descriptor is open.
    pub fn file(&self, fd: usize) -> (r: Option<FileHandle>)
        ensures
            r == if fd < self@.fd_table.len() { self@.fd_table[fd as int] } else { None::<FileHandle> },
    {
        if fd < self.fd_table.len() {
            self.fd_table[fd]
        } else {
            None
        }
    }
}

impl TaskControlBlock {
    /// Makes a child of `self` under `pid`: see [`forked_child`]. The
    /// child gets a copy of the address space with backing of its own, and
    /// joins the end of the parent's children. The caller sets the child's
    /// return-value register.
    pub fn fork(&mut self, pid: usize) -> (child: TaskControlBlock)
        requires
            old(self).wf(),
            !old(self)@.children.contains(pid),
        ensures
            final(self).wf(),
            child.wf(),
            child@ == forked_child(old(self)@, pid),
            final(self)@ == (TaskView { children: old(self)@.children.push(pid), ..old(self)@ }),
    {
        let memory_set = MemorySet::from_existed_user(&self.memory_set);
        let fd_table = self.fd_table.clone();
        let child = TaskControlBlock {
            pid,
            status: TaskStatus::Ready,
            parent: Some(self.pid),
            children: Vec::new(),
            memory_set,
            trap_cx: self.trap_cx,
            heap_bottom: self.heap_bottom,
            program_brk: self.program_brk,
            fd_table,
            priority: self.priority,
            stride: DEFAULT_STRIDE,
            pass: DEFAULT_PASS,
            syscall_times: [0u32; MAX_SYSCALL_NUM],
            start_time: None,
            exit_code: 0,
        };
        self.children.push(pid);
        proof {
            assert(child@.fd_table =~= old(self)@.fd_table);
            assert(child@.syscall_times =~= zero_counts());
            assert(child@.children =~= Seq::<usize>::empty());
            lemma_push_no_duplicates(old(self)@.children, pid);
        }
        child
    }

    /// Replaces the task's program by the one in `image`: a new address
    /// space, registers and break, with pid, parent, children, descriptors
    /// and scheduling state kept. When the image cannot be loaded the task
    /// stays exactly as it was and the result is `false`.
    pub fn exec(&mut self, image: &[u8]) -> (ok: bool)
        requires
            old(self).wf(),
        ensures
            final(self).wf(),
            ok == image_layout(image@) is Some,
            ok ==> final(self)@ == exec_result(old(self)@, image_layout(image@).unwrap()),
            !ok ==> final(self)@ == old(self)@,
    {
        match MemorySet::from_elf(image) {
            Some((memory_set, user_sp, entry)) => {
                self.memory_set = memory_set;
                self.trap_cx = TrapContext::app_init_context(entry, user_sp);
                self.heap_bottom = user_sp;
                self.program_brk = user_sp;
                true
            },
            None => false,
        }
    }

    /// Makes a child under `pid` that runs the program in `image`, without
    /// copying the parent's address space. The child joins the end of the
    /// parent's children. `None`, and no change, when the image cannot be
    /// loaded.
    pub fn spawn(&mut self, image: &[u8], pid: usize) -> (r: Option<TaskControlBlock>)
        requires
            old(self).wf(),
            !old(self)@.children.contains(pid),
        ensures
            final(self).wf(),
            r is Some <==> image_layout(image@) is Some,
            r matches Some(child) ==> {
                &&& child.wf()
                &&& child@ == fresh_task(image_layout(image@).unwrap(), pid, Some(old(self)@.pid))
                &&& final(self)@ == (TaskView { children: old(self)@.children.push(pid), ..old(self)@ })
            },
            r is None ==> final(self)@ == old(self)@,
    {
        match Self::build(image, pid, Some(self.pid)) {
            Some(child) => {
                self.children.push(pid);
                proof {
                    lemma_push_no_duplicates(old(self)@.children, pid);
                }
                Some(child)
            },
            None => None,
        }
    }

    /// Records the exit code and makes the task a zombie. Children and
    /// address space stay as they are.
    pub fn exit(&mut self, code: i32)
        ensures
            final(self)@ == (TaskView { status: TaskStatus::Zombie, exit_code: code, ..old(self)@ }),
    {
        self.exit_code = code;
        self.status = TaskStatus::Zombie;
    }

    /// Moves the program break by `delta` bytes and resizes the heap area to
    /// match. Returns the previous break; `None`, and no change, on the
    /// inputs that [`brk_allowed`] excludes.
    pub fn change_program_brk(&mut self, delta: i32) -> (r: Option<usize>)
        requires
            old(self).wf(),
        ensures
            final(self).wf(),
            r is Some <==> brk_allowed(old(self)@, delta as int),
            r matches Some(prev) ==> prev == old(self)@.program_brk && final(self)@ == brk_result(
                old(self)@,
                delta as int,
            ),
            r is None ==> final(self)@ == old(self)@,
    {
        let old_brk = self.program_brk;
        let new_brk: usize = if delta >= 0 {
            let up: usize = delta as usize;
            if up > usize::MAX - old_brk {
                return None;
            }
            old_brk + up
        } else {
            let down: usize = (-(delta as i64)) as usize;
            if down > old_brk - self.heap_bottom {
                return None;
            }
            old_brk - down
        };
        let lo = floor_vpn(self.heap_bottom);
        let old_hi = ceil_vpn(old_brk);
        let new_hi = ceil_vpn(new_brk);
        if !self.memory_set.resize_area(lo, old_hi, new_hi) {
            return None;
        }
        self.program_brk = new_brk;
        Some(old_brk)
    }

    /// Sets the priority. The caller keeps it at 2 or above.
    pub fn set_priority(&mut self, priority: isize)
        requires
            priority >= 2,
        ensures
            final(self)@ == (TaskView { priority, ..old(self)@ }),
    {
        self.priority = priority;
    }

    /// Sets the stride.
    pub fn set_stride(&mut self, stride: usize)
        ensures
            final(self)@ == (TaskView { stride, ..old(self)@ }),
    {
        self.stride = stride;
    }

    /// Sets the pass.
    pub fn set_pass(&mut self, pass: usize)
        ensures
            final(self)@ == (TaskView { pass, ..old(self)@ }),
    {
        self.pass = pass;
    }

    /// Counts one more call of syscall `num` if the task is Running, and
    /// changes nothing if it is not: see [`syscall_counted`].
    pub fn sys_call_add(&mut self, num: usize)
        ensures
            final(self)@ == syscall_counted(old(self)@, num as int),
    {
        if self.status == TaskStatus::Running && num < MAX_SYSCALL_NUM {
            let n = self.syscall_times[num];
            if n < u32::MAX {
                self.syscall_times[num] = n + 1;
            }
        }
    }

    /// Replaces the saved registers.
    pub fn set_trap_cx(&mut self, cx: TrapContext)
        ensures
            final(self)@ == (TaskView { trap_cx: cx@, ..old(self)@ }),
    {
        self.trap_cx = cx;
    }

    /// The lowest free descriptor, growing the table by one empty slot when
    /// every slot is taken.
    pub fn alloc_fd(&mut self) -> (fd: usize)
        ensures
            fd == lowest_free(old(self)@.fd_table),
            is_lowest_free(old(self)@.fd_table, fd as int),
            final(self)@ == (TaskView {
                fd_table: if fd < old(self)@.fd_table.len() {
                    old(self)@.fd_table
                } else {
                    old(self)@.fd_table.push(None)
                },
                ..old(self)@
            }),
    {
        let mut i: usize = 0;
        while i < self.fd_table.len()
            invariant
                i <= self.fd_table.len(),
                *self == *old(self),
                forall|j: int| 0 <= j < i ==> (#[trigger] self.fd_table@[j]) is Some,
            decreases self.fd_table.len() - i,
        {
            if self.fd_table[i].is_none() {
                proof {
                    lemma_lowest_free_unique(self.fd_table@, i as int);
                }
                return i;
            }
            i += 1;
        }
        proof {
            lemma_lowest_free_unique(self.fd_table@, i as int);
        }
        self.fd_table.push(None);
        i
    }

    /// Puts `file` into descriptor `fd`, or empties the descriptor.
    pub fn set_file(&mut self, fd: usize, file: Option<FileHandle>)
        requires
            fd < old(self)@.fd_table.len(),
        ensures
            final(self)@ == (TaskView { fd_table: old(self)@.fd_table.update(fd as int, file), ..old(self)@ }),
    {
        self.fd_table[fd] = file;
    }
}

/// A sequence without duplicates stays so when a value it lacks is pushed.
pub proof fn lemma_push_no_duplicates(s: Seq<usize>, v: usize)
    requires
        s.no_duplicates(),
        !s.contains(v),
    ensures
        s.push(v).no_duplicates(),
{
    let t = s.push(v);
    assert forall|i: int, j: int| 0 <= i < t.len() && 0 <= j < t.len() && i != j implies t[i] != t[j] by {
        if i < s.len() && j < s.len() {
            assert(s[i] != s[j]);
        } else if i < s.len() {
            assert(s.contains(s[i]));
        } else {
            assert(s.contains(s[j]));
        }
    }
}

impl TaskControlBlock {
    /// Sets the status. Only the scheduler moves a task between states.
    pub(crate) fn set_status(&mut self, status: TaskStatus)
        ensures
            final(self)@ == (TaskView { status, ..old(self)@ }),
    {
        self.status = status;
    }

    /// Records `now` as the time of the first scheduling, unless one is recorded.
    pub(crate) fn note_scheduled(&mut self, now: usize)
        ensures
            final(self)@ == (TaskView { start_time: first_start(old(self)@.start_time, now), ..old(self)@ }),
    {
        if self.start_time.is_none() {
            self.start_time = Some(now);
        }
    }

    /// Takes `pid` out of the children.
    pub(crate) fn remove_child(&mut self, idx: usize)
        requires
            idx < old(self)@.children.len(),
        ensures
            final(self)@ == (TaskView { children: old(self)@.children.remove(idx as int), ..old(self)@ }),
    {
        self.children.remove(idx);
    }

    /// The task's address space, to change it.
    pub(crate) fn memory_set_mut(&mut self) -> (r: &mut MemorySet)
        ensures
            r@ == old(self)@.memory,
            final(self)@ == (TaskView { memory: final(r)@, ..old(self)@ }),
    {
        &mut self.memory_set
    }
}

/// A task's start time once it was scheduled at `now`: the time of its first scheduling.
pub open spec fn first_start(start_time: Option<usize>, now: usize) -> Option<usize> {
    if start_time is None {
        Some(now)
    } else {
        start_time
    }
}

/// Counting a call of syscall `num` raises the counter of `num` by exactly
/// one while the task is Running and the counter is below its largest
/// value, leaves every other counter alone, and leaves a task that is Ready
/// or a zombie exactly as it was.
pub proof fn lemma_counted_once(t: TaskView, num: int)
    requires
        t.wf(),
        0 <= num < MAX_SYSCALL_NUM,
    ensures
        t.status != TaskStatus::Running ==> syscall_counted(t, num) == t,
        t.status == TaskStatus::Running && t.syscall_times[num] < u32::MAX ==> syscall_counted(
            t,
            num,
        ).syscall_times[num] == t.syscall_times[num] + 1,
        forall|other: int|
            0 <= other < MAX_SYSCALL_NUM && other != num ==> syscall_counted(t, num).syscall_times[other]
                == #[trigger] t.syscall_times[other],
        syscall_counted(t, num) == (TaskView { syscall_times: syscall_counted(t, num).syscall_times, ..t }),
{
}

} // verus!
