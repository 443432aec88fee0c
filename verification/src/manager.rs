//! The task table and scheduler: owns every task control block, keeps the
//! queue of ready tasks, and knows which task has the processor.
use vstd::prelude::*;
use std::collections::VecDeque;
use crate::abi::{encode_i32, i32_le, EXIT_CODE_SIZE};
use crate::config::{BIGSTRIDE, MAX_SYSCALL_NUM};
use crate::mm::{
    areas_write, bytes_at, bytes_mapped, image_layout, str_at, lemma_write_keeps_shape, mmap_allowed,
    mmap_result, munmap_allowed, munmap_result,
};
use crate::task::{
    brk_allowed, brk_result, exec_result, forked_child, fresh_task, lemma_push_no_duplicates, lowest_free,
    syscall_counted, FileHandle, TaskControlBlock, TaskStatus, TaskView,
};
use crate::trap::{returning, TrapContext};

verus! {

/// The mathematical content of the task table. A task's pid is its index in
/// `tasks`; the slot of a task that was collected by its parent is empty.
pub struct KernelView {
    pub tasks: Seq<Option<TaskView>>,
    pub ready_queue: Seq<usize>,
    pub current: Option<usize>,
}

impl KernelView {
    /// A task with this pid exists.
    pub open spec fn live(self, pid: int) -> bool {
        0 <= pid < self.tasks.len() && self.tasks[pid] is Some
    }

    /// The task with this pid.
    pub open spec fn task(self, pid: int) -> TaskView {
        self.tasks[pid].unwrap()
    }

    /// The table with the task `t` in slot `pid`.
    pub open spec fn with_task(self, pid: int, t: TaskView) -> KernelView {
        KernelView { tasks: self.tasks.update(pid, Some(t)), ..self }
    }

    /// The table can take one more task: the next pid still fits the
    /// signed return value of a syscall.
    pub open spec fn has_room(self) -> bool {
        self.tasks.len() < isize::MAX
    }

    /// The task that has the processor.
    pub open spec fn cur(self) -> TaskView {
        self.task(self.current.unwrap() as int)
    }

    /// The table with `t` in the slot of the task that has the processor.
    pub open spec fn with_cur(self, t: TaskView) -> KernelView {
        self.with_task(self.current.unwrap() as int, t)
    }

    /// The pid that the next new task gets.
    pub open spec fn next_pid(self) -> usize {
        self.tasks.len() as usize
    }

    /// The invariant of the task table:
    /// every pid fits the signed return value of a syscall;
    /// every task is well formed and sits in the slot of its pid;
    /// the ready queue holds Ready tasks, none of them twice;
    /// the current task, and no other, is Running, and a Running task has a start time;
    /// every listed child exists and names the lister as its parent.
    pub open spec fn wf(self) -> bool {
        &&& self.tasks.len() <= isize::MAX
        &&& forall|i: int| #[trigger] self.live(i) ==> self.task(i).wf() && self.task(i).pid == i
        &&& forall|q: int|
            0 <= q < self.ready_queue.len() ==> self.live(#[trigger] self.ready_queue[q] as int) && self.task(
                self.ready_queue[q] as int,
            ).status == TaskStatus::Ready
        &&& self.ready_queue.no_duplicates()
        &&& self.current matches Some(c) ==> self.live(c as int) && self.task(c as int).status
            == TaskStatus::Running
        &&& forall|i: int| #[trigger]
            self.live(i) && self.task(i).status == TaskStatus::Running ==> self.current == Some(i as usize)
                && self.task(i).start_time is Some
        &&& forall|i: int, j: int|
            self.live(i) && 0 <= j < self.task(i).children.len() ==> self.live(
                #[trigger] self.task(i).children[j] as int,
            ) && self.task(self.task(i).children[j] as int).parent == Some(i as usize)
    }
}

/// The task table and scheduler.
pub struct TaskManager {
    tasks: Vec<Option<TaskControlBlock>>,
    ready_queue: VecDeque<usize>,
    current: Option<usize>,
}

/// The content of one slot of the table.
pub open spec fn slot_view(slot: Option<TaskControlBlock>) -> Option<TaskView> {
    match slot {
        Some(t) => Some(t@),
        None => None,
    }
}

impl View for TaskManager {
    type V = KernelView;

    closed spec fn view(&self) -> KernelView {
        KernelView {
            tasks: Seq::new(self.tasks@.len(), |i: int| slot_view(self.tasks@[i])),
            ready_queue: self.ready_queue@,
            current: self.current,
        }
    }
}

impl TaskManager {
    /// The invariant of the task table.
    pub open spec fn wf(&self) -> bool {
        self@.wf()
    }

    /// An empty table: no task, nothing ready, nothing running.
    pub fn new() -> (r: TaskManager)
        ensures
            r.wf(),
            r@ == (KernelView {
                tasks: Seq::<Option<TaskView>>::empty(),
                ready_queue: Seq::<usize>::empty(),
                current: None,
            }),
    {
        let r = TaskManager { tasks: Vec::new(), ready_queue: VecDeque::new(), current: None };
        assert(r@.tasks =~= Seq::<Option<TaskView>>::empty());
        r
    }

    /// Number of slots in the table, which is the pid of the next new task.
    pub fn task_count(&self) -> (r: usize)
        ensures
            r == self@.tasks.len(),
    {
        self.tasks.len()
    }

    /// The task with this pid, if there is one.
    pub fn task(&self, pid: usize) -> (r: Option<&TaskControlBlock>)
        ensures
            r is Some <==> self@.live(pid as int),
            r matches Some(t) ==> t@ == self@.task(pid as int),
    {
        if pid < self.tasks.len() {
            self.tasks[pid].as_ref()
        } else {
            None
        }
    }

    /// Pid of the task that has the processor.
    pub fn current(&self) -> (r: Option<usize>)
        ensures
            r == self@.current,
    {
        self.current
    }

    /// Number of tasks in the ready queue.
    pub fn ready_count(&self) -> (r: usize)
        ensures
            r == self@.ready_queue.len(),
    {
        self.ready_queue.len()
    }

    /// The task that has the processor.
    fn current_mut(&mut self) -> (t: &mut TaskControlBlock)
        requires
            old(self).wf(),
            old(self)@.current is Some,
        ensures
            *t == old(self).tasks@[old(self).current.unwrap() as int].unwrap(),
            final(self).tasks@ == old(self).tasks@.update(
                old(self).current.unwrap() as int,
                Some(*final(t)),
            ),
            final(self).ready_queue == old(self).ready_queue,
            final(self).current == old(self).current,
    {
        let c = self.current.unwrap();
        assert(self@.live(c as int));
        match &mut self.tasks[c] {
            Some(t) => t,
            None => vstd::pervasive::unreached(),
        }
    }
}

/// Stride of the task at position `q` of the ready queue.
pub open spec fn stride_of(k: KernelView, q: int) -> usize {
    k.task(k.ready_queue[q] as int).stride
}

/// Position `idx` is the one the stride scheduler picks: no task in the
/// ready queue has a smaller stride, and every task before it has a larger one.
pub open spec fn is_stride_pick(k: KernelView, idx: int) -> bool {
    &&& 0 <= idx < k.ready_queue.len()
    &&& forall|j: int| 0 <= j < k.ready_queue.len() ==> stride_of(k, idx) <= #[trigger] stride_of(k, j)
    &&& forall|j: int| 0 <= j < idx ==> stride_of(k, idx) < #[trigger] stride_of(k, j)
}

/// The position the stride scheduler picks.
pub open spec fn stride_pick(k: KernelView) -> int {
    choose|idx: int| is_stride_pick(k, idx)
}

/// A stride advanced by a pass. The sum wraps around at the largest `usize`.
pub open spec fn stride_after(stride: usize, pass: usize) -> usize {
    if stride + pass <= usize::MAX {
        (stride + pass) as usize
    } else {
        (stride + pass - usize::MAX - 1) as usize
    }
}

/// The table after the stride scheduler fetched from a non-empty ready
/// queue: the picked task left the queue and its stride advanced by its pass.
pub open spec fn fetched(k: KernelView) -> KernelView {
    let idx = stride_pick(k);
    let p = k.ready_queue[idx] as int;
    let t = k.task(p);
    KernelView {
        tasks: k.tasks.update(p, Some(TaskView { stride: stride_after(t.stride, t.pass), ..t })),
        ready_queue: k.ready_queue.remove(idx),
        ..k
    }
}

/// The table after `pid`, fetched, was given the processor at time `now`.
pub open spec fn dispatched(k: KernelView, pid: usize, now: usize) -> KernelView {
    let t = k.task(pid as int);
    KernelView {
        tasks: k.tasks.update(
            pid as int,
            Some(
                TaskView {
                    status: TaskStatus::Running,
                    start_time: crate::task::first_start(t.start_time, now),
                    ..t
                },
            ),
        ),
        current: Some(pid),
        ..k
    }
}

/// The table after the scheduler, with the processor free and the ready
/// queue not empty, gave the processor to the task it picks.
pub open spec fn scheduled(k: KernelView, now: usize) -> KernelView {
    dispatched(fetched(k), k.ready_queue[stride_pick(k)], now)
}

/// The table after the current task gave up the processor: it is Ready and
/// last in the ready queue.
pub open spec fn suspended(k: KernelView) -> KernelView {
    let c = k.current.unwrap();
    KernelView {
        tasks: k.tasks.update(c as int, Some(TaskView { status: TaskStatus::Ready, ..k.task(c as int) })),
        ready_queue: k.ready_queue.push(c),
        current: None,
    }
}

/// The table after the current task exited with `code`: it is a zombie
/// that keeps its children and its address space.
pub open spec fn exited(k: KernelView, code: i32) -> KernelView {
    let c = k.current.unwrap();
    KernelView {
        tasks: k.tasks.update(
            c as int,
            Some(TaskView { status: TaskStatus::Zombie, exit_code: code, ..k.task(c as int) }),
        ),
        current: None,
        ..k
    }
}

/// Whether `pid` may join the ready queue: it is a Ready task that is not in the queue.
pub open spec fn can_add(k: KernelView, pid: usize) -> bool {
    &&& k.live(pid as int)
    &&& k.task(pid as int).status == TaskStatus::Ready
    &&& !k.ready_queue.contains(pid)
}

/// Replacing a task by one with the same pid, status, parent and children
/// keeps the table well formed.
pub proof fn lemma_with_task_wf(k: KernelView, c: int, t: TaskView)
    requires
        k.wf(),
        k.live(c),
        t.wf(),
        t.pid == c,
        t.status == k.task(c).status,
        t.parent == k.task(c).parent,
        t.children == k.task(c).children,
        t.start_time is Some || t.status != TaskStatus::Running,
    ensures
        k.with_task(c, t).wf(),
{
    let k2 = k.with_task(c, t);
    assert forall|i: int| #[trigger] k2.live(i) implies k2.task(i).wf() && k2.task(i).pid == i by {
        assert(k.live(i));
    }
    assert forall|q: int| 0 <= q < k2.ready_queue.len() implies k2.live(#[trigger] k2.ready_queue[q] as int)
        && k2.task(k2.ready_queue[q] as int).status == TaskStatus::Ready by {
        assert(k.live(k.ready_queue[q] as int));
    }
    assert forall|i: int| #[trigger]
        k2.live(i) && k2.task(i).status == TaskStatus::Running implies k2.current == Some(i as usize)
        && k2.task(i).start_time is Some by {
        assert(k.live(i));
    }
    assert forall|i: int, j: int| k2.live(i) && 0 <= j < k2.task(i).children.len() implies k2.live(
        #[trigger] k2.task(i).children[j] as int,
    ) && k2.task(k2.task(i).children[j] as int).parent == Some(i as usize) by {
        assert(k.live(i));
        let ch = k.task(i).children[j];
        assert(k.live(ch as int));
    }
}

/// Taking one element out of a sequence without duplicates leaves no duplicates.
pub proof fn lemma_remove_no_duplicates(s: Seq<usize>, idx: int)
    requires
        s.no_duplicates(),
        0 <= idx < s.len(),
    ensures
        s.remove(idx).no_duplicates(),
        !s.remove(idx).contains(s[idx]),
        forall|v: usize| v != s[idx] ==> (s.remove(idx).contains(v) <==> s.contains(v)),
{
    let t = s.remove(idx);
    assert forall|i: int, j: int| 0 <= i < t.len() && 0 <= j < t.len() && i != j implies t[i] != t[j] by {
        let si = if i < idx { i } else { i + 1 };
        let sj = if j < idx { j } else { j + 1 };
        assert(t[i] == s[si] && t[j] == s[sj]);
    }
    if t.contains(s[idx]) {
        let i = choose|i: int| 0 <= i < t.len() && t[i] == s[idx];
        let si = if i < idx { i } else { i + 1 };
        assert(t[i] == s[si]);
    }
    assert forall|v: usize| v != s[idx] implies (t.contains(v) <==> s.contains(v)) by {
        if t.contains(v) {
            let i = choose|i: int| 0 <= i < t.len() && t[i] == v;
            let si = if i < idx { i } else { i + 1 };
            assert(s[si] == v);
        }
        if s.contains(v) {
            let i = choose|i: int| 0 <= i < s.len() && s[i] == v;
            let ti = if i < idx { i } else { i - 1 };
            assert(t[ti] == v);
        }
    }
}

/// The stride scheduler's pick is unique.
pub proof fn lemma_pick_unique(k: KernelView, idx: int)
    requires
        is_stride_pick(k, idx),
    ensures
        stride_pick(k) == idx,
{
    let c = stride_pick(k);
    assert(is_stride_pick(k, c));
    if c < idx {
        assert(stride_of(k, idx) < stride_of(k, c));
        assert(stride_of(k, c) <= stride_of(k, idx));
    } else if idx < c {
        assert(stride_of(k, c) < stride_of(k, idx));
        assert(stride_of(k, idx) <= stride_of(k, c));
    }
}

/// Fetching keeps the table well formed and leaves the picked task Ready and out of the queue.
pub proof fn lemma_fetched_wf(k: KernelView)
    requires
        k.wf(),
        k.ready_queue.len() > 0,
        exists|idx: int| is_stride_pick(k, idx),
    ensures
        fetched(k).wf(),
        can_add(fetched(k), k.ready_queue[stride_pick(k)]),
        fetched(k).current == k.current,
{
    let idx = stride_pick(k);
    assert(is_stride_pick(k, idx));
    let p = k.ready_queue[idx] as int;
    let t = k.task(p);
    assert(k.live(p));
    let t2 = TaskView { stride: stride_after(t.stride, t.pass), ..t };
    let k1 = k.with_task(p, t2);
    lemma_with_task_wf(k, p, t2);
    let k2 = fetched(k);
    assert(k2.tasks == k1.tasks);
    lemma_remove_no_duplicates(k.ready_queue, idx);
    assert forall|q: int| 0 <= q < k2.ready_queue.len() implies k2.live(#[trigger] k2.ready_queue[q] as int)
        && k2.task(k2.ready_queue[q] as int).status == TaskStatus::Ready by {
        let sq = if q < idx { q } else { q + 1 };
        assert(k2.ready_queue[q] == k1.ready_queue[sq]);
        assert(k1.live(k1.ready_queue[sq] as int));
    }
    assert forall|i: int| #[trigger] k2.live(i) implies k2.task(i).wf() && k2.task(i).pid == i by {
        assert(k1.live(i));
    }
    assert forall|i: int| #[trigger]
        k2.live(i) && k2.task(i).status == TaskStatus::Running implies k2.current == Some(i as usize)
        && k2.task(i).start_time is Some by {
        assert(k1.live(i));
    }
    assert forall|i: int, j: int| k2.live(i) && 0 <= j < k2.task(i).children.len() implies k2.live(
        #[trigger] k2.task(i).children[j] as int,
    ) && k2.task(k2.task(i).children[j] as int).parent == Some(i as usize) by {
        assert(k1.live(i));
        assert(k1.live(k1.task(i).children[j] as int));
    }
}

/// Giving the free processor to a Ready task outside the queue keeps the table well formed.
pub proof fn lemma_dispatched_wf(k: KernelView, pid: usize, now: usize)
    requires
        k.wf(),
        k.current is None,
        can_add(k, pid),
    ensures
        dispatched(k, pid, now).wf(),
{
    let k2 = dispatched(k, pid, now);
    assert forall|i: int| #[trigger] k2.live(i) implies k2.task(i).wf() && k2.task(i).pid == i by {
        assert(k.live(i));
    }
    assert forall|q: int| 0 <= q < k2.ready_queue.len() implies k2.live(#[trigger] k2.ready_queue[q] as int)
        && k2.task(k2.ready_queue[q] as int).status == TaskStatus::Ready by {
        assert(k.live(k.ready_queue[q] as int));
        assert(k.ready_queue.contains(k.ready_queue[q]));
    }
    assert forall|i: int| #[trigger]
        k2.live(i) && k2.task(i).status == TaskStatus::Running implies k2.current == Some(i as usize)
        && k2.task(i).start_time is Some by {
        assert(k.live(i));
    }
    assert forall|i: int, j: int| k2.live(i) && 0 <= j < k2.task(i).children.len() implies k2.live(
        #[trigger] k2.task(i).children[j] as int,
    ) && k2.task(k2.task(i).children[j] as int).parent == Some(i as usize) by {
        assert(k.live(i));
        assert(k.live(k.task(i).children[j] as int));
    }
}

/// Suspending the current task keeps the table well formed and frees the processor.
pub proof fn lemma_suspended_wf(k: KernelView)
    requires
        k.wf(),
        k.current is Some,
    ensures
        suspended(k).wf(),
{
    let c = k.current.unwrap();
    let k2 = suspended(k);
    assert(k.live(c as int));
    assert(!k.ready_queue.contains(c)) by {
        if k.ready_queue.contains(c) {
            let q = choose|q: int| 0 <= q < k.ready_queue.len() && k.ready_queue[q] == c;
            assert(k.live(k.ready_queue[q] as int));
        }
    }
    crate::task::lemma_push_no_duplicates(k.ready_queue, c);
    assert forall|i: int| #[trigger] k2.live(i) implies k2.task(i).wf() && k2.task(i).pid == i by {
        assert(k.live(i));
    }
    assert forall|q: int| 0 <= q < k2.ready_queue.len() implies k2.live(#[trigger] k2.ready_queue[q] as int)
        && k2.task(k2.ready_queue[q] as int).status == TaskStatus::Ready by {
        if q < k.ready_queue.len() {
            assert(k.live(k.ready_queue[q] as int));
        }
    }
    assert forall|i: int| #[trigger]
        k2.live(i) && k2.task(i).status == TaskStatus::Running implies k2.current == Some(i as usize)
        && k2.task(i).start_time is Some by {
        assert(k.live(i));
    }
    assert forall|i: int, j: int| k2.live(i) && 0 <= j < k2.task(i).children.len() implies k2.live(
        #[trigger] k2.task(i).children[j] as int,
    ) && k2.task(k2.task(i).children[j] as int).parent == Some(i as usize) by {
        assert(k.live(i));
        assert(k.live(k.task(i).children[j] as int));
    }
}

/// The exit of the current task keeps the table well formed and frees the processor.
pub proof fn lemma_exited_wf(k: KernelView, code: i32)
    requires
        k.wf(),
        k.current is Some,
    ensures
        exited(k, code).wf(),
{
    let c = k.current.unwrap();
    let k2 = exited(k, code);
    assert(k.live(c as int));
    assert forall|i: int| #[trigger] k2.live(i) implies k2.task(i).wf() && k2.task(i).pid == i by {
        assert(k.live(i));
    }
    assert forall|q: int| 0 <= q < k2.ready_queue.len() implies k2.live(#[trigger] k2.ready_queue[q] as int)
        && k2.task(k2.ready_queue[q] as int).status == TaskStatus::Ready by {
        assert(k.live(k.ready_queue[q] as int));
    }
    assert forall|i: int| #[trigger]
        k2.live(i) && k2.task(i).status == TaskStatus::Running implies k2.current == Some(i as usize)
        && k2.task(i).start_time is Some by {
        assert(k.live(i));
    }
    assert forall|i: int, j: int| k2.live(i) && 0 <= j < k2.task(i).children.len() implies k2.live(
        #[trigger] k2.task(i).children[j] as int,
    ) && k2.task(k2.task(i).children[j] as int).parent == Some(i as usize) by {
        assert(k.live(i));
        assert(k.live(k.task(i).children[j] as int));
    }
}

impl TaskManager {
    /// The task in slot `pid`, to change it.
    fn slot_mut(&mut self, pid: usize) -> (t: &mut TaskControlBlock)
        requires
            old(self)@.live(pid as int),
        ensures
            *t == old(self).tasks@[pid as int].unwrap(),
            final(self).tasks@ == old(self).tasks@.update(pid as int, Some(*final(t))),
            final(self).ready_queue == old(self).ready_queue,
            final(self).current == old(self).current,
    {
        match &mut self.tasks[pid] {
            Some(t) => t,
            None => vstd::pervasive::unreached(),
        }
    }

    /// The task in slot `pid`.
    fn slot(&self, pid: usize) -> (t: &TaskControlBlock)
        requires
            self@.live(pid as int),
        ensures
            t@ == self@.task(pid as int),
            *t == self.tasks@[pid as int].unwrap(),
    {
        match &self.tasks[pid] {
            Some(t) => t,
            None => vstd::pervasive::unreached(),
        }
    }

    /// Loads the program in `image` as a new task without a parent. The
    /// task is Ready and not yet in the ready queue. Returns its pid;
    /// `None`, and no change, when the image cannot be loaded.
    pub fn create(&mut self, image: &[u8]) -> (r: Option<usize>)
        requires
            old(self).wf(),
        ensures
            final(self).wf(),
            r is Some <==> image_layout(image@) is Some && old(self)@.has_room(),
            r matches Some(pid) ==> pid == old(self)@.next_pid() && final(self)@ == (KernelView {
                tasks: old(self)@.tasks.push(Some(fresh_task(image_layout(image@).unwrap(), pid, None))),
                ..old(self)@
            }),
            r is None ==> final(self)@ == old(self)@,
    {
        let pid = self.tasks.len();
        if pid >= isize::MAX as usize {
            return None;
        }
        match TaskControlBlock::new(image, pid) {
            Some(t) => {
                self.tasks.push(Some(t));
                proof {
                    let k = old(self)@;
                    let k2 = self@;
                    assert(k2.tasks =~= k.tasks.push(Some(fresh_task(image_layout(image@).unwrap(), pid, None))));
                    lemma_grown_wf(k, fresh_task(image_layout(image@).unwrap(), pid, None));
                }
                Some(pid)
            },
            None => None,
        }
    }

    /// Puts `pid` at the back of the ready queue. Nothing changes, and the
    /// result is `false`, unless `pid` is a Ready task that is not queued.
    pub fn add(&mut self, pid: usize) -> (ok: bool)
        requires
            old(self).wf(),
        ensures
            final(self).wf(),
            ok == can_add(old(self)@, pid),
            ok ==> final(self)@ == (KernelView { ready_queue: old(self)@.ready_queue.push(pid), ..old(self)@ }),
            !ok ==> final(self)@ == old(self)@,
    {
        if pid >= self.tasks.len() || self.tasks[pid].is_none() {
            return false;
        }
        if self.slot(pid).status() != TaskStatus::Ready {
            return false;
        }
        let mut q: usize = 0;
        while q < self.ready_queue.len()
            invariant
                q <= self.ready_queue.len(),
                *self == *old(self),
                self.wf(),
                forall|j: int| 0 <= j < q ==> self.ready_queue@[j] != pid,
            decreases self.ready_queue.len() - q,
        {
            if self.ready_queue[q] == pid {
                return false;
            }
            q += 1;
        }
        self.ready_queue.push_back(pid);
        proof {
            let k = old(self)@;
            let k2 = self@;
            assert(k2.tasks =~= k.tasks);
            crate::task::lemma_push_no_duplicates(k.ready_queue, pid);
            assert forall|i: int| #[trigger] k2.live(i) implies k2.task(i).wf() && k2.task(i).pid == i by {
                assert(k.live(i));
            }
            assert forall|x: int| 0 <= x < k2.ready_queue.len() implies k2.live(
                #[trigger] k2.ready_queue[x] as int,
            ) && k2.task(k2.ready_queue[x] as int).status == TaskStatus::Ready by {
                if x < k.ready_queue.len() {
                    assert(k.live(k.ready_queue[x] as int));
                }
            }
            assert forall|i: int| #[trigger]
                k2.live(i) && k2.task(i).status == TaskStatus::Running implies k2.current == Some(i as usize)
                && k2.task(i).start_time is Some by {
                assert(k.live(i));
            }
            assert forall|i: int, j: int| k2.live(i) && 0 <= j < k2.task(i).children.len() implies k2.live(
                #[trigger] k2.task(i).children[j] as int,
            ) && k2.task(k2.task(i).children[j] as int).parent == Some(i as usize) by {
                assert(k.live(i));
                assert(k.live(k.task(i).children[j] as int));
            }
        }
        true
    }

    /// The stride scheduler's fetch: takes the task with the smallest stride
    /// out of the ready queue (the first of them, if several have it),
    /// advances its stride by its pass, and returns its pid. `None`, and no
    /// change, when the ready queue is empty.
    pub fn fetch(&mut self) -> (r: Option<usize>)
        requires
            old(self).wf(),
        ensures
            final(self).wf(),
            r is None <==> old(self)@.ready_queue.len() == 0,
            r is None ==> final(self)@ == old(self)@,
            r matches Some(pid) ==> {
                &&& is_stride_pick(old(self)@, stride_pick(old(self)@))
                &&& pid == old(self)@.ready_queue[stride_pick(old(self)@)]
                &&& final(self)@ == fetched(old(self)@)
                &&& can_add(final(self)@, pid)
            },
    {
        if self.ready_queue.len() == 0 {
            return None;
        }
        let ghost k = self@;
        let mut min_index: usize = 0;
        proof {
            assert(k.live(k.ready_queue[0] as int));
        }
        let mut min_stride: usize = self.slot(self.ready_queue[0]).get_stride();
        let mut index: usize = 0;
        while index < self.ready_queue.len()
            invariant
                self@ == k,
                k.wf(),
                index <= k.ready_queue.len(),
                min_index < k.ready_queue.len(),
                min_index <= index,
                min_stride == stride_of(k, min_index as int),
                forall|j: int| 0 <= j < index ==> min_stride <= #[trigger] stride_of(k, j),
                forall|j: int| 0 <= j < min_index ==> min_stride < #[trigger] stride_of(k, j),
            decreases k.ready_queue.len() - index,
        {
            proof {
                assert(k.live(k.ready_queue[index as int] as int));
            }
            let stride = self.slot(self.ready_queue[index]).get_stride();
            if stride < min_stride {
                min_index = index;
                min_stride = stride;
            }
            index += 1;
        }
        proof {
            assert(is_stride_pick(k, min_index as int));
            lemma_pick_unique(k, min_index as int);
            lemma_fetched_wf(k);
        }
        let pid = self.ready_queue[min_index];
        proof {
            assert(k.live(pid as int));
        }
        let task = self.slot_mut(pid);
        let stride = task.get_stride();
        let pass = task.get_pass();
        task.set_stride(stride.wrapping_add(pass));
        self.ready_queue.remove(min_index);
        proof {
            assert(self@.tasks =~= fetched(k).tasks);
            assert(self@ == fetched(k));
        }
        Some(pid)
    }

    /// The first-in, first-out scheduler's fetch: takes the task at the
    /// front of the ready queue and returns its pid. `None`, and no change,
    /// when the ready queue is empty.
    pub fn fetch_fifo(&mut self) -> (r: Option<usize>)
        requires
            old(self).wf(),
        ensures
            final(self).wf(),
            r is None <==> old(self)@.ready_queue.len() == 0,
            r is None ==> final(self)@ == old(self)@,
            r matches Some(pid) ==> {
                &&& pid == old(self)@.ready_queue[0]
                &&& final(self)@ == (KernelView { ready_queue: old(self)@.ready_queue.remove(0), ..old(self)@ })
                &&& can_add(final(self)@, pid)
            },
    {
        let r = self.ready_queue.pop_front();
        proof {
            let k = old(self)@;
            let k2 = self@;
            assert(k2.tasks =~= k.tasks);
            if r is Some {
                assert(k2.ready_queue =~= k.ready_queue.remove(0));
                lemma_remove_no_duplicates(k.ready_queue, 0);
                assert(k.live(k.ready_queue[0] as int));
                assert forall|i: int| #[trigger] k2.live(i) implies k2.task(i).wf() && k2.task(i).pid == i by {
                    assert(k.live(i));
                }
                assert forall|x: int| 0 <= x < k2.ready_queue.len() implies k2.live(
                    #[trigger] k2.ready_queue[x] as int,
                ) && k2.task(k2.ready_queue[x] as int).status == TaskStatus::Ready by {
                    assert(k2.ready_queue[x] == k.ready_queue[x + 1]);
                    assert(k.live(k.ready_queue[x + 1] as int));
                }
                assert forall|i: int| #[trigger]
                    k2.live(i) && k2.task(i).status == TaskStatus::Running implies k2.current == Some(
                    i as usize,
                ) && k2.task(i).start_time is Some by {
                    assert(k.live(i));
                }
                assert forall|i: int, j: int| k2.live(i) && 0 <= j < k2.task(i).children.len() implies k2.live(
                    #[trigger] k2.task(i).children[j] as int,
                ) && k2.task(k2.task(i).children[j] as int).parent == Some(i as usize) by {
                    assert(k.live(i));
                    assert(k.live(k.task(i).children[j] as int));
                }
            } else {
                assert(k2.ready_queue =~= k.ready_queue);
            }
        }
        r
    }

    /// Gives the free processor to the task that the stride scheduler
    /// fetches, and records `now` as its start time if it never ran.
    /// Returns its pid, to which the caller switches; `None`, and no change,
    /// when no task is ready.
    fn schedule(&mut self, now: usize) -> (r: Option<usize>)
        requires
            old(self).wf(),
            old(self)@.current is None,
        ensures
            final(self).wf(),
            r is None <==> old(self)@.ready_queue.len() == 0,
            r is None ==> final(self)@ == old(self)@,
            r is Some ==> final(self)@ == scheduled(old(self)@, now) && r == final(self)@.current,
    {
        match self.fetch() {
            Some(pid) => {
                let ghost k1 = self@;
                let task = self.slot_mut(pid);
                task.set_status(TaskStatus::Running);
                task.note_scheduled(now);
                self.current = Some(pid);
                proof {
                    assert(self@.tasks =~= dispatched(k1, pid, now).tasks);
                    lemma_dispatched_wf(k1, pid, now);
                }
                Some(pid)
            },
            None => None,
        }
    }

    /// Starts the first task: see [`scheduled`]. Returns the pid of the task
    /// to switch to; `None`, and no change, when no task is ready.
    pub fn run_first_task(&mut self, now: usize) -> (r: Option<usize>)
        requires
            old(self).wf(),
            old(self)@.current is None,
        ensures
            final(self).wf(),
            r is None <==> old(self)@.ready_queue.len() == 0,
            r is None ==> final(self)@ == old(self)@,
            r is Some ==> final(self)@ == scheduled(old(self)@, now) && r == final(self)@.current,
    {
        self.schedule(now)
    }

    /// The current task gives up the processor and the scheduler picks the
    /// next one, which may be the same task. Returns the pid of the task to
    /// switch to.
    pub fn suspend_current_and_run_next(&mut self, now: usize) -> (next: usize)
        requires
            old(self).wf(),
            old(self)@.current is Some,
        ensures
            final(self).wf(),
            final(self)@ == scheduled(suspended(old(self)@), now),
            final(self)@.current == Some(next),
    {
        let c = self.current.unwrap();
        proof {
            assert(self@.live(c as int));
            lemma_suspended_wf(self@);
        }
        let task = self.slot_mut(c);
        task.set_status(TaskStatus::Ready);
        self.ready_queue.push_back(c);
        self.current = None;
        proof {
            assert(self@.tasks =~= suspended(old(self)@).tasks);
            assert(self@ == suspended(old(self)@));
        }
        match self.schedule(now) {
            Some(next) => next,
            None => vstd::pervasive::unreached(),
        }
    }

    /// The current task exits with `code` and the scheduler picks the next
    /// task. The exited task stays in the table as a zombie, with its
    /// children, until its parent collects it; its children are not given to
    /// another parent. Returns the pid of the task to switch to; `None`
    /// when no task is ready, which leaves the processor free.
    pub fn exit_current_and_run_next(&mut self, code: i32, now: usize) -> (next: Option<usize>)
        requires
            old(self).wf(),
            old(self)@.current is Some,
        ensures
            final(self).wf(),
            next is None <==> old(self)@.ready_queue.len() == 0,
            next is None ==> final(self)@ == exited(old(self)@, code),
            next is Some ==> final(self)@ == scheduled(exited(old(self)@, code), now) && final(self)@.current
                == next,
    {
        let c = self.current.unwrap();
        proof {
            assert(self@.live(c as int));
            lemma_exited_wf(self@, code);
        }
        let task = self.slot_mut(c);
        task.exit(code);
        self.current = None;
        proof {
            assert(self@.tasks =~= exited(old(self)@, code).tasks);
            assert(self@ == exited(old(self)@, code));
        }
        self.schedule(now)
    }
}

/// Adding a well-formed Ready task without children under the next pid keeps
/// the table well formed.
pub proof fn lemma_grown_wf(k: KernelView, t: TaskView)
    requires
        k.wf(),
        t.wf(),
        t.pid == k.tasks.len(),
        t.status == TaskStatus::Ready,
        t.children.len() == 0,
        k.has_room(),
    ensures
        (KernelView { tasks: k.tasks.push(Some(t)), ..k }).wf(),
{
    let k2 = KernelView { tasks: k.tasks.push(Some(t)), ..k };
    assert forall|i: int| #[trigger] k2.live(i) implies k2.task(i).wf() && k2.task(i).pid == i by {
        if i < k.tasks.len() {
            assert(k.live(i));
        }
    }
    assert forall|q: int| 0 <= q < k2.ready_queue.len() implies k2.live(#[trigger] k2.ready_queue[q] as int)
        && k2.task(k2.ready_queue[q] as int).status == TaskStatus::Ready by {
        assert(k.live(k.ready_queue[q] as int));
    }
    assert forall|i: int| #[trigger]
        k2.live(i) && k2.task(i).status == TaskStatus::Running implies k2.current == Some(i as usize)
        && k2.task(i).start_time is Some by {
        if i < k.tasks.len() {
            assert(k.live(i));
        }
    }
    assert forall|i: int, j: int| k2.live(i) && 0 <= j < k2.task(i).children.len() implies k2.live(
        #[trigger] k2.task(i).children[j] as int,
    ) && k2.task(k2.task(i).children[j] as int).parent == Some(i as usize) by {
        assert(k.live(i));
        assert(k.live(k.task(i).children[j] as int));
    }
}

/// The table after the current task forked: the child, under the next pid,
/// is the last task of the table and the last child of its parent.
pub open spec fn forked(k: KernelView) -> KernelView {
    let pid = k.next_pid();
    KernelView {
        tasks: k.with_cur(TaskView { children: k.cur().children.push(pid), ..k.cur() }).tasks.push(
            Some(forked_child(k.cur(), pid)),
        ),
        ..k
    }
}

/// The table after the current task spawned the program loaded as `l`.
pub open spec fn spawned(k: KernelView, l: crate::mm::ImageLayout) -> KernelView {
    let pid = k.next_pid();
    KernelView {
        tasks: k.with_cur(TaskView { children: k.cur().children.push(pid), ..k.cur() }).tasks.push(
            Some(fresh_task(l, pid, Some(k.current.unwrap()))),
        ),
        ..k
    }
}

/// `waitpid` called with `pid` is content with the child `child`.
pub open spec fn child_matches(pid: isize, child: usize) -> bool {
    pid == -1 || pid == child
}

/// The current task has a child that `waitpid(pid)` is content with.
pub open spec fn has_matching_child(k: KernelView, pid: isize) -> bool {
    exists|j: int| 0 <= j < k.cur().children.len() && child_matches(pid, #[trigger] k.cur().children[j])
}

/// Child number `j` of the current task is a zombie that `waitpid(pid)` is content with.
pub open spec fn is_waited(k: KernelView, pid: isize, j: int) -> bool {
    &&& 0 <= j < k.cur().children.len()
    &&& child_matches(pid, k.cur().children[j])
    &&& k.task(k.cur().children[j] as int).status == TaskStatus::Zombie
}

/// Child number `j` is the first that `waitpid(pid)` can collect.
pub open spec fn is_wait_pick(k: KernelView, pid: isize, j: int) -> bool {
    &&& is_waited(k, pid, j)
    &&& forall|i: int| 0 <= i < j ==> !#[trigger] is_waited(k, pid, i)
}

/// The number of the child that `waitpid(pid)` collects.
pub open spec fn wait_pick(k: KernelView, pid: isize) -> int {
    choose|j: int| is_wait_pick(k, pid, j)
}

/// The table after the current task collected its child number `j` and
/// had the child's exit code stored at `ptr`: the child has left the
/// children and the table.
pub open spec fn reaped(k: KernelView, j: int, ptr: usize) -> KernelView {
    let child = k.cur().children[j];
    let code = k.task(child as int).exit_code;
    KernelView {
        tasks: k.with_cur(
            TaskView {
                children: k.cur().children.remove(j),
                memory: areas_write(k.cur().memory, ptr as int, i32_le(code)),
                ..k.cur()
            },
        ).tasks.update(child as int, None),
        ..k
    }
}

/// The table after a call of syscall `num` was counted for task `pid`.
pub open spec fn counted_for(k: KernelView, pid: usize, num: int) -> KernelView {
    if k.live(pid as int) {
        k.with_task(pid as int, syscall_counted(k.task(pid as int), num))
    } else {
        k
    }
}

/// The table after the current task's priority was set to `prio`.
pub open spec fn prioritized(k: KernelView, prio: isize) -> KernelView {
    k.with_cur(TaskView { priority: prio, pass: (BIGSTRIDE as int / prio as int) as usize, ..k.cur() })
}

/// Slot `i` holds a Ready task.
pub open spec fn is_ready(k: KernelView, i: int) -> bool {
    k.live(i) && k.task(i).status == TaskStatus::Ready
}

/// The slot that round-robin order visits `d` steps after the current task's.
pub open spec fn rr_slot(k: KernelView, d: int) -> int {
    let start = match k.current {
        Some(c) => c + 1,
        None => 0,
    };
    (start + d) % (k.tasks.len() as int)
}

proof fn lemma_forked_wf(k: KernelView, child: TaskView)
    requires
        k.wf(),
        k.current is Some,
        k.has_room(),
        child.wf(),
        child.pid == k.next_pid(),
        child.status == TaskStatus::Ready,
        child.parent == Some(k.current.unwrap()),
        child.children.len() == 0,
    ensures
        !k.cur().children.contains(k.next_pid()),
        (KernelView {
            tasks: k.with_cur(TaskView { children: k.cur().children.push(k.next_pid()), ..k.cur() }).tasks.push(
                Some(child),
            ),
            ..k
        }).wf(),
{
    let c = k.current.unwrap() as int;
    let pid = k.next_pid();
    assert(k.live(c));
    if k.cur().children.contains(pid) {
        let j = choose|j: int| 0 <= j < k.cur().children.len() && k.cur().children[j] == pid;
        assert(k.live(k.task(c).children[j] as int));
    }
    lemma_push_no_duplicates(k.cur().children, pid);
    let t2 = TaskView { children: k.cur().children.push(pid), ..k.cur() };
    let k2 = KernelView { tasks: k.with_cur(t2).tasks.push(Some(child)), ..k };
    assert forall|i: int| #[trigger] k2.live(i) implies k2.task(i).wf() && k2.task(i).pid == i by {
        if i < k.tasks.len() {
            assert(k.live(i));
        }
    }
    assert forall|q: int| 0 <= q < k2.ready_queue.len() implies k2.live(#[trigger] k2.ready_queue[q] as int)
        && k2.task(k2.ready_queue[q] as int).status == TaskStatus::Ready by {
        assert(k.live(k.ready_queue[q] as int));
    }
    assert forall|i: int| #[trigger]
        k2.live(i) && k2.task(i).status == TaskStatus::Running implies k2.current == Some(i as usize)
        && k2.task(i).start_time is Some by {
        if i < k.tasks.len() {
            assert(k.live(i));
        }
    }
    assert forall|i: int, j: int| k2.live(i) && 0 <= j < k2.task(i).children.len() implies k2.live(
        #[trigger] k2.task(i).children[j] as int,
    ) && k2.task(k2.task(i).children[j] as int).parent == Some(i as usize) by {
        assert(k.live(i));
        if i == c && j == k.cur().children.len() {
        } else {
            assert(k.live(k.task(i).children[j] as int));
        }
    }
}

proof fn lemma_reaped_wf(k: KernelView, j: int, ptr: usize)
    requires
        k.wf(),
        k.current is Some,
        0 <= j < k.cur().children.len(),
        k.task(k.cur().children[j] as int).status == TaskStatus::Zombie,
    ensures
        reaped(k, j, ptr).wf(),
{
    let c = k.current.unwrap() as int;
    let t = k.cur();
    let child = t.children[j];
    let code = k.task(child as int).exit_code;
    assert(k.live(c));
    assert(k.live(child as int));
    let t2 = TaskView {
        children: t.children.remove(j),
        memory: areas_write(t.memory, ptr as int, i32_le(code)),
        ..t
    };
    lemma_write_keeps_shape(t.memory, ptr as int, i32_le(code));
    lemma_remove_no_duplicates(t.children, j);
    let k2 = reaped(k, j, ptr);
    assert forall|i: int| #[trigger] k2.live(i) implies k2.task(i).wf() && k2.task(i).pid == i by {
        assert(k.live(i));
    }
    assert forall|q: int| 0 <= q < k2.ready_queue.len() implies k2.live(#[trigger] k2.ready_queue[q] as int)
        && k2.task(k2.ready_queue[q] as int).status == TaskStatus::Ready by {
        assert(k.live(k.ready_queue[q] as int));
    }
    assert forall|i: int| #[trigger]
        k2.live(i) && k2.task(i).status == TaskStatus::Running implies k2.current == Some(i as usize)
        && k2.task(i).start_time is Some by {
        assert(k.live(i));
    }
    assert forall|i: int, x: int| k2.live(i) && 0 <= x < k2.task(i).children.len() implies k2.live(
        #[trigger] k2.task(i).children[x] as int,
    ) && k2.task(k2.task(i).children[x] as int).parent == Some(i as usize) by {
        assert(k.live(i));
        if i == c {
            let sx = if x < j { x } else { x + 1 };
            assert(t2.children[x] == t.children[sx]);
            assert(k.live(t.children[sx] as int));
            assert(t.children[sx] != child);
        } else {
            let y = k.task(i).children[x];
            assert(k.live(y as int));
            assert(k.task(y as int).parent == Some(i as usize));
        }
    }
}

impl TaskManager {
    /// The control block of the task that has the processor.
    pub fn current_task(&self) -> (t: &TaskControlBlock)
        requires
            self.wf(),
            self@.current is Some,
        ensures
            t@ == self@.cur(),
            t.wf(),
    {
        let c = self.current.unwrap();
        assert(self@.live(c as int));
        self.slot(c)
    }

    /// The saved registers of the current task.
    pub fn get_current_trap_cx(&self) -> (r: TrapContext)
        requires
            self.wf(),
            self@.current is Some,
        ensures
            r@ == self@.cur().trap_cx,
    {
        self.current_task().get_trap_cx()
    }

    /// Replaces the saved registers of the current task.
    pub fn set_current_trap_cx(&mut self, cx: TrapContext)
        requires
            old(self).wf(),
            old(self)@.current is Some,
        ensures
            final(self).wf(),
            final(self)@ == old(self)@.with_cur(TaskView { trap_cx: cx@, ..old(self)@.cur() }),
    {
        let ghost k = self@;
        let t = self.current_mut();
        t.set_trap_cx(cx);
        proof {
            let want = TaskView { trap_cx: cx@, ..k.cur() };
            assert(self@.tasks =~= k.with_cur(want).tasks);
            lemma_with_task_wf(k, k.current.unwrap() as int, want);
        }
    }

    /// `mmap` on the current task's address space: see [`crate::mm::MemorySet::mmap`].
    pub fn mmap(&mut self, start: usize, len: usize, port: usize) -> (r: isize)
        requires
            old(self).wf(),
            old(self)@.current is Some,
        ensures
            final(self).wf(),
            r == 0 || r == -1,
            r == 0 <==> mmap_allowed(old(self)@.cur().memory, start as int, len as int, port as int),
            r == 0 ==> final(self)@ == old(self)@.with_cur(
                TaskView {
                    memory: mmap_result(old(self)@.cur().memory, start as int, len as int, port as int),
                    ..old(self)@.cur()
                },
            ),
            r == -1 ==> final(self)@ == old(self)@,
    {
        let ghost k = self@;
        proof {
            assert(k.live(k.current.unwrap() as int));
        }
        let t = self.current_mut();
        let r = t.memory_set_mut().mmap(start, len, port);
        proof {
            let want = if r == 0 {
                TaskView {
                    memory: mmap_result(k.cur().memory, start as int, len as int, port as int),
                    ..k.cur()
                }
            } else {
                k.cur()
            };
            assert(self@.tasks =~= k.with_cur(want).tasks);
            lemma_with_task_wf(k, k.current.unwrap() as int, want);
            assert(k.with_cur(k.cur()).tasks =~= k.tasks);
        }
        r
    }

    /// `munmap` on the current task's address space: see [`crate::mm::MemorySet::unmap`].
    pub fn munmap(&mut self, start: usize, len: usize) -> (r: isize)
        requires
            old(self).wf(),
            old(self)@.current is Some,
        ensures
            final(self).wf(),
            r == 0 || r == -1,
            r == 0 <==> munmap_allowed(old(self)@.cur().memory, start as int, len as int),
            r == 0 ==> final(self)@ == old(self)@.with_cur(
                TaskView {
                    memory: munmap_result(old(self)@.cur().memory, start as int, len as int),
                    ..old(self)@.cur()
                },
            ),
            r == -1 ==> final(self)@ == old(self)@,
    {
        let ghost k = self@;
        proof {
            assert(k.live(k.current.unwrap() as int));
        }
        let t = self.current_mut();
        let r = t.memory_set_mut().munmap(start, len);
        proof {
            let want = if r == 0 {
                TaskView { memory: munmap_result(k.cur().memory, start as int, len as int), ..k.cur() }
            } else {
                k.cur()
            };
            assert(self@.tasks =~= k.with_cur(want).tasks);
            lemma_with_task_wf(k, k.current.unwrap() as int, want);
            assert(k.with_cur(k.cur()).tasks =~= k.tasks);
        }
        r
    }

    /// Moves the current task's program break: see
    /// [`crate::task::TaskControlBlock::change_program_brk`].
    pub fn change_current_program_brk(&mut self, size: i32) -> (r: Option<usize>)
        requires
            old(self).wf(),
            old(self)@.current is Some,
        ensures
            final(self).wf(),
            r is Some <==> brk_allowed(old(self)@.cur(), size as int),
            r matches Some(prev) ==> prev == old(self)@.cur().program_brk && final(self)@ == old(self)@.with_cur(
                brk_result(old(self)@.cur(), size as int),
            ),
            r is None ==> final(self)@ == old(self)@,
    {
        let ghost k = self@;
        proof {
            assert(k.live(k.current.unwrap() as int));
        }
        let t = self.current_mut();
        let r = t.change_program_brk(size);
        proof {
            let want = if r is Some {
                brk_result(k.cur(), size as int)
            } else {
                k.cur()
            };
            assert(self@.tasks =~= k.with_cur(want).tasks);
            lemma_with_task_wf(k, k.current.unwrap() as int, want);
            assert(k.with_cur(k.cur()).tasks =~= k.tasks);
        }
        r
    }

    /// The syscall counters of the current task.
    pub fn get_sys_call(&self) -> (r: [u32; MAX_SYSCALL_NUM])
        requires
            self.wf(),
            self@.current is Some,
        ensures
            r@ == self@.cur().syscall_times,
    {
        self.current_task().get_sys_call()
    }

    /// Counts one more call of syscall `num` for the current task.
    pub fn sys_call_add(&mut self, num: usize)
        requires
            old(self).wf(),
            old(self)@.current is Some,
        ensures
            final(self).wf(),
            final(self)@ == counted_for(old(self)@, old(self)@.current.unwrap(), num as int),
    {
        let c = self.current.unwrap();
        self.sys_call_add_to(c, num);
    }

    /// Counts one more call of syscall `num` for task `pid`, if that task
    /// is Running. A task that is Ready or a zombie is left as it is, and so
    /// is the table when there is no such task.
    pub fn sys_call_add_to(&mut self, pid: usize, num: usize)
        requires
            old(self).wf(),
        ensures
            final(self).wf(),
            final(self)@ == counted_for(old(self)@, pid, num as int),
    {
        if pid >= self.tasks.len() || self.tasks[pid].is_none() {
            return ;
        }
        let ghost k = self@;
        let t = self.slot_mut(pid);
        t.sys_call_add(num);
        proof {
            let want = syscall_counted(k.task(pid as int), num as int);
            assert(self@.tasks =~= k.with_task(pid as int, want).tasks);
            lemma_with_task_wf(k, pid as int, want);
        }
    }

    /// Time the current task has been running at time `now`: the time since
    /// it was first scheduled, and 0 if `now` is before that.
    pub fn get_total_time(&self, now: usize) -> (r: usize)
        requires
            self.wf(),
            self@.current is Some,
        ensures
            self@.cur().start_time is Some,
            r == if now >= self@.cur().start_time.unwrap() {
                now - self@.cur().start_time.unwrap()
            } else {
                0
            },
    {
        proof {
            assert(self@.live(self@.current.unwrap() as int));
        }
        match self.current_task().start_time() {
            Some(start) => if now >= start {
                now - start
            } else {
                0
            },
            None => vstd::pervasive::unreached(),
        }
    }

    /// Sets the current task's priority to `prio` and its pass to
    /// `BIGSTRIDE / prio`, and returns `prio`. Returns -1, and changes
    /// nothing, when `prio` is below 2.
    pub fn set_priority(&mut self, prio: isize) -> (r: isize)
        requires
            old(self).wf(),
            old(self)@.current is Some,
        ensures
            final(self).wf(),
            prio < 2 ==> r == -1 && final(self)@ == old(self)@,
            prio >= 2 ==> r == prio && final(self)@ == prioritized(old(self)@, prio),
    {
        if prio < 2 {
            return -1;
        }
        let ghost k = self@;
        proof {
            assert(k.live(k.current.unwrap() as int));
        }
        let t = self.current_mut();
        t.set_priority(prio);
        t.set_pass(BIGSTRIDE / (prio as usize));
        proof {
            let want = TaskView { priority: prio, pass: (BIGSTRIDE as int / prio as int) as usize, ..k.cur() };
            assert(self@.tasks =~= k.with_cur(want).tasks);
            lemma_with_task_wf(k, k.current.unwrap() as int, want);
        }
        prio
    }

    /// Forks the current task: see [`forked`]. Returns the child's pid. The
    /// child is Ready and not yet in the ready queue. `None`, and no change,
    /// when the table has no room.
    pub fn fork(&mut self) -> (r: Option<usize>)
        requires
            old(self).wf(),
            old(self)@.current is Some,
        ensures
            final(self).wf(),
            r is Some <==> old(self)@.has_room(),
            r matches Some(pid) ==> pid == old(self)@.next_pid() && final(self)@ == forked(old(self)@),
            r is None ==> final(self)@ == old(self)@,
    {
        let pid = self.tasks.len();
        if pid >= isize::MAX as usize {
            return None;
        }
        let ghost k = self@;
        proof {
            assert(k.live(k.current.unwrap() as int));
            lemma_forked_wf(k, forked_child(k.cur(), pid));
        }
        let t = self.current_mut();
        let child = t.fork(pid);
        self.tasks.push(Some(child));
        proof {
            assert(self@.tasks =~= forked(k).tasks);
        }
        Some(pid)
    }

    /// Replaces the current task's program: see
    /// [`crate::task::TaskControlBlock::exec`].
    pub fn exec(&mut self, image: &[u8]) -> (ok: bool)
        requires
            old(self).wf(),
            old(self)@.current is Some,
        ensures
            final(self).wf(),
            ok == image_layout(image@) is Some,
            ok ==> final(self)@ == old(self)@.with_cur(
                exec_result(old(self)@.cur(), image_layout(image@).unwrap()),
            ),
            !ok ==> final(self)@ == old(self)@,
    {
        let ghost k = self@;
        proof {
            assert(k.live(k.current.unwrap() as int));
        }
        let t = self.current_mut();
        let ok = t.exec(image);
        proof {
            let want = if ok {
                exec_result(k.cur(), image_layout(image@).unwrap())
            } else {
                k.cur()
            };
            assert(self@.tasks =~= k.with_cur(want).tasks);
            lemma_with_task_wf(k, k.current.unwrap() as int, want);
            assert(k.with_cur(k.cur()).tasks =~= k.tasks);
        }
        ok
    }

    /// Makes a child of the current task that runs the program in `image`:
    /// see [`spawned`]. Returns the child's pid. The child is Ready and not
    /// yet in the ready queue. `None`, and no change, when the image cannot
    /// be loaded or the table has no room.
    pub fn spawn(&mut self, image: &[u8]) -> (r: Option<usize>)
        requires
            old(self).wf(),
            old(self)@.current is Some,
        ensures
            final(self).wf(),
            r is Some <==> image_layout(image@) is Some && old(self)@.has_room(),
            r matches Some(pid) ==> pid == old(self)@.next_pid() && final(self)@ == spawned(
                old(self)@,
                image_layout(image@).unwrap(),
            ),
            r is None ==> final(self)@ == old(self)@,
    {
        let pid = self.tasks.len();
        if pid >= isize::MAX as usize {
            return None;
        }
        let ghost k = self@;
        proof {
            assert(k.live(k.current.unwrap() as int));
            lemma_forked_wf(k, forked_child(k.cur(), pid));
        }
        let t = self.current_mut();
        match t.spawn(image, pid) {
            Some(child) => {
                let ghost made = child@;
                self.tasks.push(Some(child));
                proof {
                    lemma_forked_wf(k, made);
                    assert(self@.tasks =~= spawned(k, image_layout(image@).unwrap()).tasks);
                }
                Some(pid)
            },
            None => {
                proof {
                    assert(self@.tasks =~= k.tasks);
                }
                None
            },
        }
    }

    /// The bytes at `addr..addr + len` of the current task's memory, if all
    /// of them are mapped.
    pub fn read_user(&self, addr: usize, len: usize) -> (r: Option<Vec<u8>>)
        requires
            self.wf(),
            self@.current is Some,
        ensures
            r is Some <==> bytes_mapped(self@.cur().memory, addr as int, len as int),
            r matches Some(v) ==> v@ == bytes_at(self@.cur().memory, addr as int, len as int),
    {
        self.current_task().memory_set().read_bytes(addr, len)
    }

    /// The NUL-terminated string at `ptr` in the current task's memory,
    /// without the NUL. `None` when an unmapped address comes before any NUL.
    pub fn read_user_str(&self, ptr: usize) -> (r: Option<Vec<u8>>)
        requires
            self.wf(),
            self@.current is Some,
        ensures
            r is Some <==> str_at(self@.cur().memory, ptr as int) is Some,
            r matches Some(v) ==> Some(v@) == str_at(self@.cur().memory, ptr as int),
    {
        self.current_task().memory_set().read_cstr(ptr)
    }

    /// Stores `bytes` at `addr` in the current task's memory. Nothing
    /// changes, and the result is `false`, unless the whole range is mapped.
    pub fn write_user(&mut self, addr: usize, bytes: &[u8]) -> (ok: bool)
        requires
            old(self).wf(),
            old(self)@.current is Some,
        ensures
            final(self).wf(),
            ok == bytes_mapped(old(self)@.cur().memory, addr as int, bytes@.len() as int),
            ok ==> final(self)@ == old(self)@.with_cur(
                TaskView { memory: areas_write(old(self)@.cur().memory, addr as int, bytes@), ..old(self)@.cur() },
            ),
            !ok ==> final(self)@ == old(self)@,
    {
        let ghost k = self@;
        proof {
            assert(k.live(k.current.unwrap() as int));
        }
        let t = self.current_mut();
        let ok = t.memory_set_mut().write_bytes(addr, bytes);
        proof {
            let want = if ok {
                TaskView { memory: areas_write(k.cur().memory, addr as int, bytes@), ..k.cur() }
            } else {
                k.cur()
            };
            assert(self@.tasks =~= k.with_cur(want).tasks);
            lemma_with_task_wf(k, k.current.unwrap() as int, want);
            assert(k.with_cur(k.cur()).tasks =~= k.tasks);
        }
        ok
    }
}

/// The current task has a zombie child that `waitpid(pid)` is content with.
pub open spec fn has_zombie_child(k: KernelView, pid: isize) -> bool {
    exists|j: int| is_wait_pick(k, pid, j)
}

/// `waitpid(pid, ptr)` collects a child: there is a zombie child to
/// collect and the bytes for its exit code at `ptr` are mapped in the current task's memory.
pub open spec fn wait_collects(k: KernelView, pid: isize, ptr: usize) -> bool {
    has_zombie_child(k, pid) && bytes_mapped(k.cur().memory, ptr as int, EXIT_CODE_SIZE as int)
}

/// What `waitpid(pid, ptr)` returns: -1 when no child matches, -2 when a
/// child matches but none of the matching ones is a zombie, -1 when there
/// is a zombie to collect but no room for its exit code at `ptr`, and else
/// the pid of the first matching zombie child.
pub open spec fn wait_return(k: KernelView, pid: isize, ptr: usize) -> int {
    if !has_matching_child(k, pid) {
        -1
    } else if !has_zombie_child(k, pid) {
        -2
    } else if !bytes_mapped(k.cur().memory, ptr as int, EXIT_CODE_SIZE as int) {
        -1
    } else {
        k.cur().children[wait_pick(k, pid)] as int
    }
}

/// The table after `waitpid(pid, ptr)`.
pub open spec fn wait_effect(k: KernelView, pid: isize, ptr: usize) -> KernelView {
    if wait_collects(k, pid, ptr) {
        reaped(k, wait_pick(k, pid), ptr)
    } else {
        k
    }
}

proof fn lemma_wait_pick_unique(k: KernelView, pid: isize, j: int)
    requires
        is_wait_pick(k, pid, j),
    ensures
        has_zombie_child(k, pid),
        has_matching_child(k, pid),
        wait_pick(k, pid) == j,
{
    let c = wait_pick(k, pid);
    assert(is_wait_pick(k, pid, c));
    if c < j {
        assert(!is_waited(k, pid, c));
    } else if j < c {
        assert(!is_waited(k, pid, j));
    }
    assert(child_matches(pid, k.cur().children[j]));
}

impl TaskManager {
    /// Whether `waitpid(pid)` is content with the child `child`.
    fn matches(pid: isize, child: usize) -> (r: bool)
        ensures
            r == child_matches(pid, child),
    {
        pid == -1 || (pid >= 0 && pid as usize == child)
    }

    /// The `waitpid` operation of the current task: collects the first
    /// zombie among the children that `pid` names (any child, for -1),
    /// stores its exit code at `exit_code_ptr`, takes it out of the
    /// children and the table, and returns its pid. See [`wait_return`]
    /// for the other results, on which nothing changes.
    pub fn waitpid(&mut self, pid: isize, exit_code_ptr: usize) -> (r: isize)
        requires
            old(self).wf(),
            old(self)@.current is Some,
        ensures
            final(self).wf(),
            r == wait_return(old(self)@, pid, exit_code_ptr),
            final(self)@ == wait_effect(old(self)@, pid, exit_code_ptr),
    {
        let ghost k = self@;
        let c = self.current.unwrap();
        proof {
            assert(k.live(c as int));
        }
        let count = self.slot(c).children().len();
        let mut any: bool = false;
        let mut found: Option<usize> = None;
        let mut j: usize = 0;
        while j < count && found.is_none()
            invariant
                self@ == k,
                k.wf(),
                k.current == Some(c),
                k.live(c as int),
                count == k.cur().children.len(),
                j <= count,
                any <==> exists|i: int| 0 <= i < j && child_matches(pid, #[trigger] k.cur().children[i]),
                found is None ==> forall|i: int| 0 <= i < j ==> !#[trigger] is_waited(k, pid, i),
                found matches Some(f) ==> f < j && is_wait_pick(k, pid, f as int),
            decreases count - j + (if found is None { 1int } else { 0int }),
        {
            let child = self.slot(c).children()[j];
            proof {
                assert(k.live(k.task(c as int).children[j as int] as int));
            }
            if Self::matches(pid, child) {
                any = true;
                if self.slot(child).is_zombie() {
                    found = Some(j);
                    assert(is_waited(k, pid, j as int));
                }
            }
            j += 1;
        }
        let idx = match found {
            Some(idx) => idx,
            None => {
                proof {
                    assert(!has_zombie_child(k, pid)) by {
                        if has_zombie_child(k, pid) {
                            let x = choose|x: int| is_wait_pick(k, pid, x);
                            assert(is_waited(k, pid, x));
                        }
                    }
                    assert(any == has_matching_child(k, pid));
                }
                return if any {
                    -2
                } else {
                    -1
                };
            },
        };
        proof {
            lemma_wait_pick_unique(k, pid, idx as int);
            lemma_reaped_wf(k, idx as int, exit_code_ptr);
        }
        let child = self.slot(c).children()[idx];
        proof {
            assert(k.live(k.task(c as int).children[idx as int] as int));
        }
        if !self.slot(c).memory_set().range_mapped(exit_code_ptr, EXIT_CODE_SIZE) {
            return -1;
        }
        let code = self.slot(child).exit_code();
        let bytes = encode_i32(code);
        let parent = self.slot_mut(c);
        parent.remove_child(idx);
        let ok = parent.memory_set_mut().write_bytes(exit_code_ptr, bytes.as_slice());
        assert(ok);
        self.tasks[child] = None;
        proof {
            assert(self@.tasks =~= reaped(k, idx as int, exit_code_ptr).tasks);
        }
        child as isize
    }

    /// The first Ready task in round-robin order after the current one:
    /// the order goes up from the slot after the current task's, wraps
    /// around at the end of the table, and ends with the current task's own
    /// slot. `None` exactly when no task is Ready.
    pub fn find_next_task(&self) -> (r: Option<usize>)
        requires
            self.wf(),
        ensures
            r is None <==> forall|i: int| 0 <= i < self@.tasks.len() ==> !#[trigger] is_ready(self@, i),
            r matches Some(id) ==> exists|d: int|
                0 <= d < self@.tasks.len() && id == #[trigger] rr_slot(self@, d) && is_ready(self@, id as int) && forall|
                    e: int,
                | 0 <= e < d ==> !is_ready(self@, #[trigger] rr_slot(self@, e)),
    {
        let n = self.tasks.len();
        if n == 0 {
            return None;
        }
        let start: usize = match self.current {
            Some(c) => {
                proof {
                    assert(self@.live(c as int));
                }
                (c + 1) % n
            },
            None => 0,
        };
        let mut d: usize = 0;
        let mut id: usize = start;
        proof {
            match self.current {
                Some(c) => {
                    assert(c + 1 + 0 == c + 1);
                },
                None => {
                    vstd::arithmetic::div_mod::lemma_small_mod(0, n as nat);
                },
            }
            assert(id == rr_slot(self@, 0));
        }
        while d < n
            invariant
                self.wf(),
                n == self@.tasks.len(),
                n > 0,
                d <= n,
                id < n,
                id == rr_slot(self@, d as int),
                forall|e: int| 0 <= e < d ==> !is_ready(self@, #[trigger] rr_slot(self@, e)),
            decreases n - d,
        {
            if self.tasks[id].is_some() && self.slot(id).status() == TaskStatus::Ready {
                assert(is_ready(self@, id as int));
                return Some(id);
            }
            let ghost prev = id;
            id = if id + 1 == n {
                0
            } else {
                id + 1
            };
            d += 1;
            proof {
                lemma_rr_step(self@, d as int - 1, prev as int);
            }
        }
        proof {
            assert forall|i: int| 0 <= i < self@.tasks.len() implies !#[trigger] is_ready(self@, i) by {
                let e = lemma_rr_reaches(self@, i);
                assert(!is_ready(self@, rr_slot(self@, e)));
            }
        }
        None
    }
}

/// One step of the round-robin order goes to the next slot, wrapping around.
proof fn lemma_rr_step(k: KernelView, d: int, at: int)
    requires
        k.tasks.len() > 0,
        0 <= d,
        at == rr_slot(k, d),
        k.current matches Some(c) ==> c < k.tasks.len(),
    ensures
        0 <= at < k.tasks.len(),
        rr_slot(k, d + 1) == if at + 1 == k.tasks.len() { 0 } else { at + 1 },
{
    let n = k.tasks.len() as int;
    let start = match k.current {
        Some(c) => c + 1,
        None => 0,
    };
    vstd::arithmetic::div_mod::lemma_fundamental_div_mod(start + d, n);
    vstd::arithmetic::div_mod::lemma_fundamental_div_mod(start + d + 1, n);
    vstd::arithmetic::div_mod::lemma_mod_bound(start + d, n);
    vstd::arithmetic::div_mod::lemma_mod_bound(start + d + 1, n);
    let q = (start + d) / n;
    assert((q + 1) * n == q * n + n) by (nonlinear_arith);
    if at + 1 == n {
        vstd::arithmetic::div_mod::lemma_fundamental_div_mod_converse(start + d + 1, n, q + 1, 0);
    } else {
        vstd::arithmetic::div_mod::lemma_fundamental_div_mod_converse(start + d + 1, n, q, at + 1);
    }
}

/// The round-robin order visits every slot.
proof fn lemma_rr_reaches(k: KernelView, i: int) -> (e: int)
    requires
        0 <= i < k.tasks.len(),
        k.current matches Some(c) ==> c < k.tasks.len(),
    ensures
        0 <= e < k.tasks.len(),
        rr_slot(k, e) == i,
{
    let n = k.tasks.len() as int;
    let start = match k.current {
        Some(c) => c + 1,
        None => 0,
    };
    let s = start % n;
    vstd::arithmetic::div_mod::lemma_fundamental_div_mod(start, n);
    vstd::arithmetic::div_mod::lemma_mod_bound(start, n);
    let q = start / n;
    let e = if i >= s { i - s } else { i - s + n };
    assert((q + 1) * n == q * n + n) by (nonlinear_arith);
    if i >= s {
        vstd::arithmetic::div_mod::lemma_fundamental_div_mod_converse(start + e, n, q, i);
    } else {
        vstd::arithmetic::div_mod::lemma_fundamental_div_mod_converse(start + e, n, q + 1, i);
    }
    e
}

/// A descriptor table with `file` in its lowest free descriptor.
pub open spec fn installed(fds: Seq<Option<FileHandle>>, file: FileHandle) -> Seq<Option<FileHandle>> {
    let fd = lowest_free(fds);
    if fd < fds.len() {
        fds.update(fd, Some(file))
    } else {
        fds.push(Some(file))
    }
}

/// Descriptor `fd` of the table is open.
pub open spec fn fd_open(fds: Seq<Option<FileHandle>>, fd: int) -> bool {
    0 <= fd < fds.len() && fds[fd] is Some
}

impl TaskManager {
    /// The handle in descriptor `fd` of the current task, if the descriptor is open.
    pub fn current_file(&self, fd: usize) -> (r: Option<FileHandle>)
        requires
            self.wf(),
            self@.current is Some,
        ensures
            r is Some <==> fd_open(self@.cur().fd_table, fd as int),
            r matches Some(file) ==> Some(file) == self@.cur().fd_table[fd as int],
    {
        self.current_task().file(fd)
    }

    /// Puts `file` into the lowest free descriptor of the current task,
    /// growing the table when every descriptor is taken, and returns the
    /// descriptor.
    pub fn install_file(&mut self, file: FileHandle) -> (fd: usize)
        requires
            old(self).wf(),
            old(self)@.current is Some,
        ensures
            final(self).wf(),
            fd == lowest_free(old(self)@.cur().fd_table),
            final(self)@ == old(self)@.with_cur(
                TaskView { fd_table: installed(old(self)@.cur().fd_table, file), ..old(self)@.cur() },
            ),
    {
        let ghost k = self@;
        proof {
            assert(k.live(k.current.unwrap() as int));
        }
        let t = self.current_mut();
        let fd = t.alloc_fd();
        t.set_file(fd, Some(file));
        proof {
            let fds = k.cur().fd_table;
            let want = TaskView { fd_table: installed(fds, file), ..k.cur() };
            if fd >= fds.len() {
                assert(fds.push(None).update(fd as int, Some(file)) =~= fds.push(Some(file)));
            }
            assert(self@.tasks =~= k.with_cur(want).tasks);
            lemma_with_task_wf(k, k.current.unwrap() as int, want);
        }
        fd
    }

    /// Empties descriptor `fd` of the current task. Nothing changes, and
    /// the result is `false`, unless the descriptor is open.
    pub fn close_file(&mut self, fd: usize) -> (ok: bool)
        requires
            old(self).wf(),
            old(self)@.current is Some,
        ensures
            final(self).wf(),
            ok == fd_open(old(self)@.cur().fd_table, fd as int),
            ok ==> final(self)@ == old(self)@.with_cur(
                TaskView { fd_table: old(self)@.cur().fd_table.update(fd as int, None), ..old(self)@.cur() },
            ),
            !ok ==> final(self)@ == old(self)@,
    {
        if self.current_file(fd).is_none() {
            return false;
        }
        let ghost k = self@;
        proof {
            assert(k.live(k.current.unwrap() as int));
        }
        let t = self.current_mut();
        t.set_file(fd, None);
        proof {
            let want = TaskView { fd_table: k.cur().fd_table.update(fd as int, None), ..k.cur() };
            assert(self@.tasks =~= k.with_cur(want).tasks);
            lemma_with_task_wf(k, k.current.unwrap() as int, want);
        }
        true
    }

    /// Puts `value` into the return-value register of task `pid`.
    pub fn set_return_value(&mut self, pid: usize, value: usize)
        requires
            old(self).wf(),
            old(self)@.live(pid as int),
        ensures
            final(self).wf(),
            final(self)@ == old(self)@.with_task(
                pid as int,
                TaskView {
                    trap_cx: returning(old(self)@.task(pid as int).trap_cx, value),
                    ..old(self)@.task(pid as int)
                },
            ),
    {
        let ghost k = self@;
        let t = self.slot_mut(pid);
        let mut cx = t.get_trap_cx();
        cx.set_return_value(value);
        t.set_trap_cx(cx);
        proof {
            let want = TaskView { trap_cx: returning(k.task(pid as int).trap_cx, value), ..k.task(pid as int) };
            assert(self@.tasks =~= k.with_task(pid as int, want).tasks);
            lemma_with_task_wf(k, pid as int, want);
        }
    }
}

impl TaskManager {
    /// Sets the stride of task `pid`. Nothing changes, and the result is
    /// `false`, when there is no such task.
    pub fn set_stride(&mut self, pid: usize, stride: usize) -> (ok: bool)
        requires
            old(self).wf(),
        ensures
            final(self).wf(),
            ok == old(self)@.live(pid as int),
            ok ==> final(self)@ == old(self)@.with_task(
                pid as int,
                TaskView { stride, ..old(self)@.task(pid as int) },
            ),
            !ok ==> final(self)@ == old(self)@,
    {
        if pid >= self.tasks.len() || self.tasks[pid].is_none() {
            return false;
        }
        let ghost k = self@;
        let t = self.slot_mut(pid);
        t.set_stride(stride);
        proof {
            let want = TaskView { stride, ..k.task(pid as int) };
            assert(self@.tasks =~= k.with_task(pid as int, want).tasks);
            lemma_with_task_wf(k, pid as int, want);
        }
        true
    }

    /// Sets the pass of task `pid`. Nothing changes, and the result is
    /// `false`, when there is no such task.
    pub fn set_pass(&mut self, pid: usize, pass: usize) -> (ok: bool)
        requires
            old(self).wf(),
        ensures
            final(self).wf(),
            ok == old(self)@.live(pid as int),
            ok ==> final(self)@ == old(self)@.with_task(pid as int, TaskView { pass, ..old(self)@.task(pid as int) }),
            !ok ==> final(self)@ == old(self)@,
    {
        if pid >= self.tasks.len() || self.tasks[pid].is_none() {
            return false;
        }
        let ghost k = self@;
        let t = self.slot_mut(pid);
        t.set_pass(pass);
        proof {
            let want = TaskView { pass, ..k.task(pid as int) };
            assert(self@.tasks =~= k.with_task(pid as int, want).tasks);
            lemma_with_task_wf(k, pid as int, want);
        }
        true
    }
}

/// A stride that advances without wrapping around does not get smaller,
/// and gets larger if the pass is not zero.
pub proof fn lemma_stride_advances(stride: usize, pass: usize)
    requires
        stride + pass <= usize::MAX,
    ensures
        stride_after(stride, pass) == stride + pass,
        stride_after(stride, pass) >= stride,
        pass > 0 ==> stride_after(stride, pass) > stride,
{
}

/// The task that the stride scheduler fetches has the smallest stride of
/// the ready queue, and comes out with its stride advanced by its pass; the
/// other tasks keep theirs.
pub proof fn lemma_fetch_picks_least(k: KernelView)
    requires
        k.wf(),
        k.ready_queue.len() > 0,
        is_stride_pick(k, stride_pick(k)),
    ensures
        forall|q: int|
            0 <= q < k.ready_queue.len() ==> k.task(k.ready_queue[stride_pick(k)] as int).stride
                <= #[trigger] stride_of(k, q),
        fetched(k).task(k.ready_queue[stride_pick(k)] as int).stride == stride_after(
            k.task(k.ready_queue[stride_pick(k)] as int).stride,
            k.task(k.ready_queue[stride_pick(k)] as int).pass,
        ),
        forall|i: int|
            k.live(i) && i != k.ready_queue[stride_pick(k)] ==> #[trigger] fetched(k).task(i) == k.task(i),
{
    let idx = stride_pick(k);
    assert forall|q: int| 0 <= q < k.ready_queue.len() implies k.task(k.ready_queue[idx] as int).stride
        <= #[trigger] stride_of(k, q) by {
        assert(stride_of(k, idx) <= stride_of(k, q));
    }
    assert(k.live(k.ready_queue[idx] as int));
}

/// What `waitpid(-1, ptr)` does for a task without children, for a task
/// whose only child has not exited, and for a task whose only child is a
/// zombie: it returns -1; it returns -2; it returns the child's pid, the
/// child's exit code lies at `ptr`, and the child has left the children
/// and the table.
pub proof fn lemma_wait_any(k: KernelView, ptr: usize)
    requires
        k.wf(),
        k.current is Some,
    ensures
        k.cur().children.len() == 0 ==> wait_return(k, -1isize, ptr) == -1 && wait_effect(k, -1isize, ptr) == k,
        k.cur().children.len() == 1 && k.task(k.cur().children[0] as int).status != TaskStatus::Zombie
            ==> wait_return(k, -1isize, ptr) == -2 && wait_effect(k, -1isize, ptr) == k,
        k.cur().children.len() == 1 && k.task(k.cur().children[0] as int).status == TaskStatus::Zombie
            && bytes_mapped(k.cur().memory, ptr as int, EXIT_CODE_SIZE as int) ==> {
            let child = k.cur().children[0];
            let after = wait_effect(k, -1isize, ptr);
            &&& wait_return(k, -1isize, ptr) == child
            &&& after.cur().children.len() == 0
            &&& !after.live(child as int)
            &&& bytes_at(after.cur().memory, ptr as int, EXIT_CODE_SIZE as int) == i32_le(k.task(child as int).exit_code)
        },
{
    let any: isize = (-1int) as isize;
    let c = k.current.unwrap() as int;
    assert(k.live(c));
    let kids = k.cur().children;
    if kids.len() == 0 {
        assert(!has_matching_child(k, any));
        assert(!has_zombie_child(k, any)) by {
            if has_zombie_child(k, any) {
                let j = choose|j: int| is_wait_pick(k, any, j);
                assert(is_waited(k, any, j));
            }
        }
    } else if kids.len() == 1 {
        let child = kids[0];
        assert(child_matches(any, kids[0]));
        assert(has_matching_child(k, any));
        if k.task(child as int).status != TaskStatus::Zombie {
            assert(!has_zombie_child(k, any)) by {
                if has_zombie_child(k, any) {
                    let j = choose|j: int| is_wait_pick(k, any, j);
                    assert(is_waited(k, any, j));
                }
            }
        } else {
            assert(is_wait_pick(k, any, 0));
            lemma_wait_pick_unique(k, any, 0);
            if bytes_mapped(k.cur().memory, ptr as int, EXIT_CODE_SIZE as int) {
                assert(k.live(kids[0] as int));
                assert(child != c);
                let after = wait_effect(k, any, ptr);
                assert(after == reaped(k, 0, ptr));
                assert(after.cur().children =~= Seq::<usize>::empty());
                crate::mm::lemma_write_then_read(k.cur().memory, ptr as int, i32_le(k.task(child as int).exit_code));
            }
        }
    }
}

/// At most one task is Running, and it is the one that has the processor.
pub proof fn lemma_one_running(k: KernelView, i: int, j: int)
    requires
        k.wf(),
        k.live(i),
        k.live(j),
        k.task(i).status == TaskStatus::Running,
        k.task(j).status == TaskStatus::Running,
    ensures
        i == j,
        k.current == Some(i as usize),
{
}

/// A zombie neither has the processor nor waits for it.
pub proof fn lemma_zombie_is_idle(k: KernelView, i: int)
    requires
        k.wf(),
        k.live(i),
        k.task(i).status == TaskStatus::Zombie,
    ensures
        k.current != Some(i as usize),
        !k.ready_queue.contains(i as usize),
{
    if k.ready_queue.contains(i as usize) {
        let q = choose|q: int| 0 <= q < k.ready_queue.len() && k.ready_queue[q] == i as usize;
        assert(k.live(k.ready_queue[q] as int));
    }
}

/// A zombie is left exactly as it is when the scheduler fetches or gives
/// out the processor and when the current task yields, exits, forks or
/// has a syscall counted: only its parent's `waitpid` ends it.
pub proof fn lemma_zombie_stays(k: KernelView, i: int, now: usize, code: i32, num: int)
    requires
        k.wf(),
        k.live(i),
        k.task(i).status == TaskStatus::Zombie,
    ensures
        k.ready_queue.len() > 0 && is_stride_pick(k, stride_pick(k)) ==> fetched(k).task(i) == k.task(i)
            && scheduled(k, now).task(i) == k.task(i),
        k.current is Some ==> suspended(k).task(i) == k.task(i) && exited(k, code).task(i) == k.task(i)
            && forked(k).task(i) == k.task(i) && counted_for(k, k.current.unwrap(), num).task(i) == k.task(i),
{
    lemma_zombie_is_idle(k, i);
    if k.ready_queue.len() > 0 && is_stride_pick(k, stride_pick(k)) {
        let p = k.ready_queue[stride_pick(k)];
        assert(k.ready_queue.contains(p));
        assert(k.live(p as int));
    }
    if k.current is Some {
        assert(k.live(k.current.unwrap() as int));
    }
}

} // verus!
