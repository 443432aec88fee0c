//! Process management syscalls.
use vstd::prelude::*;
use crate::abi::{task_info_bytes, time_val_bytes, TASK_INFO_SIZE, TIME_VAL_SIZE};
pub use crate::abi::{TaskInfo, TimeVal};
use crate::config::{
    SYSCALL_GET_TIME, SYSCALL_MMAP, SYSCALL_MUNMAP, SYSCALL_SET_PRIORITY, SYSCALL_SPAWN, SYSCALL_TASK_INFO,
};
use crate::loader::{has_app, image_named, AppView, Loader};
use crate::manager::{
    counted_for, exited, forked, prioritized, scheduled, spawned, suspended, wait_effect, wait_return,
    KernelView, TaskManager,
};
use crate::mm::{
    areas_write, bytes_mapped, image_layout, mmap_allowed, mmap_result, munmap_allowed, munmap_result, str_at,
};
use crate::task::{brk_allowed, brk_result, counted, exec_result, TaskStatus, TaskView};
use crate::trap::returning;

verus! {

/// `exit`: the current task becomes a zombie with `exit_code` and the
/// scheduler picks the next task. Returns the pid of the task to switch
/// to; `None` when no task is ready, on which the kernel halts.
pub fn sys_exit(k: &mut TaskManager, exit_code: i32, now: usize) -> (next: Option<usize>)
    requires
        old(k).wf(),
        old(k)@.current is Some,
    ensures
        final(k).wf(),
        next is None <==> old(k)@.ready_queue.len() == 0,
        next is None ==> final(k)@ == exited(old(k)@, exit_code),
        next is Some ==> final(k)@ == scheduled(exited(old(k)@, exit_code), now) && final(k)@.current == next,
{
    k.exit_current_and_run_next(exit_code, now)
}

/// `yield`: the current task goes to the back of the ready queue and the
/// scheduler picks the next task, which is then the current one. Returns 0,
/// the value that the yielding task sees when it runs again.
pub fn sys_yield(k: &mut TaskManager, now: usize) -> (r: isize)
    requires
        old(k).wf(),
        old(k)@.current is Some,
    ensures
        final(k).wf(),
        r == 0,
        final(k)@ == scheduled(suspended(old(k)@), now),
        final(k)@.current is Some,
{
    k.suspend_current_and_run_next(now);
    0
}

/// `getpid`: the pid of the current task.
pub fn sys_getpid(k: &TaskManager) -> (r: isize)
    requires
        k.wf(),
        k@.current is Some,
    ensures
        r == k@.current.unwrap(),
{
    k.current_task().getpid() as isize
}

/// The table after `fork`: the current task has forked, the child's
/// return-value register holds 0, and the child is last in the ready queue.
pub open spec fn fork_effect(k: KernelView) -> KernelView {
    let f = forked(k);
    let pid = k.next_pid();
    let child = f.task(pid as int);
    KernelView {
        ready_queue: k.ready_queue.push(pid),
        ..f.with_task(pid as int, TaskView { trap_cx: returning(child.trap_cx, 0), ..child })
    }
}

/// `fork`: see [`fork_effect`]. Returns the child's pid to the parent;
/// -1, and no change, when the table has no room.
pub fn sys_fork(k: &mut TaskManager) -> (r: isize)
    requires
        old(k).wf(),
        old(k)@.current is Some,
    ensures
        final(k).wf(),
        old(k)@.has_room() ==> r == old(k)@.next_pid() && final(k)@ == fork_effect(old(k)@),
        !old(k)@.has_room() ==> r == -1 && final(k)@ == old(k)@,
{
    match k.fork() {
        Some(pid) => {
            k.set_return_value(pid, 0);
            let added = k.add(pid);
            proof {
                assert(added) by {
                    let q = old(k)@.ready_queue;
                    if q.contains(pid) {
                        let i = choose|i: int| 0 <= i < q.len() && q[i] == pid;
                        assert(old(k)@.live(q[i] as int));
                    }
                }
                assert(k@.tasks =~= fork_effect(old(k)@).tasks);
            }
            pid as isize
        },
        None => -1,
    }
}

/// The current task's memory holds at `path` the name of a program of the table.
pub open spec fn names_app(k: KernelView, apps: Seq<AppView>, path: usize) -> bool {
    str_at(k.cur().memory, path as int) matches Some(name) && has_app(apps, name)
}

/// The image of the program whose name the current task's memory holds at `path`.
pub open spec fn app_at(k: KernelView, apps: Seq<AppView>, path: usize) -> Seq<u8> {
    image_named(apps, str_at(k.cur().memory, path as int).unwrap())
}

/// The program that `exec` and `spawn` are to run, if `path` names one.
fn resolve<'a>(k: &TaskManager, loader: &'a Loader, path: usize) -> (r: Option<&'a [u8]>)
    requires
        k.wf(),
        k@.current is Some,
    ensures
        r is Some <==> names_app(k@, loader@, path),
        r matches Some(image) ==> image@ == app_at(k@, loader@, path),
{
    match k.read_user_str(path) {
        Some(name) => loader.app_image_by_name(name.as_slice()),
        None => None,
    }
}

/// `exec`: replaces the program of the current task by the one that the
/// string at `path` names. Returns 0; -1, and no change, when the string
/// cannot be read, names no program, or names one whose image cannot be
/// loaded.
pub fn sys_exec(k: &mut TaskManager, loader: &Loader, path: usize) -> (r: isize)
    requires
        old(k).wf(),
        old(k)@.current is Some,
    ensures
        final(k).wf(),
        r == 0 || r == -1,
        r == 0 <==> names_app(old(k)@, loader@, path) && image_layout(app_at(old(k)@, loader@, path)) is Some,
        r == 0 ==> final(k)@ == old(k)@.with_cur(
            exec_result(old(k)@.cur(), image_layout(app_at(old(k)@, loader@, path)).unwrap()),
        ),
        r == -1 ==> final(k)@ == old(k)@,
{
    match resolve(k, loader, path) {
        Some(image) => {
            if k.exec(image) {
                0
            } else {
                -1
            }
        },
        None => -1,
    }
}

/// The table after `spawn` made a child from the program loaded as `l`:
/// the call is counted for the parent, and the child is the last task of
/// the table, the last child of the parent, and last in the ready queue.
pub open spec fn spawn_effect(k: KernelView, l: crate::mm::ImageLayout) -> KernelView {
    let s = spawned(counted_for(k, k.current.unwrap(), SYSCALL_SPAWN as int), l);
    KernelView { ready_queue: k.ready_queue.push(k.next_pid()), ..s }
}

/// `spawn`: makes a child that runs the program that the string at `path`
/// names: see [`spawn_effect`]. Returns the child's pid; -1, and no change,
/// when the string cannot be read, names no program, or names one whose
/// image cannot be loaded, or when the table has no room.
pub fn sys_spawn(k: &mut TaskManager, loader: &Loader, path: usize) -> (r: isize)
    requires
        old(k).wf(),
        old(k)@.current is Some,
    ensures
        final(k).wf(),
        r != -1 <==> names_app(old(k)@, loader@, path) && image_layout(app_at(old(k)@, loader@, path)) is Some
            && old(k)@.has_room(),
        r != -1 ==> r == old(k)@.next_pid() && final(k)@ == spawn_effect(
            old(k)@,
            image_layout(app_at(old(k)@, loader@, path)).unwrap(),
        ),
        r == -1 ==> final(k)@ == old(k)@,
{
    let image = match resolve(k, loader, path) {
        Some(image) => image,
        None => { return -1; },
    };
    match k.spawn(image) {
        Some(pid) => {
            let ghost k1 = k@;
            k.sys_call_add(SYSCALL_SPAWN);
            let added = k.add(pid);
            proof {
                let k0 = old(k)@;
                let l = image_layout(app_at(k0, loader@, path)).unwrap();
                assert(k0.live(k0.current.unwrap() as int));
                assert(added) by {
                    let q = k0.ready_queue;
                    if q.contains(pid) {
                        let i = choose|i: int| 0 <= i < q.len() && q[i] == pid;
                        assert(k0.live(q[i] as int));
                    }
                }
                assert(k@.tasks =~= spawn_effect(k0, l).tasks);
            }
            pid as isize
        },
        None => -1,
    }
}

/// `waitpid`: see [`TaskManager::waitpid`].
pub fn sys_waitpid(k: &mut TaskManager, pid: isize, exit_code_ptr: usize) -> (r: isize)
    requires
        old(k).wf(),
        old(k)@.current is Some,
    ensures
        final(k).wf(),
        r == wait_return(old(k)@, pid, exit_code_ptr),
        final(k)@ == wait_effect(old(k)@, pid, exit_code_ptr),
{
    k.waitpid(pid, exit_code_ptr)
}

/// The table after the current task had `bytes` stored at `addr` and a
/// call of syscall `num` counted.
pub open spec fn answered(k: KernelView, addr: usize, bytes: Seq<u8>, num: int) -> KernelView {
    k.with_cur(
        TaskView {
            memory: areas_write(k.cur().memory, addr as int, bytes),
            syscall_times: counted(k.cur().syscall_times, num),
            ..k.cur()
        },
    )
}

/// `get_time`: stores the time `now_us`, in microseconds, as a `TimeVal`
/// at `ts` in the current task's memory, and counts the call. Returns 0;
/// -1, and no change, when the bytes at `ts` are not all mapped.
pub fn sys_get_time(k: &mut TaskManager, ts: usize, _tz: usize, now_us: usize) -> (r: isize)
    requires
        old(k).wf(),
        old(k)@.current is Some,
    ensures
        final(k).wf(),
        r == 0 || r == -1,
        r == 0 <==> bytes_mapped(old(k)@.cur().memory, ts as int, TIME_VAL_SIZE as int),
        r == 0 ==> final(k)@ == answered(
            old(k)@,
            ts,
            time_val_bytes(TimeVal { sec: now_us / 1_000_000, usec: now_us % 1_000_000 }),
            SYSCALL_GET_TIME as int,
        ),
        r == -1 ==> final(k)@ == old(k)@,
{
    let time_val = TimeVal::from_micros(now_us);
    let bytes = time_val.to_bytes();
    if !k.write_user(ts, bytes.as_slice()) {
        return -1;
    }
    k.sys_call_add(SYSCALL_GET_TIME);
    proof {
        let k0 = old(k)@;
        assert(k0.live(k0.current.unwrap() as int));
        assert(k@.tasks =~= answered(k0, ts, bytes@, SYSCALL_GET_TIME as int).tasks);
    }
    0
}

/// Time since `start` at time `now`, and 0 if `now` is before `start`.
pub open spec fn elapsed(start: Option<usize>, now: usize) -> usize {
    if start is Some && now >= start.unwrap() {
        (now - start.unwrap()) as usize
    } else {
        0
    }
}

/// `task_info`: counts the call, then stores at `ti` in the current
/// task's memory a `TaskInfo` with the status Running, the task's syscall
/// counters, this call included, and the time the task has been running
/// at time `now_ms`. Returns 0; -1, and no change, when `ti` is null or
/// the bytes at `ti` are not all mapped.
pub fn sys_task_info(k: &mut TaskManager, ti: usize, now_ms: usize) -> (r: isize)
    requires
        old(k).wf(),
        old(k)@.current is Some,
    ensures
        final(k).wf(),
        r == 0 || r == -1,
        r == 0 <==> ti != 0 && bytes_mapped(old(k)@.cur().memory, ti as int, TASK_INFO_SIZE as int),
        r == 0 ==> final(k)@ == answered(
            old(k)@,
            ti,
            task_info_bytes(
                TaskStatus::Running,
                counted(old(k)@.cur().syscall_times, SYSCALL_TASK_INFO as int),
                elapsed(old(k)@.cur().start_time, now_ms),
            ),
            SYSCALL_TASK_INFO as int,
        ),
        r == -1 ==> final(k)@ == old(k)@,
{
    if ti == 0 {
        return -1;
    }
    if !k.current_task().memory_set().range_mapped(ti, TASK_INFO_SIZE) {
        return -1;
    }
    let ghost k0 = k@;
    proof {
        assert(k0.live(k0.current.unwrap() as int));
    }
    k.sys_call_add(SYSCALL_TASK_INFO);
    let info = TaskInfo {
        status: TaskStatus::Running,
        syscall_times: k.get_sys_call(),
        time: k.get_total_time(now_ms),
    };
    let bytes = info.to_bytes();
    let ok = k.write_user(ti, bytes.as_slice());
    proof {
        assert(ok);
        assert(k@.tasks =~= answered(k0, ti, bytes@, SYSCALL_TASK_INFO as int).tasks);
    }
    0
}

/// `mmap`: maps `start..start + len` in the current task's address space
/// with the permissions that `port` asks for, and counts the call. Returns
/// 0; -1, and no change, on the inputs that
/// [`crate::mm::mmap_allowed`] excludes.
pub fn sys_mmap(k: &mut TaskManager, start: usize, len: usize, port: usize) -> (r: isize)
    requires
        old(k).wf(),
        old(k)@.current is Some,
    ensures
        final(k).wf(),
        r == 0 || r == -1,
        r == 0 <==> mmap_allowed(old(k)@.cur().memory, start as int, len as int, port as int),
        r == 0 ==> final(k)@ == old(k)@.with_cur(
            TaskView {
                memory: mmap_result(old(k)@.cur().memory, start as int, len as int, port as int),
                syscall_times: counted(old(k)@.cur().syscall_times, SYSCALL_MMAP as int),
                ..old(k)@.cur()
            },
        ),
        r == -1 ==> final(k)@ == old(k)@,
{
    let r = k.mmap(start, len, port);
    if r == 0 {
        k.sys_call_add(SYSCALL_MMAP);
        proof {
            let k0 = old(k)@;
            assert(k0.live(k0.current.unwrap() as int));
            let want = TaskView {
                memory: mmap_result(k0.cur().memory, start as int, len as int, port as int),
                syscall_times: counted(k0.cur().syscall_times, SYSCALL_MMAP as int),
                ..k0.cur()
            };
            assert(k@.tasks =~= k0.with_cur(want).tasks);
        }
    }
    r
}

/// `munmap`: unmaps `start..start + len` from the current task's address
/// space, and counts the call. Returns 0; -1, and no change, on the inputs
/// that [`crate::mm::munmap_allowed`] excludes.
pub fn sys_munmap(k: &mut TaskManager, start: usize, len: usize) -> (r: isize)
    requires
        old(k).wf(),
        old(k)@.current is Some,
    ensures
        final(k).wf(),
        r == 0 || r == -1,
        r == 0 <==> munmap_allowed(old(k)@.cur().memory, start as int, len as int),
        r == 0 ==> final(k)@ == old(k)@.with_cur(
            TaskView {
                memory: munmap_result(old(k)@.cur().memory, start as int, len as int),
                syscall_times: counted(old(k)@.cur().syscall_times, SYSCALL_MUNMAP as int),
                ..old(k)@.cur()
            },
        ),
        r == -1 ==> final(k)@ == old(k)@,
{
    let r = k.munmap(start, len);
    if r == 0 {
        k.sys_call_add(SYSCALL_MUNMAP);
        proof {
            let k0 = old(k)@;
            assert(k0.live(k0.current.unwrap() as int));
            let want = TaskView {
                memory: munmap_result(k0.cur().memory, start as int, len as int),
                syscall_times: counted(k0.cur().syscall_times, SYSCALL_MUNMAP as int),
                ..k0.cur()
            };
            assert(k@.tasks =~= k0.with_cur(want).tasks);
        }
    }
    r
}

/// `sbrk`: moves the current task's program break by `size` bytes.
/// Returns the previous break; -1, and no change, on the inputs that
/// [`crate::task::brk_allowed`] excludes.
pub fn sys_sbrk(k: &mut TaskManager, size: i32) -> (r: isize)
    requires
        old(k).wf(),
        old(k)@.current is Some,
    ensures
        final(k).wf(),
        brk_allowed(old(k)@.cur(), size as int) ==> r == old(k)@.cur().program_brk as isize && final(k)@ == old(
            k,
        )@.with_cur(brk_result(old(k)@.cur(), size as int)),
        !brk_allowed(old(k)@.cur(), size as int) ==> r == -1 && final(k)@ == old(k)@,
{
    match k.change_current_program_brk(size) {
        Some(old_brk) => {
            #[verifier::truncate]
            let r = old_brk as isize;
            r
        },
        None => -1,
    }
}

/// `set_priority`: sets the current task's priority to `prio` and its
/// pass to `BIGSTRIDE / prio`, and counts the call. Returns `prio`; -1,
/// and no change, when `prio` is below 2.
pub fn sys_set_priority(k: &mut TaskManager, prio: isize) -> (r: isize)
    requires
        old(k).wf(),
        old(k)@.current is Some,
    ensures
        final(k).wf(),
        prio < 2 ==> r == -1 && final(k)@ == old(k)@,
        prio >= 2 ==> r == prio && final(k)@ == counted_for(
            prioritized(old(k)@, prio),
            old(k)@.current.unwrap(),
            SYSCALL_SET_PRIORITY as int,
        ),
{
    let r = k.set_priority(prio);
    if r != -1 {
        k.sys_call_add(SYSCALL_SET_PRIORITY);
    }
    r
}

/// `fork` gives the child a pid that no task has, the parent's memory
/// contents, and memory of its own: the parent's memory is what it was
/// before the fork, and when the child later stores bytes in its memory,
/// in any table `later` in which it is the current task, the parent is
/// left exactly as that table has it.
pub proof fn lemma_fork_isolates(k: KernelView, later: KernelView, addr: int, bytes: Seq<u8>)
    requires
        k.wf(),
        k.current is Some,
        k.has_room(),
        later.current == Some(k.next_pid()),
        later.live(k.next_pid() as int),
        later.live(k.current.unwrap() as int),
    ensures
        !k.live(k.next_pid() as int),
        k.next_pid() != k.current.unwrap(),
        fork_effect(k).live(k.next_pid() as int),
        fork_effect(k).task(k.next_pid() as int).memory == k.cur().memory,
        fork_effect(k).task(k.current.unwrap() as int).memory == k.cur().memory,
        later.with_cur(
            TaskView { memory: areas_write(later.cur().memory, addr, bytes), ..later.cur() },
        ).task(k.current.unwrap() as int) == later.task(k.current.unwrap() as int),
{
    assert(k.live(k.current.unwrap() as int));
}

} // verus!
