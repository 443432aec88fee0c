use kernel_core::abi::TASK_INFO_SIZE;
use kernel_core::config::{
    BIGSTRIDE, MAX_SYSCALL_NUM, PAGE_SIZE, SYSCALL_GET_TIME, SYSCALL_MMAP, SYSCALL_MUNMAP,
    SYSCALL_SET_PRIORITY, SYSCALL_SPAWN, SYSCALL_TASK_INFO,
};
use kernel_core::loader::{get_app_data, get_num_app, Loader};
use kernel_core::manager::TaskManager;
use kernel_core::syscall::process::{
    sys_exec, sys_exit, sys_fork, sys_get_time, sys_getpid, sys_mmap, sys_munmap, sys_sbrk,
    sys_set_priority, sys_spawn, sys_task_info, sys_waitpid, sys_yield,
};
use kernel_core::task::TaskStatus;

const DEFAULT_PASS: usize = BIGSTRIDE / 16;

/// An image with one code segment at 0x10000 (two pages) and one data
/// segment at 0x12000 (one page); its stack is 0x14000..0x16000.
fn kernel_test_image(entry: u64, code: &[u8]) -> Vec<u8> {
    let headers: [(u32, u64, u64, &[u8]); 2] = [(5, 0x10000, 0x2000, code), (6, 0x12000, 0x1000, &[])];
    let mut b = vec![0u8; 64 + 56 * headers.len()];
    b[0..4].copy_from_slice(&[0x7f, 0x45, 0x4c, 0x46]);
    b[4] = 2;
    b[5] = 1;
    b[24..32].copy_from_slice(&entry.to_le_bytes());
    b[32..40].copy_from_slice(&64u64.to_le_bytes());
    b[54..56].copy_from_slice(&56u16.to_le_bytes());
    b[56..58].copy_from_slice(&(headers.len() as u16).to_le_bytes());
    for (k, (flags, vaddr, mem_size, bytes)) in headers.iter().enumerate() {
        let at = 64 + 56 * k;
        let offset = b.len() as u64;
        b[at..at + 4].copy_from_slice(&1u32.to_le_bytes());
        b[at + 4..at + 8].copy_from_slice(&flags.to_le_bytes());
        b[at + 8..at + 16].copy_from_slice(&offset.to_le_bytes());
        b[at + 16..at + 24].copy_from_slice(&vaddr.to_le_bytes());
        b[at + 32..at + 40].copy_from_slice(&(bytes.len() as u64).to_le_bytes());
        b[at + 40..at + 48].copy_from_slice(&mem_size.to_le_bytes());
        b.extend_from_slice(bytes);
    }
    b
}

/// A table whose only task, pid 0, is running since time 100.
fn booted() -> TaskManager {
    let mut k = TaskManager::new();
    assert_eq!(k.create(&kernel_test_image(0x10000, &[1, 2, 3])), Some(0));
    assert!(k.add(0));
    assert_eq!(k.run_first_task(100), Some(0));
    k
}

fn areas_of(k: &TaskManager, pid: usize) -> Vec<(usize, usize)> {
    k.task(pid).unwrap().memory_set().get_areas().iter().map(|a| (a.get_start(), a.get_end())).collect()
}

fn counts_of(k: &TaskManager, pid: usize) -> [u32; MAX_SYSCALL_NUM] {
    k.task(pid).unwrap().get_sys_call()
}

fn only(num: usize, times: u32) -> [u32; MAX_SYSCALL_NUM] {
    let mut c = [0u32; MAX_SYSCALL_NUM];
    c[num] = times;
    c
}

#[test]
fn an_empty_table_has_nothing_to_run() {
    let mut k = TaskManager::new();
    assert_eq!(k.task_count(), 0);
    assert_eq!(k.ready_count(), 0);
    assert_eq!(k.current(), None);
    assert_eq!(k.fetch(), None);
    assert_eq!(k.fetch_fifo(), None);
    assert_eq!(k.run_first_task(0), None);
    assert_eq!(k.find_next_task(), None);
    assert!(k.task(0).is_none());
    assert!(!k.add(0));
}

#[test]
fn create_gives_pids_in_order_and_does_not_enqueue() {
    let mut k = TaskManager::new();
    let image = kernel_test_image(0x10000, &[]);
    assert_eq!(k.create(&image), Some(0));
    assert_eq!(k.create(&[1, 2, 3]), None);
    assert_eq!(k.create(&image), Some(1));
    assert_eq!(k.task_count(), 2);
    assert_eq!(k.ready_count(), 0);
    assert_eq!(k.task(1).unwrap().getpid(), 1);
    assert_eq!(k.task(1).unwrap().parent(), None);
    assert_eq!(k.task(1).unwrap().status(), TaskStatus::Ready);
}

#[test]
fn add_takes_a_ready_task_once() {
    let mut k = TaskManager::new();
    let image = kernel_test_image(0x10000, &[]);
    k.create(&image);
    k.create(&image);
    assert!(k.add(1));
    assert!(!k.add(1));
    assert!(!k.add(2));
    assert!(k.add(0));
    assert_eq!(k.ready_count(), 2);
    assert_eq!(k.run_first_task(0), Some(1));
    assert!(!k.add(1));
    assert_eq!(k.ready_count(), 1);
}

#[test]
fn the_first_task_gets_the_processor_and_a_start_time() {
    let k = booted();
    assert_eq!(k.current(), Some(0));
    assert_eq!(k.ready_count(), 0);
    let t = k.task(0).unwrap();
    assert_eq!(t.status(), TaskStatus::Running);
    assert_eq!(t.start_time(), Some(100));
    assert_eq!(t.get_stride(), DEFAULT_PASS);
    assert_eq!(k.get_total_time(250), 150);
    assert_eq!(k.get_total_time(100), 0);
    assert_eq!(k.get_total_time(99), 0);
}

#[test]
fn fetch_takes_the_smallest_stride_and_advances_it() {
    let mut k = TaskManager::new();
    let image = kernel_test_image(0x10000, &[]);
    for _ in 0..3 {
        k.create(&image);
    }
    assert!(k.set_stride(0, 10));
    assert!(k.set_stride(1, 3));
    assert!(k.set_stride(2, 7));
    assert!(!k.set_stride(3, 1));
    assert!(k.add(0) && k.add(1) && k.add(2));
    assert_eq!(k.fetch(), Some(1));
    assert_eq!(k.task(1).unwrap().get_stride(), 3 + DEFAULT_PASS);
    assert_eq!(k.task(1).unwrap().get_stride(), 3 + 134217727);
    assert_eq!(k.task(0).unwrap().get_stride(), 10);
    assert_eq!(k.task(2).unwrap().get_stride(), 7);
    assert_eq!(k.ready_count(), 2);
    assert_eq!(k.task(1).unwrap().status(), TaskStatus::Ready);
    assert_eq!(k.fetch(), Some(2));
    assert_eq!(k.fetch(), Some(0));
    assert_eq!(k.fetch(), None);
}

#[test]
fn fetch_breaks_ties_by_queue_order() {
    let mut k = TaskManager::new();
    let image = kernel_test_image(0x10000, &[]);
    for _ in 0..4 {
        k.create(&image);
    }
    k.set_stride(0, 5);
    k.set_stride(1, 2);
    k.set_stride(2, 2);
    k.set_stride(3, 2);
    assert!(k.add(3) && k.add(0) && k.add(2) && k.add(1));
    assert_eq!(k.fetch(), Some(3));
    assert_eq!(k.fetch(), Some(2));
    assert_eq!(k.fetch(), Some(1));
    assert_eq!(k.fetch(), Some(0));
}

#[test]
fn fetch_advances_by_the_tasks_own_pass() {
    let mut k = TaskManager::new();
    k.create(&kernel_test_image(0x10000, &[]));
    assert!(k.set_pass(0, 11));
    assert!(!k.set_pass(1, 11));
    k.set_stride(0, 30);
    k.add(0);
    assert_eq!(k.fetch(), Some(0));
    assert_eq!(k.task(0).unwrap().get_stride(), 41);
}

#[test]
fn a_stride_wraps_around_at_the_top() {
    let mut k = TaskManager::new();
    k.create(&kernel_test_image(0x10000, &[]));
    k.set_stride(0, usize::MAX - 1);
    k.set_pass(0, 5);
    k.add(0);
    assert_eq!(k.fetch(), Some(0));
    assert_eq!(k.task(0).unwrap().get_stride(), 3);
}

#[test]
fn fetch_fifo_takes_the_front() {
    let mut k = TaskManager::new();
    let image = kernel_test_image(0x10000, &[]);
    for _ in 0..3 {
        k.create(&image);
    }
    k.set_stride(0, 10);
    k.set_stride(1, 3);
    k.set_stride(2, 7);
    assert!(k.add(2) && k.add(0) && k.add(1));
    assert_eq!(k.fetch_fifo(), Some(2));
    assert_eq!(k.fetch_fifo(), Some(0));
    assert_eq!(k.task(0).unwrap().get_stride(), 10);
    assert_eq!(k.fetch_fifo(), Some(1));
    assert_eq!(k.fetch_fifo(), None);
}

#[test]
fn find_next_task_goes_round_from_the_current_task() {
    let mut k = TaskManager::new();
    let image = kernel_test_image(0x10000, &[]);
    for _ in 0..4 {
        k.create(&image);
    }
    assert_eq!(k.find_next_task(), Some(0));
    k.set_stride(0, 9);
    k.add(2);
    k.add(0);
    assert_eq!(k.run_first_task(0), Some(2));
    assert_eq!(k.find_next_task(), Some(3));
    assert_eq!(sys_exit(&mut k, 0, 0), Some(0));
    assert_eq!(k.current(), Some(0));
    assert_eq!(k.find_next_task(), Some(1));
    assert_eq!(sys_exit(&mut k, 0, 0), None);
    assert_eq!(k.find_next_task(), Some(1));
}

#[test]
fn getpid_names_the_current_task() {
    let mut k = booted();
    assert_eq!(sys_getpid(&k), 0);
    let child = sys_fork(&mut k);
    assert_eq!(child, 1);
    assert_eq!(sys_getpid(&k), 0);
    assert_eq!(sys_yield(&mut k, 0), 0);
    assert_eq!(sys_getpid(&k), 1);
}

#[test]
fn fork_makes_a_ready_child_with_a_new_pid_that_sees_zero() {
    let mut k = booted();
    k.set_return_value(0, 55);
    assert_eq!(sys_fork(&mut k), 1);
    assert_eq!(k.task_count(), 2);
    assert_eq!(k.ready_count(), 1);
    let child = k.task(1).unwrap();
    assert_eq!(child.getpid(), 1);
    assert_eq!(child.parent(), Some(0));
    assert_eq!(child.status(), TaskStatus::Ready);
    assert_eq!(child.get_trap_cx().x[10], 0);
    assert_eq!(child.get_trap_cx().sepc, 0x10000);
    assert_eq!(child.get_stride(), 0);
    assert_eq!(child.start_time(), None);
    let parent = k.task(0).unwrap();
    assert_eq!(parent.children(), &vec![1]);
    assert_eq!(parent.get_trap_cx().x[10], 55);
    assert_eq!(parent.status(), TaskStatus::Running);
    assert_eq!(sys_fork(&mut k), 2);
    assert_eq!(k.task(0).unwrap().children(), &vec![1, 2]);
}

#[test]
fn a_write_by_the_child_does_not_reach_the_parent() {
    let mut k = booted();
    assert!(k.write_user(0x12000, &[1, 2, 3, 4]));
    assert_eq!(sys_fork(&mut k), 1);
    assert_eq!(k.task(1).unwrap().memory_set().read_bytes(0x12000, 4), Some(vec![1, 2, 3, 4]));
    sys_yield(&mut k, 0);
    assert_eq!(k.current(), Some(1));
    assert!(k.write_user(0x12000, &[9, 9, 9, 9]));
    assert_eq!(k.read_user(0x12000, 4), Some(vec![9, 9, 9, 9]));
    assert_eq!(k.task(0).unwrap().memory_set().read_bytes(0x12000, 4), Some(vec![1, 2, 3, 4]));
    sys_yield(&mut k, 0);
    assert_eq!(k.current(), Some(0));
    assert!(k.write_user(0x12001, &[7]));
    assert_eq!(k.task(1).unwrap().memory_set().read_bytes(0x12000, 4), Some(vec![9, 9, 9, 9]));
    assert_eq!(k.read_user(0x12000, 4), Some(vec![1, 7, 3, 4]));
}

#[test]
fn a_mapping_made_by_the_child_is_not_the_parents() {
    let mut k = booted();
    sys_fork(&mut k);
    sys_yield(&mut k, 0);
    assert_eq!(sys_mmap(&mut k, 0x80000, PAGE_SIZE, 3), 0);
    assert_eq!(areas_of(&k, 1).len(), 5);
    assert_eq!(areas_of(&k, 0).len(), 4);
}

#[test]
fn yield_passes_the_processor_by_stride() {
    let mut k = booted();
    assert_eq!(sys_fork(&mut k), 1);
    assert_eq!(sys_fork(&mut k), 2);
    assert_eq!(sys_yield(&mut k, 200), 0);
    assert_eq!(k.current(), Some(1));
    assert_eq!(k.task(0).unwrap().status(), TaskStatus::Ready);
    assert_eq!(k.task(1).unwrap().status(), TaskStatus::Running);
    assert_eq!(k.task(1).unwrap().start_time(), Some(200));
    assert_eq!(k.task(1).unwrap().get_stride(), DEFAULT_PASS);
    assert_eq!(sys_yield(&mut k, 300), 0);
    assert_eq!(k.current(), Some(2));
    assert_eq!(sys_yield(&mut k, 400), 0);
    assert_eq!(k.current(), Some(0));
    assert_eq!(k.task(0).unwrap().start_time(), Some(100));
    assert_eq!(k.task(0).unwrap().get_stride(), 2 * DEFAULT_PASS);
    assert_eq!(k.ready_count(), 2);
}

#[test]
fn a_lone_task_that_yields_runs_on() {
    let mut k = booted();
    assert_eq!(sys_yield(&mut k, 500), 0);
    assert_eq!(k.current(), Some(0));
    assert_eq!(k.task(0).unwrap().status(), TaskStatus::Running);
    assert_eq!(k.task(0).unwrap().start_time(), Some(100));
    assert_eq!(k.task(0).unwrap().get_stride(), 2 * DEFAULT_PASS);
}

#[test]
fn a_higher_priority_runs_more_often() {
    let mut k = booted();
    sys_fork(&mut k);
    assert_eq!(sys_set_priority(&mut k, 32), 32);
    let mut runs = [0usize; 2];
    for _ in 0..30 {
        sys_yield(&mut k, 0);
        runs[k.current().unwrap()] += 1;
    }
    assert_eq!(runs, [19, 11]);
}

#[test]
fn exit_leaves_a_zombie_and_runs_the_next_task() {
    let mut k = booted();
    sys_fork(&mut k);
    assert_eq!(sys_exit(&mut k, 3, 700), Some(1));
    assert_eq!(k.current(), Some(1));
    let zombie = k.task(0).unwrap();
    assert_eq!(zombie.status(), TaskStatus::Zombie);
    assert_eq!(zombie.exit_code(), 3);
    assert_eq!(zombie.children(), &vec![1]);
    assert_eq!(zombie.memory_set().area_count(), 4);
    assert_eq!(k.task(1).unwrap().start_time(), Some(700));
    assert_eq!(k.ready_count(), 0);
    assert!(!k.add(0));
}

#[test]
fn exit_of_the_last_task_frees_the_processor() {
    let mut k = booted();
    assert_eq!(sys_exit(&mut k, -1, 0), None);
    assert_eq!(k.current(), None);
    assert_eq!(k.task(0).unwrap().exit_code(), -1);
    assert!(k.task(0).unwrap().is_zombie());
    assert_eq!(k.run_first_task(0), None);
}

#[test]
fn waitpid_without_children_returns_minus_one() {
    let mut k = booted();
    assert_eq!(sys_waitpid(&mut k, -1, 0x12000), -1);
    assert_eq!(sys_waitpid(&mut k, 1, 0x12000), -1);
    assert_eq!(sys_waitpid(&mut k, 0, 0x12000), -1);
}

#[test]
fn waitpid_with_a_running_child_returns_minus_two() {
    let mut k = booted();
    assert_eq!(sys_fork(&mut k), 1);
    assert_eq!(sys_waitpid(&mut k, -1, 0x12000), -2);
    assert_eq!(sys_waitpid(&mut k, 1, 0x12000), -2);
    assert_eq!(sys_waitpid(&mut k, 2, 0x12000), -1);
    assert_eq!(sys_waitpid(&mut k, -2, 0x12000), -1);
    assert_eq!(k.task(0).unwrap().children(), &vec![1]);
    assert_eq!(k.read_user(0x12000, 4), Some(vec![0, 0, 0, 0]));
}

#[test]
fn waitpid_collects_a_zombie_child_and_its_exit_code() {
    let mut k = booted();
    assert_eq!(sys_fork(&mut k), 1);
    sys_yield(&mut k, 0);
    assert_eq!(k.current(), Some(1));
    assert_eq!(sys_exit(&mut k, -3, 0), Some(0));
    assert_eq!(sys_waitpid(&mut k, -1, 0x12ffc), 1);
    assert_eq!(k.read_user(0x12ffc, 4), Some(vec![0xfd, 0xff, 0xff, 0xff]));
    assert_eq!(sys_waitpid(&mut k, -1, 0x12000), -1);
    assert!(k.task(0).unwrap().children().is_empty());
    assert!(k.task(1).is_none());
    assert_eq!(k.task_count(), 2);
    assert_eq!(sys_fork(&mut k), 2);
}

#[test]
fn waitpid_writes_the_exit_code_across_a_page_boundary() {
    let mut k = booted();
    assert_eq!(sys_mmap(&mut k, 0x20000, PAGE_SIZE, 3), 0);
    assert_eq!(sys_mmap(&mut k, 0x21000, PAGE_SIZE, 3), 0);
    sys_fork(&mut k);
    sys_yield(&mut k, 0);
    sys_exit(&mut k, 0x01020304, 0);
    assert_eq!(sys_waitpid(&mut k, 1, 0x20ffe), 1);
    assert_eq!(k.read_user(0x20ffe, 4), Some(vec![4, 3, 2, 1]));
}

#[test]
fn waitpid_takes_the_first_zombie_among_the_children_it_names() {
    let mut k = booted();
    for _ in 0..3 {
        sys_fork(&mut k);
    }
    sys_yield(&mut k, 0);
    assert_eq!(k.current(), Some(1));
    sys_yield(&mut k, 0);
    assert_eq!(k.current(), Some(2));
    sys_exit(&mut k, 20, 0);
    assert_eq!(k.current(), Some(3));
    sys_exit(&mut k, 30, 0);
    assert_eq!(k.current(), Some(0));
    assert_eq!(sys_waitpid(&mut k, 1, 0x12000), -2);
    assert_eq!(sys_waitpid(&mut k, 3, 0x12000), 3);
    assert_eq!(k.read_user(0x12000, 4), Some(vec![30, 0, 0, 0]));
    assert_eq!(k.task(0).unwrap().children(), &vec![1, 2]);
    assert_eq!(sys_waitpid(&mut k, -1, 0x12000), 2);
    assert_eq!(k.read_user(0x12000, 4), Some(vec![20, 0, 0, 0]));
    assert_eq!(sys_waitpid(&mut k, -1, 0x12000), -2);
    assert_eq!(k.task(0).unwrap().children(), &vec![1]);
}

#[test]
fn waitpid_with_an_unmapped_pointer_collects_nothing() {
    let mut k = booted();
    sys_fork(&mut k);
    sys_yield(&mut k, 0);
    sys_exit(&mut k, 5, 0);
    assert_eq!(sys_waitpid(&mut k, -1, 0), -1);
    assert_eq!(sys_waitpid(&mut k, -1, 0x12ffd), -1);
    assert_eq!(k.task(0).unwrap().children(), &vec![1]);
    assert!(k.task(1).unwrap().is_zombie());
    assert_eq!(sys_waitpid(&mut k, -1, 0x12ffc), 1);
}

#[test]
fn a_zombies_children_stay_with_it() {
    let mut k = booted();
    sys_fork(&mut k);
    sys_yield(&mut k, 0);
    assert_eq!(sys_fork(&mut k), 2);
    assert_eq!(sys_exit(&mut k, 0, 0), Some(2));
    assert_eq!(k.task(1).unwrap().children(), &vec![2]);
    assert_eq!(k.task(2).unwrap().parent(), Some(1));
    sys_yield(&mut k, 0);
    assert_eq!(k.current(), Some(0));
    assert_eq!(sys_waitpid(&mut k, 2, 0x12000), -1);
    assert_eq!(sys_waitpid(&mut k, -1, 0x12000), 1);
    assert!(k.task(1).is_none());
    assert_eq!(k.task(2).unwrap().parent(), Some(1));
    assert_eq!(k.task(2).unwrap().status(), TaskStatus::Ready);
}

#[test]
fn set_priority_below_two_is_refused() {
    let mut k = booted();
    let (stride, pass) = (k.task(0).unwrap().get_stride(), k.task(0).unwrap().get_pass());
    assert_eq!(sys_set_priority(&mut k, 1), -1);
    assert_eq!(sys_set_priority(&mut k, 0), -1);
    assert_eq!(sys_set_priority(&mut k, -5), -1);
    assert_eq!(sys_set_priority(&mut k, isize::MIN), -1);
    let t = k.task(0).unwrap();
    assert_eq!((t.get_stride(), t.get_pass(), t.get_priority()), (stride, pass, 16));
    assert_eq!(counts_of(&k, 0), [0u32; MAX_SYSCALL_NUM]);
}

#[test]
fn set_priority_sets_the_pass() {
    let mut k = booted();
    let stride = k.task(0).unwrap().get_stride();
    assert_eq!(sys_set_priority(&mut k, 4), 4);
    let t = k.task(0).unwrap();
    assert_eq!(t.get_priority(), 4);
    assert_eq!(t.get_pass(), BIGSTRIDE / 4);
    assert_eq!(t.get_pass(), 536870911);
    assert_eq!(t.get_stride(), stride);
    assert_eq!(counts_of(&k, 0), only(SYSCALL_SET_PRIORITY, 1));
    assert_eq!(sys_set_priority(&mut k, 2), 2);
    assert_eq!(k.task(0).unwrap().get_pass(), 1073741823);
    assert_eq!(sys_set_priority(&mut k, isize::MAX), isize::MAX);
    assert_eq!(k.task(0).unwrap().get_pass(), 0);
    assert_eq!(k.set_priority(3), 3);
    assert_eq!(k.task(0).unwrap().get_pass(), 715827882);
    assert_eq!(counts_of(&k, 0), only(SYSCALL_SET_PRIORITY, 3));
}

#[test]
fn sys_mmap_maps_in_the_current_task_and_counts() {
    let mut k = booted();
    assert_eq!(sys_mmap(&mut k, 0x20000, 2 * PAGE_SIZE, 3), 0);
    assert_eq!(areas_of(&k, 0).last(), Some(&(0x20, 0x22)));
    assert_eq!(counts_of(&k, 0), only(SYSCALL_MMAP, 1));
    assert!(k.write_user(0x21fff, &[1]));
}

#[test]
fn sys_mmap_failures_change_nothing() {
    let mut k = booted();
    let before = areas_of(&k, 0);
    assert_eq!(sys_mmap(&mut k, 0x20000, PAGE_SIZE, 0), -1);
    assert_eq!(sys_mmap(&mut k, 0x20000, PAGE_SIZE, 8), -1);
    assert_eq!(sys_mmap(&mut k, 0x20001, PAGE_SIZE, 3), -1);
    assert_eq!(sys_mmap(&mut k, 0x11000, PAGE_SIZE, 3), -1);
    assert_eq!(sys_mmap(&mut k, 0x13000, 2 * PAGE_SIZE, 3), -1);
    assert_eq!(areas_of(&k, 0), before);
    assert_eq!(counts_of(&k, 0), [0u32; MAX_SYSCALL_NUM]);
    assert_eq!(sys_mmap(&mut k, 0x13000, PAGE_SIZE, 3), 0);
}

#[test]
fn sys_munmap_unmaps_and_counts() {
    let mut k = booted();
    assert_eq!(sys_mmap(&mut k, 0x20000, 2 * PAGE_SIZE, 3), 0);
    assert_eq!(sys_munmap(&mut k, 0x20000, 2 * PAGE_SIZE), 0);
    assert_eq!(areas_of(&k, 0).len(), 4);
    assert_eq!(counts_of(&k, 0)[SYSCALL_MUNMAP], 1);
    assert_eq!(sys_munmap(&mut k, 0x20000, 2 * PAGE_SIZE), -1);
    assert_eq!(sys_munmap(&mut k, 0x10001, PAGE_SIZE), -1);
    assert_eq!(sys_munmap(&mut k, 0x10000, 5), -1);
    assert_eq!(counts_of(&k, 0)[SYSCALL_MUNMAP], 1);
    assert_eq!(areas_of(&k, 0).len(), 4);
    assert_eq!(k.munmap(0x11000, PAGE_SIZE), 0);
    assert_eq!(areas_of(&k, 0)[0], (0x10, 0x11));
    assert_eq!(counts_of(&k, 0)[SYSCALL_MUNMAP], 1);
}

#[test]
fn sbrk_returns_the_previous_break() {
    let mut k = booted();
    assert_eq!(sys_sbrk(&mut k, 0), 0x16000);
    assert_eq!(sys_sbrk(&mut k, 0x1800), 0x16000);
    assert_eq!(sys_sbrk(&mut k, -0x800), 0x17800);
    assert_eq!(sys_sbrk(&mut k, 0), 0x17000);
    assert_eq!(areas_of(&k, 0)[3], (0x16, 0x17));
    assert!(k.write_user(0x16fff, &[1]));
    assert!(!k.write_user(0x17000, &[1]));
    assert_eq!(sys_sbrk(&mut k, -0x1001), -1);
    assert_eq!(sys_sbrk(&mut k, 0), 0x17000);
    assert_eq!(k.change_current_program_brk(-0x1000), Some(0x17000));
    assert_eq!(k.change_current_program_brk(-1), None);
}

#[test]
fn sbrk_fails_when_the_heap_would_grow_into_a_mapped_area() {
    let mut k = booted();
    assert_eq!(sys_mmap(&mut k, 0x18000, PAGE_SIZE, 3), 0);
    assert_eq!(sys_sbrk(&mut k, 0x2000), 0x16000);
    assert_eq!(sys_sbrk(&mut k, 1), -1);
    assert_eq!(sys_sbrk(&mut k, 0), 0x18000);
    assert_eq!(areas_of(&k, 0)[3], (0x16, 0x18));
    assert_eq!(sys_munmap(&mut k, 0x18000, PAGE_SIZE), 0);
    assert_eq!(sys_sbrk(&mut k, 1), 0x18000);
}

#[test]
fn sbrk_fails_once_the_heap_was_unmapped() {
    let mut k = booted();
    assert_eq!(sys_sbrk(&mut k, 0x2000), 0x16000);
    assert_eq!(sys_munmap(&mut k, 0x16000, PAGE_SIZE), 0);
    assert_eq!(sys_sbrk(&mut k, 1), -1);
    assert_eq!(sys_sbrk(&mut k, -1), -1);
    assert_eq!(k.task(0).unwrap().program_brk(), 0x18000);
}

#[test]
fn get_time_stores_seconds_and_microseconds() {
    let mut k = booted();
    assert_eq!(sys_get_time(&mut k, 0x12008, 0, 3_000_042), 0);
    let mut expect = 3u64.to_le_bytes().to_vec();
    expect.extend_from_slice(&42u64.to_le_bytes());
    assert_eq!(k.read_user(0x12008, 16), Some(expect));
    assert_eq!(counts_of(&k, 0), only(SYSCALL_GET_TIME, 1));
    assert_eq!(sys_get_time(&mut k, 0x12008, 0, 999_999), 0);
    assert_eq!(k.read_user(0x12008, 16).unwrap()[0..9], [0, 0, 0, 0, 0, 0, 0, 0, 0x3f]);
    assert_eq!(counts_of(&k, 0), only(SYSCALL_GET_TIME, 2));
}

#[test]
fn get_time_stores_across_a_page_boundary() {
    let mut k = booted();
    assert_eq!(sys_get_time(&mut k, 0x10ffc, 9, 0x0102_0304 * 1_000_000 + 0x0a0b0c), 0);
    assert_eq!(
        k.read_user(0x10ffc, 16),
        Some(vec![4, 3, 2, 1, 0, 0, 0, 0, 0x0c, 0x0b, 0x0a, 0, 0, 0, 0, 0])
    );
}

#[test]
fn get_time_into_unmapped_memory_fails_and_counts_nothing() {
    let mut k = booted();
    assert_eq!(sys_get_time(&mut k, 0x12ff1, 0, 5), -1);
    assert_eq!(sys_get_time(&mut k, 0, 0, 5), -1);
    assert_eq!(k.read_user(0x12ff1, 15), Some(vec![0; 15]));
    assert_eq!(counts_of(&k, 0), [0u32; MAX_SYSCALL_NUM]);
    assert_eq!(sys_get_time(&mut k, 0x12ff0, 0, 5), 0);
}

#[test]
fn task_info_reports_status_counters_and_time() {
    let mut k = booted();
    assert_eq!(sys_get_time(&mut k, 0x12000, 0, 0), 0);
    assert_eq!(sys_get_time(&mut k, 0x12000, 0, 0), 0);
    assert_eq!(sys_mmap(&mut k, 0x20000, 2 * PAGE_SIZE, 3), 0);
    assert_eq!(sys_task_info(&mut k, 0x20ffd, 100 + 0x0507), 0);
    let b = k.read_user(0x20ffd, TASK_INFO_SIZE).unwrap();
    assert_eq!(b.len(), 2016);
    assert_eq!(b[0..4], [2, 0, 0, 0]);
    for n in 0..MAX_SYSCALL_NUM {
        let want: u32 = match n {
            SYSCALL_GET_TIME => 2,
            SYSCALL_MMAP => 1,
            SYSCALL_TASK_INFO => 1,
            _ => 0,
        };
        assert_eq!(b[4 + 4 * n..8 + 4 * n], want.to_le_bytes());
    }
    assert_eq!(b[2004..2008], [0, 0, 0, 0]);
    assert_eq!(b[2008..2016], [7, 5, 0, 0, 0, 0, 0, 0]);
    assert_eq!(counts_of(&k, 0)[SYSCALL_TASK_INFO], 1);
    assert_eq!(k.get_sys_call()[SYSCALL_GET_TIME], 2);
}

#[test]
fn task_info_refuses_null_and_unmapped_pointers() {
    let mut k = booted();
    assert_eq!(sys_task_info(&mut k, 0, 0), -1);
    assert_eq!(sys_task_info(&mut k, 0x12821, 0), -1);
    assert_eq!(sys_task_info(&mut k, 0x13000, 0), -1);
    assert_eq!(counts_of(&k, 0), [0u32; MAX_SYSCALL_NUM]);
    assert_eq!(k.read_user(0x12000, PAGE_SIZE), Some(vec![0; PAGE_SIZE]));
    assert_eq!(sys_mmap(&mut k, 0, PAGE_SIZE, 3), 0);
    assert_eq!(sys_task_info(&mut k, 0, 0), -1);
    assert_eq!(sys_task_info(&mut k, 0x10000, 0), 0);
}

#[test]
fn a_call_is_counted_once_and_only_while_running() {
    let mut k = booted();
    sys_fork(&mut k);
    k.sys_call_add(64);
    k.sys_call_add(64);
    k.sys_call_add(93);
    k.sys_call_add_to(0, 64);
    k.sys_call_add_to(1, 64);
    k.sys_call_add_to(7, 64);
    k.sys_call_add(MAX_SYSCALL_NUM);
    k.sys_call_add(usize::MAX);
    let mut want = only(64, 3);
    want[93] = 1;
    assert_eq!(counts_of(&k, 0), want);
    assert_eq!(counts_of(&k, 1), [0u32; MAX_SYSCALL_NUM]);
    sys_yield(&mut k, 0);
    k.sys_call_add_to(0, 64);
    k.sys_call_add_to(1, 64);
    assert_eq!(counts_of(&k, 0), want);
    assert_eq!(counts_of(&k, 1), only(64, 1));
    sys_exit(&mut k, 0, 0);
    k.sys_call_add_to(1, 64);
    assert_eq!(counts_of(&k, 1), only(64, 1));
    k.sys_call_add(499);
    assert_eq!(counts_of(&k, 0)[499], 1);
}

fn table_of_two() -> Loader {
    let mut loader = Loader::new();
    loader.register(b"first".to_vec(), kernel_test_image(0x10000, &[1]));
    loader.register(b"other".to_vec(), kernel_test_image(0x11000, &[7, 7]));
    loader.register(b"broken".to_vec(), vec![1, 2, 3]);
    loader.register(b"other".to_vec(), kernel_test_image(0x11800, &[8, 8]));
    loader
}

#[test]
fn the_loader_finds_programs_by_index_and_name() {
    let loader = table_of_two();
    assert_eq!(loader.num_apps(), 4);
    assert_eq!(get_num_app(&loader), 4);
    assert_eq!(get_app_data(&loader, 2), &[1, 2, 3]);
    assert_eq!(loader.app_image(2), &[1, 2, 3]);
    assert_eq!(loader.app_image_by_name(b"broken"), Some(&[1u8, 2, 3][..]));
    assert_eq!(loader.app_image_by_name(b"other"), Some(&kernel_test_image(0x11000, &[7, 7])[..]));
    assert_eq!(loader.app_image_by_name(b"othe"), None);
    assert_eq!(loader.app_image_by_name(b"others"), None);
    assert_eq!(loader.app_image_by_name(b""), None);
    assert_eq!(Loader::new().num_apps(), 0);
}

#[test]
fn exec_runs_the_named_program() {
    let mut k = booted();
    let loader = table_of_two();
    sys_fork(&mut k);
    assert!(k.write_user(0x12ffa, b"other\0"));
    assert_eq!(sys_exec(&mut k, &loader, 0x12ffa), 0);
    let t = k.task(0).unwrap();
    assert_eq!(t.get_trap_cx().sepc, 0x11000);
    assert_eq!(t.get_trap_cx().x[2], 0x16000);
    assert_eq!(t.memory_set().read_bytes(0x10000, 3), Some(vec![7, 7, 0]));
    assert_eq!(t.memory_set().read_bytes(0x12ffa, 6), Some(vec![0; 6]));
    assert_eq!(t.getpid(), 0);
    assert_eq!(t.children(), &vec![1]);
    assert_eq!(t.status(), TaskStatus::Running);
    assert_eq!(k.current(), Some(0));
}

#[test]
fn exec_of_an_unknown_or_unreadable_name_fails() {
    let mut k = booted();
    let loader = table_of_two();
    assert!(k.write_user(0x12000, b"missing\0"));
    assert!(k.write_user(0x12ffa, b"other!"));
    assert!(k.write_user(0x12010, b"broken\0"));
    assert_eq!(sys_exec(&mut k, &loader, 0x12000), -1);
    assert_eq!(sys_exec(&mut k, &loader, 0x12ffa), -1);
    assert_eq!(sys_exec(&mut k, &loader, 0x12010), -1);
    assert_eq!(sys_exec(&mut k, &loader, 0), -1);
    assert_eq!(sys_exec(&mut k, &Loader::new(), 0x12010), -1);
    let t = k.task(0).unwrap();
    assert_eq!(t.get_trap_cx().sepc, 0x10000);
    assert_eq!(t.memory_set().read_bytes(0x10000, 3), Some(vec![1, 2, 3]));
    assert_eq!(t.memory_set().read_bytes(0x12000, 7), Some(b"missing".to_vec()));
}

#[test]
fn spawn_makes_a_ready_child_from_the_named_program() {
    let mut k = booted();
    let loader = table_of_two();
    assert!(k.write_user(0x12000, b"other\0"));
    assert_eq!(sys_set_priority(&mut k, 4), 4);
    assert_eq!(sys_spawn(&mut k, &loader, 0x12000), 1);
    let child = k.task(1).unwrap();
    assert_eq!(child.parent(), Some(0));
    assert_eq!(child.status(), TaskStatus::Ready);
    assert_eq!(child.get_trap_cx().sepc, 0x11000);
    assert_eq!(child.get_priority(), 16);
    assert_eq!(child.memory_set().read_bytes(0x10000, 2), Some(vec![7, 7]));
    assert_eq!(child.memory_set().read_bytes(0x12000, 6), Some(vec![0; 6]));
    assert_eq!(k.task(0).unwrap().children(), &vec![1]);
    assert_eq!(k.ready_count(), 1);
    assert_eq!(counts_of(&k, 0)[SYSCALL_SPAWN], 1);
    sys_yield(&mut k, 0);
    assert_eq!(k.current(), Some(1));
}

#[test]
fn spawn_of_an_unknown_or_broken_program_fails() {
    let mut k = booted();
    let loader = table_of_two();
    assert!(k.write_user(0x12000, b"nothing\0"));
    assert!(k.write_user(0x12010, b"broken\0"));
    assert_eq!(sys_spawn(&mut k, &loader, 0x12000), -1);
    assert_eq!(sys_spawn(&mut k, &loader, 0x12010), -1);
    assert_eq!(sys_spawn(&mut k, &loader, 0x13000), -1);
    assert_eq!(k.task_count(), 1);
    assert!(k.task(0).unwrap().children().is_empty());
    assert_eq!(counts_of(&k, 0), [0u32; MAX_SYSCALL_NUM]);
    assert_eq!(k.ready_count(), 0);
}

#[test]
fn user_strings_are_read_up_to_the_nul() {
    let mut k = booted();
    assert!(k.write_user(0x12000, b"abc\0def"));
    assert_eq!(k.read_user_str(0x12000), Some(b"abc".to_vec()));
    assert_eq!(k.read_user_str(0x12004), Some(b"def".to_vec()));
    assert_eq!(k.read_user_str(0x13000), None);
    assert_eq!(k.read_user(0x12ffe, 3), None);
    assert!(!k.write_user(0x12ffe, &[1, 2, 3]));
    assert_eq!(k.read_user(0x12ffe, 2), Some(vec![0, 0]));
}

#[test]
fn the_trap_context_of_the_current_task_can_be_replaced() {
    let mut k = booted();
    let mut cx = k.get_current_trap_cx();
    assert_eq!(cx.sepc, 0x10000);
    cx.sepc += 4;
    cx.x[17] = 64;
    k.set_current_trap_cx(cx);
    assert_eq!(k.get_current_trap_cx().sepc, 0x10004);
    assert_eq!(k.current_task().get_trap_cx().x[17], 64);
    k.set_return_value(0, 12);
    assert_eq!(k.get_current_trap_cx().x[10], 12);
    assert_eq!(k.get_current_trap_cx().x[17], 64);
}
