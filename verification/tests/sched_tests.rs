//! Tests of the scheduler and the process-management syscalls: FIFO and
//! stride selection, priority handling, forking, waiting and reporting.

use oscore::kernel::Kernel;
use oscore::syscall::process::{
    sys_exit, sys_fork, sys_get_time, sys_getpid, sys_set_priority, sys_task_info, sys_waitpid,
    sys_yield, TaskInfo, TimeVal, SYSCALL_TASK_INFO, SYSCALL_YIELD,
};
use oscore::task::manager::TaskManager;
use oscore::task::{TaskStatus, BIG_STRIDE, DEFAULT_PRIORITY};

fn kernel_with_tasks(extra: usize) -> Kernel {
    let mut k = Kernel::new();
    for _ in 0..extra {
        let t = k.create_thread(0);
        k.tasks[t].status = TaskStatus::Running;
    }
    while k.manager.fetch().is_some() {}
    k
}

#[test]
fn fifo_fetch_pops_in_arrival_order() {
    let mut m = TaskManager::new();
    m.add(4);
    m.add(2);
    m.add(9);
    assert_eq!(m.fetch(), Some(4));
    assert_eq!(m.fetch(), Some(2));
    assert_eq!(m.fetch(), Some(9));
    assert_eq!(m.fetch(), None);
}

#[test]
fn stride_selection_takes_first_minimum() {
    let mut k = kernel_with_tasks(2);
    k.tasks[0].stride = 30;
    k.tasks[1].stride = 10;
    k.tasks[2].stride = 10;
    k.manager.add(0);
    k.manager.add(1);
    k.manager.add(2);
    // ties go to the earlier queue position
    assert_eq!(k.manager.get_smallest_stride_task(&k.tasks), Some(1));
    assert_eq!(k.manager.get_smallest_stride_task(&k.tasks), Some(2));
    assert_eq!(k.manager.get_smallest_stride_task(&k.tasks), Some(0));
}

#[test]
fn set_priority_rejects_below_minimum() {
    let mut k = kernel_with_tasks(0);
    assert_eq!(sys_set_priority(&mut k, 0, 1), -1);
    assert_eq!(k.tasks[0].priority, DEFAULT_PRIORITY);
    assert_eq!(sys_set_priority(&mut k, 0, 2), 2);
    assert_eq!(k.tasks[0].priority, 2);
    assert_eq!(sys_set_priority(&mut k, 0, -3), -1);
    assert_eq!(sys_set_priority(&mut k, 0, 100), 100);
}

#[test]
fn stride_dispatch_ratio_follows_priorities() {
    // two always-ready tasks with priorities 2 and 4: over many rounds
    // the dispatch counts approach 4 : 2 in the higher task's favour
    let mut k = kernel_with_tasks(1);
    assert_eq!(sys_set_priority(&mut k, 0, 2), 2);
    assert_eq!(sys_set_priority(&mut k, 1, 4), 4);
    k.tasks[0].status = TaskStatus::Ready;
    k.tasks[1].status = TaskStatus::Ready;
    k.manager.add(0);
    k.manager.add(1);
    let mut counts = [0u64; 2];
    for _ in 0..3000 {
        let t = k.manager.get_smallest_stride_task(&k.tasks).unwrap();
        counts[t] += 1;
        k.tasks[t].charge_pass();
        k.manager.add(t);
    }
    // priority 4 runs about twice as often as priority 2
    let diff = counts[1] as i64 - 2 * counts[0] as i64;
    assert!(diff.abs() <= 4, "counts {:?} stray from 2:1", counts);
    assert_eq!(counts[0] + counts[1], 3000);
}

#[test]
fn pass_is_big_stride_over_priority() {
    let mut k = kernel_with_tasks(0);
    assert_eq!(sys_set_priority(&mut k, 0, 16), 16);
    assert_eq!(k.tasks[0].pass(), BIG_STRIDE / 16);
    k.tasks[0].charge_pass();
    assert_eq!(k.tasks[0].stride, BIG_STRIDE / 16);
    // raising the priority only changes future passes, not the stride
    assert_eq!(sys_set_priority(&mut k, 0, 2), 2);
    assert_eq!(k.tasks[0].stride, BIG_STRIDE / 16);
    k.tasks[0].charge_pass();
    assert_eq!(k.tasks[0].stride, BIG_STRIDE / 16 + BIG_STRIDE / 2);
}

#[test]
fn yield_requeues_the_caller() {
    let mut k = kernel_with_tasks(0);
    assert_eq!(sys_yield(&mut k, 0), 0);
    assert!(matches!(k.tasks[0].status, TaskStatus::Ready));
    assert_eq!(k.manager.fetch(), Some(0));
}

#[test]
fn getpid_reports_the_owning_process() {
    let mut k = kernel_with_tasks(0);
    assert_eq!(sys_getpid(&mut k, 0), 0);
    let child_pid = sys_fork(&mut k, 0);
    assert_eq!(child_pid, 1);
    let child_tid = k.manager.fetch().unwrap();
    k.tasks[child_tid].status = TaskStatus::Running;
    assert_eq!(sys_getpid(&mut k, child_tid), 1);
}

#[test]
fn get_time_splits_microseconds() {
    let mut k = kernel_with_tasks(0);
    let mut tv = TimeVal { sec: 0, usec: 0 };
    assert_eq!(sys_get_time(&mut k, 0, &mut tv, 0, 2_500_031), 0);
    assert_eq!(tv.sec, 2);
    assert_eq!(tv.usec, 500_031);
}

#[test]
fn task_info_reports_syscall_counts() {
    let mut k = kernel_with_tasks(0);
    assert_eq!(sys_yield(&mut k, 0), 0);
    k.tasks[0].status = TaskStatus::Running;
    assert_eq!(sys_yield(&mut k, 0), 0);
    k.tasks[0].status = TaskStatus::Running;
    let mut info = TaskInfo { status: TaskStatus::Ready, syscall_times: Vec::new(), time: 0 };
    assert_eq!(sys_task_info(&mut k, 0, &mut info), 0);
    assert!(matches!(info.status, TaskStatus::Running));
    assert_eq!(info.syscall_times[SYSCALL_YIELD], 2);
    assert_eq!(info.syscall_times[SYSCALL_TASK_INFO], 1);
}

#[test]
fn fork_then_waitpid_reaps_the_child() {
    let mut k = kernel_with_tasks(0);
    let child_pid = sys_fork(&mut k, 0);
    assert_eq!(child_pid, 1);
    let child_tid = k.manager.fetch().unwrap();
    assert_eq!(child_tid, 1);
    assert_eq!(k.tasks[child_tid].pid, 1);
    // the child still runs: waiting reports that
    let mut code: i32 = 0;
    assert_eq!(sys_waitpid(&mut k, 0, -1, &mut code), -2);
    // no child with pid 5 exists at all
    assert_eq!(sys_waitpid(&mut k, 0, 5, &mut code), -1);
    // the child exits; reaping returns its pid and exit code
    k.tasks[child_tid].status = TaskStatus::Running;
    sys_exit(&mut k, child_tid, 42);
    assert!(matches!(k.tasks[child_tid].status, TaskStatus::Zombie));
    assert!(k.procs[1].is_zombie);
    assert_eq!(sys_waitpid(&mut k, 0, -1, &mut code), 1);
    assert_eq!(code, 42);
    assert_eq!(k.procs[0].children.len(), 0);
    // a second wait finds no child left
    assert_eq!(sys_waitpid(&mut k, 0, -1, &mut code), -1);
}

#[test]
fn fork_copies_scheduling_state() {
    let mut k = kernel_with_tasks(0);
    assert_eq!(sys_set_priority(&mut k, 0, 8), 8);
    k.tasks[0].stride = 77;
    assert_eq!(sys_fork(&mut k, 0), 1);
    assert_eq!(k.tasks[1].priority, 8);
    assert_eq!(k.tasks[1].stride, 77);
    assert!(matches!(k.tasks[1].status, TaskStatus::Ready));
    assert_eq!(k.procs[1].parent, Some(0));
    assert_eq!(k.procs[0].children, vec![1]);
}
