//! Tests of the resource ledger and the Banker's-algorithm safety check:
//! conservation, refusal of unsafe requests, and the untouched ledger
//! after a refusal.

use oscore::kernel::Kernel;
use oscore::syscall::sync::{
    sys_condvar_create, sys_condvar_signal, sys_condvar_wait, sys_enable_deadlock_detect,
    sys_mutex_create, sys_mutex_lock, sys_mutex_unlock, sys_semaphore_create, sys_semaphore_down,
    sys_semaphore_up,
};
use oscore::task::TaskStatus;

fn kernel_with_tasks(extra: usize) -> Kernel {
    let mut k = Kernel::new();
    for _ in 0..extra {
        let t = k.create_thread(0);
        k.tasks[t].status = TaskStatus::Running;
    }
    while k.manager.fetch().is_some() {}
    k
}

/// Ledger conservation, checked concretely: for every column, available
/// plus the column's allocations equals the instances it was created with.
fn assert_conservation(k: &Kernel, pid: usize) {
    let l = &k.procs[pid].ledger;
    for c in 0..l.available.len() {
        let mut sum: isize = l.available[c];
        for row in l.allocation.iter() {
            sum += row[c];
        }
        assert_eq!(sum, l.total[c], "column {} off balance", c);
    }
}

#[test]
fn conservation_holds_through_a_session() {
    let mut k = kernel_with_tasks(1);
    assert_eq!(sys_mutex_create(&mut k, 0, true), 0);
    assert_eq!(sys_semaphore_create(&mut k, 0, 3), 0);
    assert_conservation(&k, 0);
    assert_eq!(sys_mutex_lock(&mut k, 0, 0), 0);
    assert_conservation(&k, 0);
    assert_eq!(sys_semaphore_down(&mut k, 0, 0), 0);
    assert_eq!(sys_semaphore_down(&mut k, 1, 0), 0);
    assert_conservation(&k, 0);
    // a waiter charged while blocked keeps the books balanced too
    assert_eq!(sys_mutex_lock(&mut k, 1, 0), 0);
    assert_conservation(&k, 0);
    assert_eq!(sys_mutex_unlock(&mut k, 0, 0), 0);
    assert_eq!(sys_semaphore_up(&mut k, 0, 0), 0);
    assert_conservation(&k, 0);
}

#[test]
fn detection_refuses_cross_holding() {
    // A holds semaphore 0 (one instance) and requests lock 0 held by B;
    // B then requests semaphore 0: the second request is refused and the
    // ledger is left untouched.
    let mut k = kernel_with_tasks(1);
    assert_eq!(sys_enable_deadlock_detect(&mut k, 0, 1), 0);
    assert_eq!(sys_semaphore_create(&mut k, 0, 1), 0);
    assert_eq!(sys_mutex_create(&mut k, 0, true), 0);
    // A (task 0) takes the semaphore; B (task 1) takes the lock.
    assert_eq!(sys_semaphore_down(&mut k, 0, 0), 0);
    assert_eq!(sys_mutex_lock(&mut k, 1, 0), 0);
    // A requests the held lock: safe, because B can still finish; A blocks.
    assert_eq!(sys_mutex_lock(&mut k, 0, 0), 0);
    assert!(matches!(k.tasks[0].status, TaskStatus::Blocked));
    // B requests the semaphore: no completion order is left.
    let avail_before = k.procs[0].ledger.available.clone();
    let alloc_before = k.procs[0].ledger.allocation.clone();
    assert_eq!(sys_semaphore_down(&mut k, 1, 0), -0xdead);
    assert_eq!(k.procs[0].ledger.available, avail_before);
    assert_eq!(k.procs[0].ledger.allocation, alloc_before);
    assert!(matches!(k.tasks[1].status, TaskStatus::Running));
    assert_conservation(&k, 0);
}

#[test]
fn safe_request_passes_and_state_stays_safe() {
    // With detection on, a request for a free lock is granted, and the
    // check still passes on the resulting state for the next request.
    let mut k = kernel_with_tasks(0);
    assert_eq!(sys_enable_deadlock_detect(&mut k, 0, 1), 0);
    assert_eq!(sys_mutex_create(&mut k, 0, true), 0);
    assert_eq!(sys_mutex_create(&mut k, 0, true), 1);
    assert_eq!(sys_mutex_lock(&mut k, 0, 0), 0);
    // re-running the check on the committed state finds a completion order
    assert_eq!(sys_mutex_lock(&mut k, 0, 1), 0);
    assert!(k.procs[0].mutex_list[1].as_ref().unwrap().locked);
    assert_conservation(&k, 0);
}

#[test]
fn waiting_on_an_empty_semaphore_is_refused_under_detection() {
    let mut k = kernel_with_tasks(0);
    assert_eq!(sys_enable_deadlock_detect(&mut k, 0, 1), 0);
    assert_eq!(sys_semaphore_create(&mut k, 0, 0), 0);
    // nobody holds an instance that could ever be returned
    assert_eq!(sys_semaphore_down(&mut k, 0, 0), -0xdead);
    assert!(matches!(k.tasks[0].status, TaskStatus::Running));
    assert_conservation(&k, 0);
}

#[test]
fn detection_toggle_gates_the_check() {
    let mut k = kernel_with_tasks(0);
    assert_eq!(sys_semaphore_create(&mut k, 0, 0), 0);
    // with detection off the same request is accepted and the task blocks
    assert_eq!(sys_enable_deadlock_detect(&mut k, 0, 0), 0);
    assert_eq!(sys_semaphore_down(&mut k, 0, 0), 0);
    assert!(matches!(k.tasks[0].status, TaskStatus::Blocked));
    assert_conservation(&k, 0);
}

#[test]
fn exit_returns_held_resources() {
    let mut k = kernel_with_tasks(1);
    assert_eq!(sys_mutex_create(&mut k, 0, true), 0);
    assert_eq!(sys_semaphore_create(&mut k, 0, 2), 0);
    assert_eq!(sys_mutex_lock(&mut k, 1, 0), 0);
    assert_eq!(sys_semaphore_down(&mut k, 1, 0), 0);
    assert_eq!(k.procs[0].ledger.available[0], 0);
    assert_eq!(k.procs[0].ledger.available[1], 1);
    // the exiting task's rows become zero and availability is restored
    oscore::syscall::process::sys_exit(&mut k, 1, 0);
    assert_eq!(k.procs[0].ledger.available[0], 1);
    assert_eq!(k.procs[0].ledger.available[1], 2);
    for c in 0..k.procs[0].ledger.available.len() {
        assert_eq!(k.procs[0].ledger.allocation[1][c], 0);
    }
    assert_conservation(&k, 0);
}

#[test]
fn condvar_cycle_keeps_the_books_at_one_grant() {
    let mut k = kernel_with_tasks(1);
    assert_eq!(sys_mutex_create(&mut k, 0, true), 0);
    assert_eq!(sys_condvar_create(&mut k, 0), 0);
    assert_eq!(sys_mutex_lock(&mut k, 1, 0), 0);
    assert_eq!(k.procs[0].ledger.available[0], 0);
    assert_eq!(k.procs[0].ledger.allocation[1][0], 1);
    // waiting releases the lock and gives its ledger allocation back
    assert_eq!(sys_condvar_wait(&mut k, 1, 0, 0), 0);
    assert_eq!(k.procs[0].ledger.available[0], 1);
    assert_eq!(k.procs[0].ledger.allocation[1][0], 0);
    assert_conservation(&k, 0);
    // wake, re-acquire, release: the re-acquire's grant pairs with it
    assert_eq!(sys_condvar_signal(&mut k, 0, 0), 0);
    assert_eq!(k.manager.fetch(), Some(1));
    k.tasks[1].status = TaskStatus::Running;
    assert_eq!(sys_mutex_lock(&mut k, 1, 0), 0);
    assert_eq!(k.procs[0].ledger.available[0], 0);
    assert_eq!(k.procs[0].ledger.allocation[1][0], 1);
    assert_eq!(sys_mutex_unlock(&mut k, 1, 0), 0);
    assert_eq!(k.procs[0].ledger.available[0], 1);
    assert_eq!(k.procs[0].ledger.allocation[1][0], 0);
    assert_conservation(&k, 0);
    // detection verdicts afterwards see a clean ledger: a free lock is granted
    assert_eq!(sys_enable_deadlock_detect(&mut k, 0, 1), 0);
    assert_eq!(sys_mutex_lock(&mut k, 0, 0), 0);
    assert!(k.procs[0].mutex_list[0].as_ref().unwrap().locked);
    assert_conservation(&k, 0);
}
