//! Scenario tests for the synchronization syscalls: lock hand-off,
//! condition-variable semantics, FIFO wake order and error returns.

use oscore::kernel::Kernel;
use oscore::syscall::sync::{
    mutex_lock_retry, sys_condvar_create, sys_condvar_signal, sys_condvar_wait,
    sys_enable_deadlock_detect, sys_mutex_create, sys_mutex_lock, sys_mutex_unlock, sys_sleep,
    sys_semaphore_create, sys_semaphore_down, sys_semaphore_up,
};
use oscore::task::TaskStatus;

/// A kernel whose root process has `extra` tasks besides task 0, all Running.
fn kernel_with_tasks(extra: usize) -> Kernel {
    let mut k = Kernel::new();
    for _ in 0..extra {
        let t = k.create_thread(0);
        k.tasks[t].status = TaskStatus::Running;
    }
    // drain the ready queue that create_thread filled
    while k.manager.fetch().is_some() {}
    k
}

#[test]
fn blocking_lock_hands_off_to_woken_waiter() {
    let mut k = kernel_with_tasks(1);
    let id = sys_mutex_create(&mut k, 0, true);
    assert_eq!(id, 0);
    assert_eq!(sys_mutex_lock(&mut k, 0, 0), 0);
    assert!(k.procs[0].mutex_list[0].as_ref().unwrap().locked);
    // task 1 calls lock and blocks
    assert_eq!(sys_mutex_lock(&mut k, 1, 0), 0);
    assert!(matches!(k.tasks[1].status, TaskStatus::Blocked));
    assert_eq!(k.procs[0].mutex_list[0].as_ref().unwrap().wait_queue.len(), 1);
    // task 0 unlocks: task 1 is woken as owner, never through a free state
    assert_eq!(sys_mutex_unlock(&mut k, 0, 0), 0);
    let m = k.procs[0].mutex_list[0].as_ref().unwrap();
    assert!(m.locked);
    assert_eq!(m.wait_queue.len(), 0);
    assert!(matches!(k.tasks[1].status, TaskStatus::Ready));
    assert_eq!(k.manager.fetch(), Some(1));
}

#[test]
fn spin_lock_polls_until_free() {
    let mut k = kernel_with_tasks(1);
    let id = sys_mutex_create(&mut k, 0, false);
    assert_eq!(id, 0);
    assert_eq!(sys_mutex_lock(&mut k, 0, 0), 0);
    // task 1 finds the lock held: it yields and must poll again
    assert_eq!(sys_mutex_lock(&mut k, 1, 0), 0);
    assert!(matches!(k.tasks[1].status, TaskStatus::Ready));
    assert_eq!(k.manager.fetch(), Some(1));
    k.tasks[1].status = TaskStatus::Running;
    assert!(!mutex_lock_retry(&mut k, 1, 0));
    assert_eq!(k.manager.fetch(), Some(1));
    k.tasks[1].status = TaskStatus::Running;
    // holder releases; the next poll takes the lock
    assert_eq!(sys_mutex_unlock(&mut k, 0, 0), 0);
    assert!(!k.procs[0].mutex_list[0].as_ref().unwrap().locked);
    assert!(mutex_lock_retry(&mut k, 1, 0));
    assert!(k.procs[0].mutex_list[0].as_ref().unwrap().locked);
}

#[test]
fn unlock_without_lock_is_invalid_argument() {
    let mut k = kernel_with_tasks(0);
    assert_eq!(sys_mutex_create(&mut k, 0, true), 0);
    assert_eq!(sys_mutex_unlock(&mut k, 0, 0), -1);
    // nothing changed: the lock can still be taken normally
    assert_eq!(sys_mutex_lock(&mut k, 0, 0), 0);
    assert_eq!(sys_mutex_unlock(&mut k, 0, 0), 0);
}

#[test]
fn bad_handles_are_rejected() {
    let mut k = kernel_with_tasks(0);
    assert_eq!(sys_mutex_lock(&mut k, 0, 7), -1);
    assert_eq!(sys_mutex_unlock(&mut k, 0, 7), -1);
    assert_eq!(sys_semaphore_down(&mut k, 0, 7), -1);
    assert_eq!(sys_semaphore_up(&mut k, 0, 7), -1);
    assert_eq!(sys_condvar_signal(&mut k, 0, 7), -1);
    assert_eq!(sys_condvar_wait(&mut k, 0, 7, 0), -1);
    assert_eq!(sys_enable_deadlock_detect(&mut k, 0, 2), -1);
}

#[test]
fn handles_count_up_per_kind() {
    let mut k = kernel_with_tasks(0);
    assert_eq!(sys_mutex_create(&mut k, 0, true), 0);
    assert_eq!(sys_mutex_create(&mut k, 0, false), 1);
    assert_eq!(sys_semaphore_create(&mut k, 0, 3), 0);
    assert_eq!(sys_semaphore_create(&mut k, 0, 0), 1);
    assert_eq!(sys_condvar_create(&mut k, 0), 0);
    assert_eq!(sys_condvar_create(&mut k, 0), 1);
}

#[test]
fn semaphore_counts_and_blocks() {
    let mut k = kernel_with_tasks(1);
    assert_eq!(sys_semaphore_create(&mut k, 0, 1), 0);
    assert_eq!(sys_semaphore_down(&mut k, 0, 0), 0);
    assert!(matches!(k.tasks[0].status, TaskStatus::Running));
    assert_eq!(k.procs[0].semaphore_list[0].as_ref().unwrap().count, 0);
    // the second taker goes negative and blocks
    assert_eq!(sys_semaphore_down(&mut k, 1, 0), 0);
    assert!(matches!(k.tasks[1].status, TaskStatus::Blocked));
    assert_eq!(k.procs[0].semaphore_list[0].as_ref().unwrap().count, -1);
    // returning the instance wakes the waiter
    assert_eq!(sys_semaphore_up(&mut k, 0, 0), 0);
    assert_eq!(k.procs[0].semaphore_list[0].as_ref().unwrap().count, 0);
    assert!(matches!(k.tasks[1].status, TaskStatus::Ready));
    assert_eq!(k.manager.fetch(), Some(1));
}

#[test]
fn semaphore_wakes_waiters_in_fifo_order() {
    let mut k = kernel_with_tasks(3);
    assert_eq!(sys_semaphore_create(&mut k, 0, 0), 0);
    assert_eq!(sys_semaphore_down(&mut k, 1, 0), 0);
    assert_eq!(sys_semaphore_down(&mut k, 2, 0), 0);
    assert_eq!(sys_semaphore_down(&mut k, 3, 0), 0);
    assert_eq!(k.procs[0].semaphore_list[0].as_ref().unwrap().count, -3);
    for expected in [1usize, 2, 3] {
        assert_eq!(sys_semaphore_up(&mut k, 0, 0), 0);
        assert_eq!(k.manager.fetch(), Some(expected));
        assert!(matches!(k.tasks[expected].status, TaskStatus::Ready));
    }
    assert_eq!(k.procs[0].semaphore_list[0].as_ref().unwrap().count, 0);
}

#[test]
fn condvar_signal_with_no_waiter_is_dropped() {
    let mut k = kernel_with_tasks(1);
    assert_eq!(sys_mutex_create(&mut k, 0, true), 0);
    assert_eq!(sys_condvar_create(&mut k, 0), 0);
    // a signal with zero waiters has no effect at all
    assert_eq!(sys_condvar_signal(&mut k, 0, 0), 0);
    assert_eq!(k.procs[0].condvar_list[0].as_ref().unwrap().wait_queue.len(), 0);
    assert_eq!(k.manager.fetch(), None);
    // a later wait still blocks: the signal was not buffered
    assert_eq!(sys_mutex_lock(&mut k, 1, 0), 0);
    assert_eq!(sys_condvar_wait(&mut k, 1, 0, 0), 0);
    assert!(matches!(k.tasks[1].status, TaskStatus::Blocked));
    assert_eq!(k.procs[0].condvar_list[0].as_ref().unwrap().wait_queue.len(), 1);
}

#[test]
fn condvar_wait_releases_lock_and_signal_wakes_one() {
    let mut k = kernel_with_tasks(1);
    assert_eq!(sys_mutex_create(&mut k, 0, true), 0);
    assert_eq!(sys_condvar_create(&mut k, 0), 0);
    assert_eq!(sys_mutex_lock(&mut k, 1, 0), 0);
    assert_eq!(sys_condvar_wait(&mut k, 1, 0, 0), 0);
    // the lock was released before blocking
    assert!(!k.procs[0].mutex_list[0].as_ref().unwrap().locked);
    assert!(matches!(k.tasks[1].status, TaskStatus::Blocked));
    // the signal wakes exactly the one waiter; it does not hold the lock
    assert_eq!(sys_condvar_signal(&mut k, 0, 0), 0);
    assert!(matches!(k.tasks[1].status, TaskStatus::Ready));
    assert_eq!(k.manager.fetch(), Some(1));
    assert!(!k.procs[0].mutex_list[0].as_ref().unwrap().locked);
    // the woken waiter re-acquires the lock itself
    k.tasks[1].status = TaskStatus::Running;
    assert_eq!(sys_mutex_lock(&mut k, 1, 0), 0);
    assert!(k.procs[0].mutex_list[0].as_ref().unwrap().locked);
}

#[test]
fn sleep_blocks_until_deadline() {
    let mut k = kernel_with_tasks(0);
    assert_eq!(sys_sleep(&mut k, 0, 10, 100), 0);
    assert!(matches!(k.tasks[0].status, TaskStatus::Blocked));
    assert_eq!(k.timers[0].deadline, 110);
    // before the deadline nothing wakes
    k.wake_expired(109);
    assert!(matches!(k.tasks[0].status, TaskStatus::Blocked));
    assert_eq!(k.timers.len(), 1);
    // at the deadline the sleeper becomes ready
    k.wake_expired(110);
    assert!(matches!(k.tasks[0].status, TaskStatus::Ready));
    assert_eq!(k.timers.len(), 0);
    assert_eq!(k.manager.fetch(), Some(0));
}

#[test]
fn wake_expired_wakes_in_timer_order() {
    let mut k = kernel_with_tasks(2);
    assert_eq!(sys_sleep(&mut k, 1, 5, 0), 0);
    assert_eq!(sys_sleep(&mut k, 2, 3, 0), 0);
    assert_eq!(sys_sleep(&mut k, 0, 9, 0), 0);
    // deadlines 5, 3 and 9: at time 6 the first two fire, in timer order
    k.wake_expired(6);
    assert_eq!(k.manager.fetch(), Some(1));
    assert_eq!(k.manager.fetch(), Some(2));
    assert_eq!(k.manager.fetch(), None);
    assert!(matches!(k.tasks[0].status, TaskStatus::Blocked));
    assert_eq!(k.timers.len(), 1);
    k.wake_expired(9);
    assert_eq!(k.manager.fetch(), Some(0));
    assert_eq!(k.timers.len(), 0);
}

#[test]
fn detection_allows_waiting_on_a_held_lock() {
    // the holder can still finish, so queueing on a held lock is safe
    let mut k = kernel_with_tasks(1);
    assert_eq!(sys_enable_deadlock_detect(&mut k, 0, 1), 0);
    assert_eq!(sys_mutex_create(&mut k, 0, true), 0);
    assert_eq!(sys_mutex_lock(&mut k, 0, 0), 0);
    assert_eq!(sys_mutex_lock(&mut k, 1, 0), 0);
    assert!(matches!(k.tasks[1].status, TaskStatus::Blocked));
}
