//! Synchronization syscalls: sleeping, locks, semaphores, condition
//! variables and the deadlock-detection toggle.  Handles are validated
//! before any state is touched and a failed call mutates nothing; a
//! request refused by the safety check leaves every ledger balance as it
//! stood (only freshly created, all-zero thread rows may appear).

use vstd::prelude::*;
use crate::kernel::{
    lemma_kernel_wf_update, lemma_proc_condvar_slot, lemma_proc_ledger_swap, lemma_proc_mutex_slot,
    lemma_proc_sem_slot, Kernel, Process, SleepTimer,
};
use crate::ledger::{ResourceKind, ResourceLedger};
use crate::sync::LockAttempt;
use crate::task::{TaskControlBlock, TaskStatus};

verus! {

/// The calling task exists and is the one on the processor.
pub open spec fn calling(k: Kernel, tid: int) -> bool {
    &&& 0 <= tid < k.tasks@.len()
    &&& k.tasks@[tid].status == TaskStatus::Running
}

/// Register a wake-up no earlier than `ms` milliseconds from `now_ms` and
/// block the caller until its deadline timer fires.
pub fn sys_sleep(k: &mut Kernel, tid: usize, ms: usize, now_ms: usize) -> (r: isize)
    requires
        old(k).wf(),
        calling(*old(k), tid as int),
        now_ms + ms <= usize::MAX,
    ensures
        final(k).wf(),
        r == 0,
        final(k).timers@ == old(k).timers@.push(
            SleepTimer { deadline: (now_ms + ms) as usize, tid },
        ),
        final(k).tasks@ == old(k).tasks@.update(
            tid as int,
            TaskControlBlock { status: TaskStatus::Blocked, ..old(k).tasks@[tid as int] },
        ),
        final(k).manager.ready_queue@ == old(k).manager.ready_queue@,
        final(k).procs@ == old(k).procs@,
{
    let expire_ms = now_ms + ms;
    k.timers.push(SleepTimer { deadline: expire_ms, tid });
    k.tasks[tid].status = TaskStatus::Blocked;
    proof {
        assert(final(k).tasks@ =~= old(k).tasks@.update(
            tid as int,
            TaskControlBlock { status: TaskStatus::Blocked, ..old(k).tasks@[tid as int] },
        ));
        let ntasks = k.tasks@.len() as int;
        let nprocs = k.procs@.len() as int;
        assert forall|q: int| 0 <= q < nprocs
            implies (#[trigger] k.procs@[q]).wf() && k.procs@[q].queues_wf(ntasks)
                && k.procs@[q].rels_ok(nprocs, ntasks) by {
            assert(k.procs@[q] == old(k).procs@[q]);
        }
        assert forall|t: int| 0 <= t < ntasks
            implies (#[trigger] k.tasks@[t]).wf() && k.tasks@[t].pid < nprocs by {
            if t != tid as int {
                assert(k.tasks@[t] == old(k).tasks@[t]);
            }
        }
    }
    0
}

/// Turn deadlock detection on (`1`) or off (`0`); any other flag is
/// rejected before any state changes.
pub fn sys_enable_deadlock_detect(k: &mut Kernel, tid: usize, enabled: usize) -> (r: isize)
    requires
        old(k).wf(),
        calling(*old(k), tid as int),
    ensures
        final(k).wf(),
        ({
            let pid = old(k).pid_of(tid as int);
            let p0 = old(k).procs@[pid];
            if enabled == 1 || enabled == 0 {
                &&& r == 0
                &&& Kernel::only_proc_changed(*old(k), *final(k), pid)
                &&& final(k).procs@[pid] == (Process { deadlock_detect: enabled == 1, ..p0 })
            } else {
                &&& r == -1
                &&& *final(k) == *old(k)
            }
        }),
{
    if enabled > 1 {
        return -1;
    }
    let pid = k.tasks[tid].pid;
    k.procs[pid].deadlock_detect = enabled == 1;
    proof {
        let p0 = old(k).procs@[pid as int];
        let p1 = k.procs@[pid as int];
        assert(p1.wf());
        lemma_kernel_wf_update(*old(k), *k, pid as int);
    }
    0
}

/// Create a lock, spin or blocking; returns its handle (the lowest free
/// slot; with no destroy operation, always a fresh one), and appends its
/// single-instance ledger column.
pub fn sys_mutex_create(k: &mut Kernel, tid: usize, blocking: bool) -> (r: isize)
    requires
        old(k).wf(),
        calling(*old(k), tid as int),
        old(k).procs@[old(k).pid_of(tid as int)].mutex_list@.len() < isize::MAX,
        old(k).procs@[old(k).pid_of(tid as int)].ledger.cols() < usize::MAX,
    ensures
        final(k).wf(),
        ({
            let pid = old(k).pid_of(tid as int);
            let p0 = old(k).procs@[pid];
            let p1 = final(k).procs@[pid];
            &&& r == p0.mutex_list@.len()
            &&& r >= 0
            &&& Kernel::only_proc_changed(*old(k), *final(k), pid)
            &&& p1.mutex_list@.len() == p0.mutex_list@.len() + 1
            &&& forall|i: int| 0 <= i < p0.mutex_list@.len()
                ==> p1.mutex_list@[i] == #[trigger] p0.mutex_list@[i]
            &&& (p1.mutex_list@[r as int] matches Some(m) && m.blocking == blocking && !m.locked
                && m.wait_queue@.len() == 0)
            &&& p1.ledger.relation@ == p0.ledger.relation@.push(
                (ResourceKind::Lock, r as usize),
            )
            &&& p1.ledger.available@ == p0.ledger.available@.push(1)
            &&& p1.ledger.total@ == p0.ledger.total@.push(1)
            &&& p1.ledger.threads() == p0.ledger.threads()
            &&& forall|t: int| 0 <= t < p0.ledger.threads()
                ==> p1.ledger.allocation@[t]@ == (#[trigger] p0.ledger.allocation@[t])@.push(0)
            &&& forall|t: int| 0 <= t < p0.ledger.threads()
                ==> p1.ledger.need@[t]@ == (#[trigger] p0.ledger.need@[t])@.push(0)
            &&& p1.semaphore_list == p0.semaphore_list
            &&& p1.condvar_list == p0.condvar_list
            &&& p1.deadlock_detect == p0.deadlock_detect
        }),
{
    let pid = k.tasks[tid].pid;
    let p = &mut k.procs[pid];
    let id = p.create_mutex(blocking);
    proof {
        lemma_kernel_wf_update(*old(k), *k, pid as int);
    }
    id as isize
}

/// Create a counting semaphore with `res_count` instances; returns its
/// handle and seeds its ledger column with that count.
pub fn sys_semaphore_create(k: &mut Kernel, tid: usize, res_count: usize) -> (r: isize)
    requires
        old(k).wf(),
        calling(*old(k), tid as int),
        res_count <= isize::MAX,
        old(k).procs@[old(k).pid_of(tid as int)].semaphore_list@.len() < isize::MAX,
        old(k).procs@[old(k).pid_of(tid as int)].ledger.cols() < usize::MAX,
    ensures
        final(k).wf(),
        ({
            let pid = old(k).pid_of(tid as int);
            let p0 = old(k).procs@[pid];
            let p1 = final(k).procs@[pid];
            &&& r == p0.semaphore_list@.len()
            &&& r >= 0
            &&& Kernel::only_proc_changed(*old(k), *final(k), pid)
            &&& p1.semaphore_list@.len() == p0.semaphore_list@.len() + 1
            &&& forall|i: int| 0 <= i < p0.semaphore_list@.len()
                ==> p1.semaphore_list@[i] == #[trigger] p0.semaphore_list@[i]
            &&& (p1.semaphore_list@[r as int] matches Some(s) && s.count == res_count
                && s.wait_queue@.len() == 0)
            &&& p1.ledger.relation@ == p0.ledger.relation@.push(
                (ResourceKind::Semaphore, r as usize),
            )
            &&& p1.ledger.available@ == p0.ledger.available@.push(res_count as isize)
            &&& p1.ledger.total@ == p0.ledger.total@.push(res_count as isize)
            &&& p1.ledger.threads() == p0.ledger.threads()
            &&& forall|t: int| 0 <= t < p0.ledger.threads()
                ==> p1.ledger.allocation@[t]@ == (#[trigger] p0.ledger.allocation@[t])@.push(0)
            &&& forall|t: int| 0 <= t < p0.ledger.threads()
                ==> p1.ledger.need@[t]@ == (#[trigger] p0.ledger.need@[t])@.push(0)
            &&& p1.mutex_list == p0.mutex_list
            &&& p1.condvar_list == p0.condvar_list
            &&& p1.deadlock_detect == p0.deadlock_detect
        }),
{
    let pid = k.tasks[tid].pid;
    let p = &mut k.procs[pid];
    let id = p.create_semaphore(res_count);
    proof {
        lemma_kernel_wf_update(*old(k), *k, pid as int);
    }
    id as isize
}

/// Create a condition variable; returns its handle.
pub fn sys_condvar_create(k: &mut Kernel, tid: usize) -> (r: isize)
    requires
        old(k).wf(),
        calling(*old(k), tid as int),
        old(k).procs@[old(k).pid_of(tid as int)].condvar_list@.len() < isize::MAX,
    ensures
        final(k).wf(),
        ({
            let pid = old(k).pid_of(tid as int);
            let p0 = old(k).procs@[pid];
            let p1 = final(k).procs@[pid];
            &&& r == p0.condvar_list@.len()
            &&& r >= 0
            &&& Kernel::only_proc_changed(*old(k), *final(k), pid)
            &&& p1.condvar_list@.len() == p0.condvar_list@.len() + 1
            &&& forall|i: int| 0 <= i < p0.condvar_list@.len()
                ==> p1.condvar_list@[i] == #[trigger] p0.condvar_list@[i]
            &&& (p1.condvar_list@[r as int] matches Some(c) && c.wait_queue@.len() == 0)
            &&& p1 == (Process { condvar_list: p1.condvar_list, ..p0 })
        }),
{
    let pid = k.tasks[tid].pid;
    let p = &mut k.procs[pid];
    let id = p.create_condvar();
    proof {
        lemma_kernel_wf_update(*old(k), *k, pid as int);
    }
    id as isize
}

/// Acquire lock `mutex_id` for the calling task.  With detection on, the
/// Banker's check gates the grant and an unsafe request is refused with
/// the distinguished sentinel, mutating nothing but freshly created
/// all-zero ledger rows.  Otherwise the grant is booked and the lock
/// attempted: a free lock is taken at once; a held blocking lock enqueues
/// and blocks the caller, which will own the lock when woken; a held spin
/// lock makes the caller yield and poll again through `mutex_lock_retry`.
pub fn sys_mutex_lock(k: &mut Kernel, tid: usize, mutex_id: usize) -> (r: isize)
    requires
        old(k).wf(),
        calling(*old(k), tid as int),
        ({
            let p0 = old(k).procs@[old(k).pid_of(tid as int)];
            let col = p0.ledger.spec_col(ResourceKind::Lock, mutex_id);
            mutex_id < p0.mutex_list@.len() ==> p0.ledger.avail_at(col) > isize::MIN
                && p0.ledger.alloc_at(tid as int, col) < isize::MAX
        }),
    ensures
        final(k).wf(),
        ({
            let pid = old(k).pid_of(tid as int);
            let p0 = old(k).procs@[pid];
            let p1 = final(k).procs@[pid];
            if mutex_id >= p0.mutex_list@.len() {
                &&& r == -1
                &&& *final(k) == *old(k)
            } else if p0.deadlock_detect && !ResourceLedger::check_verdict(
                p0.ledger,
                ResourceKind::Lock,
                mutex_id,
                tid as int,
            ) {
                &&& r == -0xdead
                &&& Kernel::only_proc_changed(*old(k), *final(k), pid)
                &&& p1 == (Process { ledger: p1.ledger, ..p0 })
                &&& p1.ledger.avail_m() == p0.ledger.avail_m()
                &&& p1.ledger.alloc_m() == crate::ledger::banker::pad_rows(
                    p0.ledger.alloc_m(),
                    p0.ledger.padded_threads(tid as int),
                    p0.ledger.cols(),
                )
                &&& p1.ledger.relation@ == p0.ledger.relation@
                &&& p1.ledger.total@ == p0.ledger.total@
            } else {
                let m0 = p0.mutex_list@[mutex_id as int]->Some_0;
                let m1 = p1.mutex_list@[mutex_id as int]->Some_0;
                &&& r == 0
                &&& Kernel::only_proc_task_changed(*old(k), *final(k), pid, tid as int)
                &&& p1 == (Process { mutex_list: p1.mutex_list, ledger: p1.ledger, ..p0 })
                &&& ResourceLedger::granted(p0.ledger, p1.ledger, ResourceKind::Lock, mutex_id,
                    tid as int)
                &&& p1.mutex_list@.len() == p0.mutex_list@.len()
                &&& forall|i: int| 0 <= i < p0.mutex_list@.len() && i != mutex_id
                    ==> p1.mutex_list@[i] == #[trigger] p0.mutex_list@[i]
                &&& p1.mutex_list@[mutex_id as int] is Some
                &&& m1.blocking == m0.blocking
                &&& if !m0.locked {
                    &&& m1.locked
                    &&& m1.wait_queue@ == m0.wait_queue@
                    &&& final(k).tasks@ == old(k).tasks@
                    &&& final(k).manager.ready_queue@ == old(k).manager.ready_queue@
                } else if m0.blocking {
                    &&& m1.locked
                    &&& m1.wait_queue@ == m0.wait_queue@.push(tid)
                    &&& final(k).tasks@ == old(k).tasks@.update(
                        tid as int,
                        TaskControlBlock {
                            status: TaskStatus::Blocked,
                            ..old(k).tasks@[tid as int]
                        },
                    )
                    &&& final(k).manager.ready_queue@ == old(k).manager.ready_queue@
                } else {
                    &&& m1.locked == m0.locked
                    &&& m1.wait_queue@ == m0.wait_queue@
                    &&& final(k).tasks@ == old(k).tasks@.update(
                        tid as int,
                        TaskControlBlock { status: TaskStatus::Ready, ..old(k).tasks@[tid as int] },
                    )
                    &&& final(k).manager.ready_queue@ == old(k).manager.ready_queue@.push(tid)
                }
            }
        }),
{
    let ghost k0 = *old(k);
    let pid = k.tasks[tid].pid;
    if mutex_id >= k.procs[pid].mutex_list.len() {
        return -1;
    }
    let ghost ntasks = k.tasks@.len() as int;
    let ghost p0 = k.procs@[pid as int];
    proof {
        assert(p0.ledger.has_column(ResourceKind::Lock, mutex_id));
    }
    let detect = k.procs[pid].deadlock_detect;
    if detect {
        let ok = k.procs[pid].ledger.request(ResourceKind::Lock, mutex_id, tid);
        proof {
            lemma_proc_ledger_swap(p0, k.procs@[pid as int], ntasks);
            lemma_kernel_wf_update(k0, *k, pid as int);
        }
        if !ok {
            return -0xdead;
        }
    } else {
        k.procs[pid].ledger.grant(ResourceKind::Lock, mutex_id, tid);
        proof {
            lemma_proc_ledger_swap(p0, k.procs@[pid as int], ntasks);
            lemma_kernel_wf_update(k0, *k, pid as int);
        }
    }
    let ghost ka = *k;
    let ghost pa = k.procs@[pid as int];
    let attempt = match &mut k.procs[pid].mutex_list[mutex_id] {
        Some(m) => m.lock(tid),
        None => {
            proof {
                assert(false);
            }
            LockAttempt::Acquired
        },
    };
    proof {
        lemma_proc_mutex_slot(pa, k.procs@[pid as int], mutex_id as int, ntasks);
        lemma_kernel_wf_update(ka, *k, pid as int);
    }
    let ghost kb = *k;
    match attempt {
        LockAttempt::Acquired => {},
        LockAttempt::Enqueued => {
            k.tasks[tid].status = TaskStatus::Blocked;
        },
        LockAttempt::WouldSpin => {
            k.tasks[tid].status = TaskStatus::Ready;
            k.manager.add(tid);
        },
    }
    proof {
        assert forall|t: int| 0 <= t < kb.tasks@.len()
            implies (#[trigger] k.tasks@[t]).wf() && k.tasks@[t].pid == kb.tasks@[t].pid by {
            if t != tid as int {
                assert(k.tasks@[t] == kb.tasks@[t]);
            }
        }
        lemma_kernel_wf_update(kb, *k, pid as int);
        match attempt {
            LockAttempt::Acquired => {
                assert(k.tasks@ =~= old(k).tasks@);
            },
            LockAttempt::Enqueued => {
                assert(k.tasks@ =~= old(k).tasks@.update(
                    tid as int,
                    TaskControlBlock { status: TaskStatus::Blocked, ..old(k).tasks@[tid as int] },
                ));
            },
            LockAttempt::WouldSpin => {
                assert(k.tasks@ =~= old(k).tasks@.update(
                    tid as int,
                    TaskControlBlock { status: TaskStatus::Ready, ..old(k).tasks@[tid as int] },
                ));
            },
        }
    }
    0
}

/// One more poll by a task spinning for a spin lock whose ledger grant was
/// already booked when the spin began: a free lock is taken; a still-held
/// lock makes the caller yield again.
pub fn mutex_lock_retry(k: &mut Kernel, tid: usize, mutex_id: usize) -> (r: bool)
    requires
        old(k).wf(),
        calling(*old(k), tid as int),
        mutex_id < old(k).procs@[old(k).pid_of(tid as int)].mutex_list@.len(),
    ensures
        final(k).wf(),
        ({
            let pid = old(k).pid_of(tid as int);
            let p0 = old(k).procs@[pid];
            let p1 = final(k).procs@[pid];
            let m0 = p0.mutex_list@[mutex_id as int]->Some_0;
            let m1 = p1.mutex_list@[mutex_id as int]->Some_0;
            &&& p1 == (Process { mutex_list: p1.mutex_list, ..p0 })
            &&& p1.mutex_list@.len() == p0.mutex_list@.len()
            &&& forall|i: int| 0 <= i < p0.mutex_list@.len() && i != mutex_id
                ==> p1.mutex_list@[i] == #[trigger] p0.mutex_list@[i]
            &&& p1.mutex_list@[mutex_id as int] is Some
            &&& m1.blocking == m0.blocking
            &&& m1.wait_queue@ == m0.wait_queue@
            &&& if !m0.locked {
                &&& r
                &&& m1.locked
                &&& final(k).tasks@ == old(k).tasks@
                &&& final(k).manager.ready_queue@ == old(k).manager.ready_queue@
            } else {
                &&& !r
                &&& m1.locked == m0.locked
                &&& final(k).tasks@ == old(k).tasks@.update(
                    tid as int,
                    TaskControlBlock { status: TaskStatus::Ready, ..old(k).tasks@[tid as int] },
                )
                &&& final(k).manager.ready_queue@ == old(k).manager.ready_queue@.push(tid)
            }
            &&& final(k).timers@ == old(k).timers@
            &&& final(k).procs@.len() == old(k).procs@.len()
            &&& forall|p: int| 0 <= p < old(k).procs@.len() && p != pid
                ==> final(k).procs@[p] == #[trigger] old(k).procs@[p]
        }),
{
    let ghost k0 = *old(k);
    let pid = k.tasks[tid].pid;
    let ghost ntasks = k.tasks@.len() as int;
    let ghost p0 = k.procs@[pid as int];
    let acquired = match &mut k.procs[pid].mutex_list[mutex_id] {
        Some(m) => {
            if !m.locked {
                m.locked = true;
                true
            } else {
                false
            }
        },
        None => {
            proof {
                assert(false);
            }
            false
        },
    };
    proof {
        lemma_proc_mutex_slot(p0, k.procs@[pid as int], mutex_id as int, ntasks);
        lemma_kernel_wf_update(k0, *k, pid as int);
    }
    let ghost ka = *k;
    if !acquired {
        k.tasks[tid].status = TaskStatus::Ready;
        k.manager.add(tid);
        proof {
            assert forall|t: int| 0 <= t < ka.tasks@.len()
                implies (#[trigger] k.tasks@[t]).wf() && k.tasks@[t].pid == ka.tasks@[t].pid by {
                if t != tid as int {
                    assert(k.tasks@[t] == ka.tasks@[t]);
                }
            }
            lemma_kernel_wf_update(ka, *k, pid as int);
            assert(k.tasks@ =~= old(k).tasks@.update(
                tid as int,
                TaskControlBlock { status: TaskStatus::Ready, ..old(k).tasks@[tid as int] },
            ));
        }
    }
    acquired
}

/// Release lock `mutex_id`.  Releasing a lock that is not held is an
/// invalid argument and mutates nothing.  Otherwise the ledger gives the
/// instance back and the lock is released: with a waiter queued, exactly
/// the oldest is woken and owns the lock directly — it never passes
/// through a free state; with no waiter the lock becomes free.
pub fn sys_mutex_unlock(k: &mut Kernel, tid: usize, mutex_id: usize) -> (r: isize)
    requires
        old(k).wf(),
        calling(*old(k), tid as int),
        ({
            let p0 = old(k).procs@[old(k).pid_of(tid as int)];
            let col = p0.ledger.spec_col(ResourceKind::Lock, mutex_id);
            mutex_id < p0.mutex_list@.len() ==> p0.ledger.avail_at(col) < isize::MAX
                && p0.ledger.alloc_at(tid as int, col) > isize::MIN
        }),
    ensures
        final(k).wf(),
        ({
            let pid = old(k).pid_of(tid as int);
            let p0 = old(k).procs@[pid];
            let p1 = final(k).procs@[pid];
            if mutex_id >= p0.mutex_list@.len()
                || !(p0.mutex_list@[mutex_id as int]->Some_0).locked {
                &&& r == -1
                &&& *final(k) == *old(k)
            } else {
                let m0 = p0.mutex_list@[mutex_id as int]->Some_0;
                let m1 = p1.mutex_list@[mutex_id as int]->Some_0;
                &&& r == 0
                &&& final(k).timers@ == old(k).timers@
                &&& final(k).procs@.len() == old(k).procs@.len()
                &&& forall|p: int| 0 <= p < old(k).procs@.len() && p != pid
                    ==> final(k).procs@[p] == #[trigger] old(k).procs@[p]
                &&& p1 == (Process { mutex_list: p1.mutex_list, ledger: p1.ledger, ..p0 })
                &&& ResourceLedger::released(p0.ledger, p1.ledger, ResourceKind::Lock, mutex_id,
                    tid as int)
                &&& p1.mutex_list@.len() == p0.mutex_list@.len()
                &&& forall|i: int| 0 <= i < p0.mutex_list@.len() && i != mutex_id
                    ==> p1.mutex_list@[i] == #[trigger] p0.mutex_list@[i]
                &&& p1.mutex_list@[mutex_id as int] is Some
                &&& m1.blocking == m0.blocking
                &&& if m0.wait_queue@.len() == 0 {
                    &&& !m1.locked
                    &&& m1.wait_queue@ == m0.wait_queue@
                    &&& final(k).tasks@ == old(k).tasks@
                    &&& final(k).manager.ready_queue@ == old(k).manager.ready_queue@
                } else {
                    let woken = m0.wait_queue@[0];
                    &&& m1.locked
                    &&& m1.wait_queue@ == m0.wait_queue@.drop_first()
                    &&& final(k).tasks@ == old(k).tasks@.update(
                        woken as int,
                        TaskControlBlock { status: TaskStatus::Ready, ..old(k).tasks@[woken as int] },
                    )
                    &&& final(k).manager.ready_queue@ == old(k).manager.ready_queue@.push(woken)
                }
            }
        }),
{
    let ghost k0 = *old(k);
    let pid = k.tasks[tid].pid;
    if mutex_id >= k.procs[pid].mutex_list.len() {
        return -1;
    }
    let locked = match &k.procs[pid].mutex_list[mutex_id] {
        Some(m) => m.locked,
        None => {
            proof {
                assert(false);
            }
            false
        },
    };
    if !locked {
        return -1;
    }
    let ghost ntasks = k.tasks@.len() as int;
    let ghost p0 = k.procs@[pid as int];
    proof {
        assert(p0.ledger.has_column(ResourceKind::Lock, mutex_id));
    }
    k.procs[pid].ledger.release(ResourceKind::Lock, mutex_id, tid);
    proof {
        lemma_proc_ledger_swap(p0, k.procs@[pid as int], ntasks);
        lemma_kernel_wf_update(k0, *k, pid as int);
    }
    let ghost ka = *k;
    let ghost pa = k.procs@[pid as int];
    let woken = match &mut k.procs[pid].mutex_list[mutex_id] {
        Some(m) => m.unlock(),
        None => {
            proof {
                assert(false);
            }
            None
        },
    };
    proof {
        lemma_proc_mutex_slot(pa, k.procs@[pid as int], mutex_id as int, ntasks);
        lemma_kernel_wf_update(ka, *k, pid as int);
    }
    let ghost kb = *k;
    match woken {
        Some(wt) => {
            proof {
                assert(wt < kb.tasks@.len());
            }
            k.tasks[wt].status = TaskStatus::Ready;
            k.manager.add(wt);
            proof {
                assert forall|t: int| 0 <= t < kb.tasks@.len()
                    implies (#[trigger] k.tasks@[t]).wf() && k.tasks@[t].pid == kb.tasks@[t].pid
                    by {
                    if t != wt as int {
                        assert(k.tasks@[t] == kb.tasks@[t]);
                    }
                }
                lemma_kernel_wf_update(kb, *k, pid as int);
                assert(k.tasks@ =~= old(k).tasks@.update(
                    wt as int,
                    TaskControlBlock { status: TaskStatus::Ready, ..old(k).tasks@[wt as int] },
                ));
            }
        },
        None => {
            proof {
                assert(k.tasks@ =~= old(k).tasks@);
            }
        },
    }
    0
}

/// Take one instance of semaphore `sem_id`.  With detection on, the
/// Banker's check gates the grant exactly as for locks.  Otherwise the
/// grant is booked and the counter decremented; a negative result
/// enqueues and blocks the caller.
pub fn sys_semaphore_down(k: &mut Kernel, tid: usize, sem_id: usize) -> (r: isize)
    requires
        old(k).wf(),
        calling(*old(k), tid as int),
        ({
            let p0 = old(k).procs@[old(k).pid_of(tid as int)];
            let col = p0.ledger.spec_col(ResourceKind::Semaphore, sem_id);
            sem_id < p0.semaphore_list@.len() ==> p0.ledger.avail_at(col) > isize::MIN
                && p0.ledger.alloc_at(tid as int, col) < isize::MAX
                && (p0.semaphore_list@[sem_id as int]->Some_0).count > isize::MIN
        }),
    ensures
        final(k).wf(),
        ({
            let pid = old(k).pid_of(tid as int);
            let p0 = old(k).procs@[pid];
            let p1 = final(k).procs@[pid];
            if sem_id >= p0.semaphore_list@.len() {
                &&& r == -1
                &&& *final(k) == *old(k)
            } else if p0.deadlock_detect && !ResourceLedger::check_verdict(
                p0.ledger,
                ResourceKind::Semaphore,
                sem_id,
                tid as int,
            ) {
                &&& r == -0xdead
                &&& Kernel::only_proc_changed(*old(k), *final(k), pid)
                &&& p1 == (Process { ledger: p1.ledger, ..p0 })
                &&& p1.ledger.avail_m() == p0.ledger.avail_m()
                &&& p1.ledger.alloc_m() == crate::ledger::banker::pad_rows(
                    p0.ledger.alloc_m(),
                    p0.ledger.padded_threads(tid as int),
                    p0.ledger.cols(),
                )
                &&& p1.ledger.relation@ == p0.ledger.relation@
                &&& p1.ledger.total@ == p0.ledger.total@
            } else {
                let s0 = p0.semaphore_list@[sem_id as int]->Some_0;
                let s1 = p1.semaphore_list@[sem_id as int]->Some_0;
                &&& r == 0
                &&& Kernel::only_proc_task_changed(*old(k), *final(k), pid, tid as int)
                &&& p1 == (Process { semaphore_list: p1.semaphore_list, ledger: p1.ledger, ..p0 })
                &&& ResourceLedger::granted(p0.ledger, p1.ledger, ResourceKind::Semaphore, sem_id,
                    tid as int)
                &&& p1.semaphore_list@.len() == p0.semaphore_list@.len()
                &&& forall|i: int| 0 <= i < p0.semaphore_list@.len() && i != sem_id
                    ==> p1.semaphore_list@[i] == #[trigger] p0.semaphore_list@[i]
                &&& p1.semaphore_list@[sem_id as int] is Some
                &&& s1.count == s0.count - 1
                &&& if s0.count <= 0 {
                    &&& s1.wait_queue@ == s0.wait_queue@.push(tid)
                    &&& final(k).tasks@ == old(k).tasks@.update(
                        tid as int,
                        TaskControlBlock {
                            status: TaskStatus::Blocked,
                            ..old(k).tasks@[tid as int]
                        },
                    )
                } else {
                    &&& s1.wait_queue@ == s0.wait_queue@
                    &&& final(k).tasks@ == old(k).tasks@
                }
                &&& final(k).manager.ready_queue@ == old(k).manager.ready_queue@
            }
        }),
{
    let ghost k0 = *old(k);
    let pid = k.tasks[tid].pid;
    if sem_id >= k.procs[pid].semaphore_list.len() {
        return -1;
    }
    let ghost ntasks = k.tasks@.len() as int;
    let ghost p0 = k.procs@[pid as int];
    proof {
        assert(p0.ledger.has_column(ResourceKind::Semaphore, sem_id));
    }
    let detect = k.procs[pid].deadlock_detect;
    if detect {
        let ok = k.procs[pid].ledger.request(ResourceKind::Semaphore, sem_id, tid);
        proof {
            lemma_proc_ledger_swap(p0, k.procs@[pid as int], ntasks);
            lemma_kernel_wf_update(k0, *k, pid as int);
        }
        if !ok {
            return -0xdead;
        }
    } else {
        k.procs[pid].ledger.grant(ResourceKind::Semaphore, sem_id, tid);
        proof {
            lemma_proc_ledger_swap(p0, k.procs@[pid as int], ntasks);
            lemma_kernel_wf_update(k0, *k, pid as int);
        }
    }
    let ghost ka = *k;
    let ghost pa = k.procs@[pid as int];
    let blocked = match &mut k.procs[pid].semaphore_list[sem_id] {
        Some(s) => s.down(tid),
        None => {
            proof {
                assert(false);
            }
            false
        },
    };
    proof {
        lemma_proc_sem_slot(pa, k.procs@[pid as int], sem_id as int, ntasks);
        lemma_kernel_wf_update(ka, *k, pid as int);
    }
    let ghost kb = *k;
    if blocked {
        k.tasks[tid].status = TaskStatus::Blocked;
        proof {
            assert forall|t: int| 0 <= t < kb.tasks@.len()
                implies (#[trigger] k.tasks@[t]).wf() && k.tasks@[t].pid == kb.tasks@[t].pid by {
                if t != tid as int {
                    assert(k.tasks@[t] == kb.tasks@[t]);
                }
            }
            lemma_kernel_wf_update(kb, *k, pid as int);
            assert(k.tasks@ =~= old(k).tasks@.update(
                tid as int,
                TaskControlBlock { status: TaskStatus::Blocked, ..old(k).tasks@[tid as int] },
            ));
        }
    } else {
        proof {
            assert(k.tasks@ =~= old(k).tasks@);
        }
    }
    0
}

/// Return one instance of semaphore `sem_id`: the ledger gives the
/// instance back, the counter is incremented, and if the counter was
/// negative — tasks were waiting — exactly the oldest waiter is woken.
pub fn sys_semaphore_up(k: &mut Kernel, tid: usize, sem_id: usize) -> (r: isize)
    requires
        old(k).wf(),
        calling(*old(k), tid as int),
        ({
            let p0 = old(k).procs@[old(k).pid_of(tid as int)];
            let col = p0.ledger.spec_col(ResourceKind::Semaphore, sem_id);
            sem_id < p0.semaphore_list@.len() ==> p0.ledger.avail_at(col) < isize::MAX
                && p0.ledger.alloc_at(tid as int, col) > isize::MIN
                && (p0.semaphore_list@[sem_id as int]->Some_0).count < isize::MAX
        }),
    ensures
        final(k).wf(),
        ({
            let pid = old(k).pid_of(tid as int);
            let p0 = old(k).procs@[pid];
            let p1 = final(k).procs@[pid];
            if sem_id >= p0.semaphore_list@.len() {
                &&& r == -1
                &&& *final(k) == *old(k)
            } else {
                let s0 = p0.semaphore_list@[sem_id as int]->Some_0;
                let s1 = p1.semaphore_list@[sem_id as int]->Some_0;
                &&& r == 0
                &&& final(k).timers@ == old(k).timers@
                &&& final(k).procs@.len() == old(k).procs@.len()
                &&& forall|p: int| 0 <= p < old(k).procs@.len() && p != pid
                    ==> final(k).procs@[p] == #[trigger] old(k).procs@[p]
                &&& p1 == (Process { semaphore_list: p1.semaphore_list, ledger: p1.ledger, ..p0 })
                &&& ResourceLedger::released(p0.ledger, p1.ledger, ResourceKind::Semaphore, sem_id,
                    tid as int)
                &&& p1.semaphore_list@.len() == p0.semaphore_list@.len()
                &&& forall|i: int| 0 <= i < p0.semaphore_list@.len() && i != sem_id
                    ==> p1.semaphore_list@[i] == #[trigger] p0.semaphore_list@[i]
                &&& p1.semaphore_list@[sem_id as int] is Some
                &&& s1.count == s0.count + 1
                &&& if s0.count < 0 {
                    let woken = s0.wait_queue@[0];
                    &&& s1.wait_queue@ == s0.wait_queue@.drop_first()
                    &&& final(k).tasks@ == old(k).tasks@.update(
                        woken as int,
                        TaskControlBlock { status: TaskStatus::Ready, ..old(k).tasks@[woken as int] },
                    )
                    &&& final(k).manager.ready_queue@ == old(k).manager.ready_queue@.push(woken)
                } else {
                    &&& s1.wait_queue@ == s0.wait_queue@
                    &&& final(k).tasks@ == old(k).tasks@
                    &&& final(k).manager.ready_queue@ == old(k).manager.ready_queue@
                }
            }
        }),
{
    let ghost k0 = *old(k);
    let pid = k.tasks[tid].pid;
    if sem_id >= k.procs[pid].semaphore_list.len() {
        return -1;
    }
    let ghost ntasks = k.tasks@.len() as int;
    let ghost p0 = k.procs@[pid as int];
    proof {
        assert(p0.ledger.has_column(ResourceKind::Semaphore, sem_id));
    }
    k.procs[pid].ledger.release(ResourceKind::Semaphore, sem_id, tid);
    proof {
        lemma_proc_ledger_swap(p0, k.procs@[pid as int], ntasks);
        lemma_kernel_wf_update(k0, *k, pid as int);
    }
    let ghost ka = *k;
    let ghost pa = k.procs@[pid as int];
    let woken = match &mut k.procs[pid].semaphore_list[sem_id] {
        Some(s) => s.up(),
        None => {
            proof {
                assert(false);
            }
            None
        },
    };
    proof {
        lemma_proc_sem_slot(pa, k.procs@[pid as int], sem_id as int, ntasks);
        lemma_kernel_wf_update(ka, *k, pid as int);
    }
    let ghost kb = *k;
    match woken {
        Some(wt) => {
            proof {
                assert(wt < kb.tasks@.len());
            }
            k.tasks[wt].status = TaskStatus::Ready;
            k.manager.add(wt);
            proof {
                assert forall|t: int| 0 <= t < kb.tasks@.len()
                    implies (#[trigger] k.tasks@[t]).wf() && k.tasks@[t].pid == kb.tasks@[t].pid
                    by {
                    if t != wt as int {
                        assert(k.tasks@[t] == kb.tasks@[t]);
                    }
                }
                lemma_kernel_wf_update(kb, *k, pid as int);
                assert(k.tasks@ =~= old(k).tasks@.update(
                    wt as int,
                    TaskControlBlock { status: TaskStatus::Ready, ..old(k).tasks@[wt as int] },
                ));
            }
        },
        None => {
            proof {
                assert(k.tasks@ =~= old(k).tasks@);
            }
        },
    }
    0
}

/// Wake exactly the oldest waiter of condition variable `condvar_id`, if
/// any; a signal with no waiters has no effect at all — it is dropped,
/// never buffered.
pub fn sys_condvar_signal(k: &mut Kernel, tid: usize, condvar_id: usize) -> (r: isize)
    requires
        old(k).wf(),
        calling(*old(k), tid as int),
    ensures
        final(k).wf(),
        ({
            let pid = old(k).pid_of(tid as int);
            let p0 = old(k).procs@[pid];
            let p1 = final(k).procs@[pid];
            if condvar_id >= p0.condvar_list@.len() {
                &&& r == -1
                &&& *final(k) == *old(k)
            } else {
                let c0 = p0.condvar_list@[condvar_id as int]->Some_0;
                let c1 = p1.condvar_list@[condvar_id as int]->Some_0;
                &&& r == 0
                &&& final(k).timers@ == old(k).timers@
                &&& final(k).procs@.len() == old(k).procs@.len()
                &&& forall|p: int| 0 <= p < old(k).procs@.len() && p != pid
                    ==> final(k).procs@[p] == #[trigger] old(k).procs@[p]
                &&& p1 == (Process { condvar_list: p1.condvar_list, ..p0 })
                &&& p1.condvar_list@.len() == p0.condvar_list@.len()
                &&& forall|i: int| 0 <= i < p0.condvar_list@.len() && i != condvar_id
                    ==> p1.condvar_list@[i] == #[trigger] p0.condvar_list@[i]
                &&& p1.condvar_list@[condvar_id as int] is Some
                &&& if c0.wait_queue@.len() == 0 {
                    &&& c1.wait_queue@ == c0.wait_queue@
                    &&& final(k).tasks@ == old(k).tasks@
                    &&& final(k).manager.ready_queue@ == old(k).manager.ready_queue@
                } else {
                    let woken = c0.wait_queue@[0];
                    &&& c1.wait_queue@ == c0.wait_queue@.drop_first()
                    &&& final(k).tasks@ == old(k).tasks@.update(
                        woken as int,
                        TaskControlBlock { status: TaskStatus::Ready, ..old(k).tasks@[woken as int] },
                    )
                    &&& final(k).manager.ready_queue@ == old(k).manager.ready_queue@.push(woken)
                }
            }
        }),
{
    let ghost k0 = *old(k);
    let pid = k.tasks[tid].pid;
    if condvar_id >= k.procs[pid].condvar_list.len() {
        return -1;
    }
    let ghost ntasks = k.tasks@.len() as int;
    let ghost p0 = k.procs@[pid as int];
    let woken = match &mut k.procs[pid].condvar_list[condvar_id] {
        Some(c) => c.signal(),
        None => {
            proof {
                assert(false);
            }
            None
        },
    };
    proof {
        lemma_proc_condvar_slot(p0, k.procs@[pid as int], condvar_id as int, ntasks);
        lemma_kernel_wf_update(k0, *k, pid as int);
    }
    let ghost kb = *k;
    match woken {
        Some(wt) => {
            proof {
                assert(wt < kb.tasks@.len());
            }
            k.tasks[wt].status = TaskStatus::Ready;
            k.manager.add(wt);
            proof {
                assert forall|t: int| 0 <= t < kb.tasks@.len()
                    implies (#[trigger] k.tasks@[t]).wf() && k.tasks@[t].pid == kb.tasks@[t].pid
                    by {
                    if t != wt as int {
                        assert(k.tasks@[t] == kb.tasks@[t]);
                    }
                }
                lemma_kernel_wf_update(kb, *k, pid as int);
                assert(k.tasks@ =~= old(k).tasks@.update(
                    wt as int,
                    TaskControlBlock { status: TaskStatus::Ready, ..old(k).tasks@[wt as int] },
                ));
            }
        },
        None => {
            proof {
                assert(k.tasks@ =~= old(k).tasks@);
            }
        },
    }
    0
}

/// Wait on condition variable `condvar_id`, releasing lock `mutex_id`
/// first: if the lock is held, the caller's ledger allocation of it is
/// given back and the lock is released with direct hand-off to its oldest
/// waiter; the caller is then enqueued on the condition variable and
/// blocks.  The woken waiter re-acquires the lock itself through
/// `sys_mutex_lock` — there is no automatic re-acquire and no spurious
/// wakeup — and its grant then pairs with the release booked here.
pub fn sys_condvar_wait(k: &mut Kernel, tid: usize, condvar_id: usize, mutex_id: usize) -> (r:
    isize)
    requires
        old(k).wf(),
        calling(*old(k), tid as int),
        ({
            let p0 = old(k).procs@[old(k).pid_of(tid as int)];
            let col = p0.ledger.spec_col(ResourceKind::Lock, mutex_id);
            mutex_id < p0.mutex_list@.len() && condvar_id < p0.condvar_list@.len() && (
            p0.mutex_list@[mutex_id as int]->Some_0).locked ==> p0.ledger.avail_at(col)
                < isize::MAX && p0.ledger.alloc_at(tid as int, col) > isize::MIN
        }),
    ensures
        final(k).wf(),
        ({
            let pid = old(k).pid_of(tid as int);
            let p0 = old(k).procs@[pid];
            let p1 = final(k).procs@[pid];
            if condvar_id >= p0.condvar_list@.len() || mutex_id >= p0.mutex_list@.len() {
                &&& r == -1
                &&& *final(k) == *old(k)
            } else {
                let m0 = p0.mutex_list@[mutex_id as int]->Some_0;
                let m1 = p1.mutex_list@[mutex_id as int]->Some_0;
                let c0 = p0.condvar_list@[condvar_id as int]->Some_0;
                let c1 = p1.condvar_list@[condvar_id as int]->Some_0;
                &&& r == 0
                &&& final(k).timers@ == old(k).timers@
                &&& final(k).procs@.len() == old(k).procs@.len()
                &&& forall|p: int| 0 <= p < old(k).procs@.len() && p != pid
                    ==> final(k).procs@[p] == #[trigger] old(k).procs@[p]
                &&& p1 == (Process {
                    mutex_list: p1.mutex_list,
                    condvar_list: p1.condvar_list,
                    ledger: p1.ledger,
                    ..p0
                })
                &&& (m0.locked ==> ResourceLedger::released(p0.ledger, p1.ledger,
                    ResourceKind::Lock, mutex_id, tid as int))
                &&& (!m0.locked ==> p1.ledger == p0.ledger)
                &&& p1.mutex_list@.len() == p0.mutex_list@.len()
                &&& forall|i: int| 0 <= i < p0.mutex_list@.len() && i != mutex_id
                    ==> p1.mutex_list@[i] == #[trigger] p0.mutex_list@[i]
                &&& p1.condvar_list@.len() == p0.condvar_list@.len()
                &&& forall|i: int| 0 <= i < p0.condvar_list@.len() && i != condvar_id
                    ==> p1.condvar_list@[i] == #[trigger] p0.condvar_list@[i]
                &&& p1.mutex_list@[mutex_id as int] is Some
                &&& p1.condvar_list@[condvar_id as int] is Some
                &&& m1.blocking == m0.blocking
                &&& c1.wait_queue@ == c0.wait_queue@.push(tid)
                &&& if m0.locked && m0.wait_queue@.len() > 0 {
                    let woken = m0.wait_queue@[0];
                    let mid_tasks = old(k).tasks@.update(
                        woken as int,
                        TaskControlBlock { status: TaskStatus::Ready, ..old(k).tasks@[woken as int] },
                    );
                    &&& m1.locked
                    &&& m1.wait_queue@ == m0.wait_queue@.drop_first()
                    &&& final(k).tasks@ == mid_tasks.update(
                        tid as int,
                        TaskControlBlock { status: TaskStatus::Blocked, ..mid_tasks[tid as int] },
                    )
                    &&& final(k).manager.ready_queue@ == old(k).manager.ready_queue@.push(woken)
                } else {
                    &&& !m1.locked
                    &&& m1.wait_queue@ == m0.wait_queue@
                    &&& final(k).tasks@ == old(k).tasks@.update(
                        tid as int,
                        TaskControlBlock {
                            status: TaskStatus::Blocked,
                            ..old(k).tasks@[tid as int]
                        },
                    )
                    &&& final(k).manager.ready_queue@ == old(k).manager.ready_queue@
                }
            }
        }),
{
    let ghost k0 = *old(k);
    let pid = k.tasks[tid].pid;
    if condvar_id >= k.procs[pid].condvar_list.len() {
        return -1;
    }
    if mutex_id >= k.procs[pid].mutex_list.len() {
        return -1;
    }
    let ghost ntasks = k.tasks@.len() as int;
    let ghost p0 = k.procs@[pid as int];
    let locked = match &k.procs[pid].mutex_list[mutex_id] {
        Some(m) => m.locked,
        None => {
            proof {
                assert(false);
            }
            false
        },
    };
    let mut woken: Option<usize> = None;
    if locked {
        proof {
            assert(p0.ledger.has_column(ResourceKind::Lock, mutex_id));
        }
        k.procs[pid].ledger.release(ResourceKind::Lock, mutex_id, tid);
        proof {
            lemma_proc_ledger_swap(p0, k.procs@[pid as int], ntasks);
            lemma_kernel_wf_update(k0, *k, pid as int);
        }
        let ghost kr = *k;
        let ghost pr = k.procs@[pid as int];
        woken = match &mut k.procs[pid].mutex_list[mutex_id] {
            Some(m) => m.unlock(),
            None => {
                proof {
                    assert(false);
                }
                None
            },
        };
        proof {
            lemma_proc_mutex_slot(pr, k.procs@[pid as int], mutex_id as int, ntasks);
            lemma_kernel_wf_update(kr, *k, pid as int);
        }
    }
    let ghost ka = *k;
    let ghost pa = k.procs@[pid as int];
    match &mut k.procs[pid].condvar_list[condvar_id] {
        Some(c) => {
            c.wait(tid);
        },
        None => {
            proof {
                assert(false);
            }
        },
    }
    proof {
        lemma_proc_condvar_slot(pa, k.procs@[pid as int], condvar_id as int, ntasks);
        lemma_kernel_wf_update(ka, *k, pid as int);
    }
    let ghost kb = *k;
    match woken {
        Some(wt) => {
            proof {
                assert(wt < kb.tasks@.len());
            }
            k.tasks[wt].status = TaskStatus::Ready;
            k.manager.add(wt);
        },
        None => {},
    }
    k.tasks[tid].status = TaskStatus::Blocked;
    proof {
        assert forall|t: int| 0 <= t < kb.tasks@.len()
            implies (#[trigger] k.tasks@[t]).wf() && k.tasks@[t].pid == kb.tasks@[t].pid by {
            if t != tid as int && (woken matches Some(wt) ==> t != wt as int) {
                assert(k.tasks@[t] == kb.tasks@[t]);
            }
        }
        lemma_kernel_wf_update(kb, *k, pid as int);
        match woken {
            Some(wt) => {
                let mid_tasks = old(k).tasks@.update(
                    wt as int,
                    TaskControlBlock { status: TaskStatus::Ready, ..old(k).tasks@[wt as int] },
                );
                assert(k.tasks@ =~= mid_tasks.update(
                    tid as int,
                    TaskControlBlock { status: TaskStatus::Blocked, ..mid_tasks[tid as int] },
                ));
            },
            None => {
                assert(k.tasks@ =~= old(k).tasks@.update(
                    tid as int,
                    TaskControlBlock { status: TaskStatus::Blocked, ..old(k).tasks@[tid as int] },
                ));
            },
        }
    }
    0
}

} // verus!
