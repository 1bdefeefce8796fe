//! Process-management syscalls: exiting, yielding, forking, waiting for
//! children, clock and task-information queries, and scheduling priority.
//! Each one first records its own invocation in the calling task's
//! syscall counters.

use vstd::prelude::*;
use crate::kernel::{lemma_kernel_wf_update, lemma_proc_ledger_swap, Kernel, Process};
use crate::syscall::sync::calling;
use crate::task::{TaskControlBlock, TaskStatus, MAX_SYSCALL_NUM, MIN_PRIORITY};

verus! {

/// Syscall id of `exit`.
pub const SYSCALL_EXIT: usize = 93;

/// Syscall id of `yield`.
pub const SYSCALL_YIELD: usize = 124;

/// Syscall id of `set_priority`.
pub const SYSCALL_SET_PRIORITY: usize = 140;

/// Syscall id of `get_time`.
pub const SYSCALL_GET_TIME: usize = 169;

/// Syscall id of `getpid`.
pub const SYSCALL_GETPID: usize = 172;

/// Syscall id of `fork`.
pub const SYSCALL_FORK: usize = 220;

/// Syscall id of `waitpid`.
pub const SYSCALL_WAITPID: usize = 260;

/// Syscall id of `task_info`.
pub const SYSCALL_TASK_INFO: usize = 410;

/// A wall-clock instant, split in whole seconds and microseconds.
#[derive(Clone, Copy, Debug, PartialEq, Eq, Structural)]
pub struct TimeVal {
    /// Whole seconds.
    pub sec: usize,
    /// Microseconds below one second.
    pub usec: usize,
}

/// What a task reports about itself.
pub struct TaskInfo {
    /// Task status in its life cycle.
    pub status: TaskStatus,
    /// How often each syscall id was invoked by the task.
    pub syscall_times: Vec<u32>,
    /// Total running time of the task.
    pub time: usize,
}

/// Between `pre` and `post`, nothing changed but task `tid`'s counter for
/// syscall `id`.
pub open spec fn only_counted(pre: Kernel, post: Kernel, tid: int, id: int) -> bool {
    &&& post.procs@ == pre.procs@
    &&& post.manager.ready_queue@ == pre.manager.ready_queue@
    &&& post.timers@ == pre.timers@
    &&& post.tasks@.len() == pre.tasks@.len()
    &&& forall|t: int| 0 <= t < pre.tasks@.len() && t != tid
        ==> post.tasks@[t] == #[trigger] pre.tasks@[t]
    &&& TaskControlBlock::counted(pre.tasks@[tid], post.tasks@[tid], id)
}

/// `b` is `a` with one more call of syscall `id` on record and its status
/// set to `st`.
pub open spec fn counted_status(
    a: TaskControlBlock,
    b: TaskControlBlock,
    id: int,
    st: TaskStatus,
) -> bool {
    &&& b.status == st
    &&& TaskControlBlock::counted(a, TaskControlBlock { status: a.status, ..b }, id)
}

/// Record syscall `id` for task `tid` and re-establish kernel validity.
fn count_syscall(k: &mut Kernel, tid: usize, id: usize)
    requires
        old(k).wf(),
        tid < old(k).tasks@.len(),
        id < MAX_SYSCALL_NUM,
    ensures
        final(k).wf(),
        only_counted(*old(k), *final(k), tid as int, id as int),
{
    k.tasks[tid].change_info(id);
    proof {
        assert forall|t: int| 0 <= t < k.tasks@.len()
            implies (#[trigger] k.tasks@[t]).wf() && k.tasks@[t].pid == old(k).tasks@[t].pid by {
            if t != tid as int {
                assert(k.tasks@[t] == old(k).tasks@[t]);
            }
        }
        lemma_kernel_wf_update(*old(k), *k, old(k).pid_of(tid as int));
    }
}

/// Give up the processor: the caller goes back to the tail of the ready
/// queue and another task may run.
pub fn sys_yield(k: &mut Kernel, tid: usize) -> (r: isize)
    requires
        old(k).wf(),
        calling(*old(k), tid as int),
    ensures
        final(k).wf(),
        r == 0,
        final(k).procs@ == old(k).procs@,
        final(k).timers@ == old(k).timers@,
        final(k).manager.ready_queue@ == old(k).manager.ready_queue@.push(tid),
        final(k).tasks@.len() == old(k).tasks@.len(),
        forall|t: int| 0 <= t < old(k).tasks@.len() && t != tid
            ==> final(k).tasks@[t] == #[trigger] old(k).tasks@[t],
        counted_status(
            old(k).tasks@[tid as int],
            final(k).tasks@[tid as int],
            SYSCALL_YIELD as int,
            TaskStatus::Ready,
        ),
{
    count_syscall(k, tid, SYSCALL_YIELD);
    let ghost ka = *k;
    k.tasks[tid].status = TaskStatus::Ready;
    k.manager.add(tid);
    proof {
        assert forall|t: int| 0 <= t < k.tasks@.len()
            implies (#[trigger] k.tasks@[t]).wf() && k.tasks@[t].pid == ka.tasks@[t].pid by {
            if t != tid as int {
                assert(k.tasks@[t] == ka.tasks@[t]);
            }
        }
        lemma_kernel_wf_update(ka, *k, ka.pid_of(tid as int));
    }
    0
}

/// The process id of the calling task.
pub fn sys_getpid(k: &mut Kernel, tid: usize) -> (r: isize)
    requires
        old(k).wf(),
        calling(*old(k), tid as int),
    ensures
        final(k).wf(),
        only_counted(*old(k), *final(k), tid as int, SYSCALL_GETPID as int),
        r == old(k).pid_of(tid as int),
{
    count_syscall(k, tid, SYSCALL_GETPID);
    let pid = k.tasks[tid].pid;
    proof {
        assert(pid < crate::ledger::MAX_LEDGER_THREADS);
    }
    pid as isize
}

/// Fill `ts` from the microsecond clock reading `now_us` supplied by the
/// timer service: whole seconds and the microseconds below one second.
pub fn sys_get_time(k: &mut Kernel, tid: usize, ts: &mut TimeVal, tz: usize, now_us: usize) -> (r:
    isize)
    requires
        old(k).wf(),
        calling(*old(k), tid as int),
    ensures
        final(k).wf(),
        only_counted(*old(k), *final(k), tid as int, SYSCALL_GET_TIME as int),
        final(ts).sec == now_us / 1_000_000,
        final(ts).usec == now_us % 1_000_000,
        r == 0,
{
    let _ = tz;
    count_syscall(k, tid, SYSCALL_GET_TIME);
    ts.sec = now_us / 1_000_000;
    ts.usec = now_us % 1_000_000;
    0
}

/// Copy a counter table.
fn copy_counts(v: &Vec<u32>) -> (r: Vec<u32>)
    ensures
        r@ == v@,
{
    let mut r: Vec<u32> = Vec::new();
    let mut i: usize = 0;
    while i < v.len()
        invariant
            i <= v@.len(),
            r@ == v@.take(i as int),
        decreases v@.len() - i,
    {
        r.push(v[i]);
        proof {
            assert(r@ =~= v@.take(i as int + 1));
        }
        i = i + 1;
    }
    proof {
        assert(v@.take(v@.len() as int) =~= v@);
    }
    r
}

/// Fill `ti` with the calling task's status, syscall counters (including
/// this very call) and accumulated running time.
pub fn sys_task_info(k: &mut Kernel, tid: usize, ti: &mut TaskInfo) -> (r: isize)
    requires
        old(k).wf(),
        calling(*old(k), tid as int),
    ensures
        final(k).wf(),
        only_counted(*old(k), *final(k), tid as int, SYSCALL_TASK_INFO as int),
        final(ti).status == final(k).tasks@[tid as int].status,
        final(ti).syscall_times@ == final(k).tasks@[tid as int].syscall_times@,
        final(ti).time == final(k).tasks@[tid as int].time,
        r == 0,
{
    count_syscall(k, tid, SYSCALL_TASK_INFO);
    ti.status = k.tasks[tid].status;
    ti.time = k.tasks[tid].time;
    let counts = copy_counts(&k.tasks[tid].syscall_times);
    ti.syscall_times = counts;
    0
}

/// Set the calling task's scheduling priority: accepted and returned when
/// at least the minimum, rejected with `-1` below it.  Acceptance changes
/// only future `pass` increments; the accumulated stride is untouched.
pub fn sys_set_priority(k: &mut Kernel, tid: usize, prio: isize) -> (r: isize)
    requires
        old(k).wf(),
        calling(*old(k), tid as int),
    ensures
        final(k).wf(),
        ({
            let t0 = old(k).tasks@[tid as int];
            let t1 = final(k).tasks@[tid as int];
            &&& final(k).procs@ == old(k).procs@
            &&& final(k).manager.ready_queue@ == old(k).manager.ready_queue@
            &&& final(k).timers@ == old(k).timers@
            &&& final(k).tasks@.len() == old(k).tasks@.len()
            &&& forall|t: int| 0 <= t < old(k).tasks@.len() && t != tid
                ==> final(k).tasks@[t] == #[trigger] old(k).tasks@[t]
            &&& if prio < MIN_PRIORITY {
                &&& r == -1
                &&& TaskControlBlock::counted(t0, t1, SYSCALL_SET_PRIORITY as int)
            } else {
                &&& r == prio
                &&& t1.priority == prio
                &&& t1.stride == t0.stride
                &&& TaskControlBlock::counted(
                    t0,
                    TaskControlBlock { priority: t0.priority, ..t1 },
                    SYSCALL_SET_PRIORITY as int,
                )
            }
        }),
{
    count_syscall(k, tid, SYSCALL_SET_PRIORITY);
    if prio < 2 {
        return -1;
    }
    let ghost ka = *k;
    k.tasks[tid].set_priority(prio as u64);
    proof {
        assert forall|t: int| 0 <= t < k.tasks@.len()
            implies (#[trigger] k.tasks@[t]).wf() && k.tasks@[t].pid == ka.tasks@[t].pid by {
            if t != tid as int {
                assert(k.tasks@[t] == ka.tasks@[t]);
            }
        }
        lemma_kernel_wf_update(ka, *k, ka.pid_of(tid as int));
    }
    prio
}

/// The calling task exits with `exit_code`: it becomes a zombie, its
/// ledger rows are zeroed for good — everything it held returns to
/// availability — and, when it is the process's main task, the whole
/// process becomes a zombie carrying the exit code.
pub fn sys_exit(k: &mut Kernel, tid: usize, exit_code: i32)
    requires
        old(k).wf(),
        calling(*old(k), tid as int),
        ({
            let l = old(k).procs@[old(k).pid_of(tid as int)].ledger;
            forall|c: int| 0 <= c < l.cols()
                ==> isize::MIN <= #[trigger] l.avail_at(c) + l.alloc_at(tid as int, c)
                    <= isize::MAX
        }),
    ensures
        final(k).wf(),
        ({
            let pid = old(k).pid_of(tid as int);
            let p0 = old(k).procs@[pid];
            let p1 = final(k).procs@[pid];
            &&& final(k).manager.ready_queue@ == old(k).manager.ready_queue@
            &&& final(k).timers@ == old(k).timers@
            &&& final(k).procs@.len() == old(k).procs@.len()
            &&& forall|p: int| 0 <= p < old(k).procs@.len() && p != pid
                ==> final(k).procs@[p] == #[trigger] old(k).procs@[p]
            &&& final(k).tasks@.len() == old(k).tasks@.len()
            &&& forall|t: int| 0 <= t < old(k).tasks@.len() && t != tid
                ==> final(k).tasks@[t] == #[trigger] old(k).tasks@[t]
            &&& counted_status(
                old(k).tasks@[tid as int],
                final(k).tasks@[tid as int],
                SYSCALL_EXIT as int,
                TaskStatus::Zombie,
            )
            &&& p1 == (Process {
                ledger: p1.ledger,
                is_zombie: p1.is_zombie,
                exit_code: p1.exit_code,
                ..p0
            })
            &&& if tid == p0.threads@[0] {
                p1.is_zombie && p1.exit_code == exit_code
            } else {
                p1.is_zombie == p0.is_zombie && p1.exit_code == p0.exit_code
            }
            &&& p1.ledger.relation@ == p0.ledger.relation@
            &&& p1.ledger.total@ == p0.ledger.total@
            &&& forall|c: int| 0 <= c < p0.ledger.cols()
                ==> #[trigger] p1.ledger.avail_at(c) == p0.ledger.avail_at(c)
                    + p0.ledger.alloc_at(tid as int, c)
            &&& forall|c: int| 0 <= c < p0.ledger.cols()
                ==> #[trigger] p1.ledger.alloc_at(tid as int, c) == 0
            &&& forall|t: int, c: int| 0 <= t < p1.ledger.threads() && t != tid && 0 <= c
                < p0.ledger.cols() ==> #[trigger] p1.ledger.alloc_at(t, c) == p0.ledger.alloc_at(
                t,
                c,
            )
        }),
{
    count_syscall(k, tid, SYSCALL_EXIT);
    let ghost ka = *k;
    k.tasks[tid].status = TaskStatus::Zombie;
    proof {
        assert forall|t: int| 0 <= t < k.tasks@.len()
            implies (#[trigger] k.tasks@[t]).wf() && k.tasks@[t].pid == ka.tasks@[t].pid by {
            if t != tid as int {
                assert(k.tasks@[t] == ka.tasks@[t]);
            }
        }
        lemma_kernel_wf_update(ka, *k, ka.pid_of(tid as int));
    }
    let ghost kb = *k;
    let pid = k.tasks[tid].pid;
    let ghost pb = k.procs@[pid as int];
    k.procs[pid].ledger.clear_thread(tid);
    proof {
        lemma_proc_ledger_swap(pb, k.procs@[pid as int], k.tasks@.len() as int);
        lemma_kernel_wf_update(kb, *k, pid as int);
    }
    let ghost kc = *k;
    let is_main = k.procs[pid].threads[0] == tid;
    if is_main {
        k.procs[pid].is_zombie = true;
        k.procs[pid].exit_code = exit_code;
        proof {
            assert(k.procs@[pid as int].wf());
            lemma_kernel_wf_update(kc, *k, pid as int);
        }
    }
}

/// Duplicate the calling task's process: the child process has one task,
/// a copy of the caller's scheduling state, fresh primitives and an empty
/// ledger; the child task is enqueued ready and the child's process id is
/// returned.
pub fn sys_fork(k: &mut Kernel, tid: usize) -> (r: isize)
    requires
        old(k).wf(),
        calling(*old(k), tid as int),
        old(k).tasks@.len() < crate::ledger::MAX_LEDGER_THREADS,
        old(k).procs@.len() < crate::ledger::MAX_LEDGER_THREADS,
    ensures
        final(k).wf(),
        ({
            let pid = old(k).pid_of(tid as int);
            let new_pid = old(k).procs@.len() as int;
            let new_tid = old(k).tasks@.len() as int;
            let child = final(k).tasks@[new_tid];
            let cp = final(k).procs@[new_pid];
            &&& r == new_pid
            &&& final(k).tasks@.len() == old(k).tasks@.len() + 1
            &&& forall|t: int| 0 <= t < old(k).tasks@.len() && t != tid
                ==> final(k).tasks@[t] == #[trigger] old(k).tasks@[t]
            &&& TaskControlBlock::counted(
                old(k).tasks@[tid as int],
                final(k).tasks@[tid as int],
                SYSCALL_FORK as int,
            )
            &&& child.pid == new_pid
            &&& child.status == TaskStatus::Ready
            &&& child.stride == old(k).tasks@[tid as int].stride
            &&& child.priority == old(k).tasks@[tid as int].priority
            &&& child.time == 0
            &&& forall|i: int| 0 <= i < crate::task::MAX_SYSCALL_NUM
                ==> child.syscall_times@[i] == 0
            &&& final(k).procs@.len() == old(k).procs@.len() + 1
            &&& forall|p: int| 0 <= p < old(k).procs@.len() && p != pid
                ==> final(k).procs@[p] == #[trigger] old(k).procs@[p]
            &&& final(k).procs@[pid] == (Process {
                children: final(k).procs@[pid].children,
                ..old(k).procs@[pid]
            })
            &&& final(k).procs@[pid].children@ == old(k).procs@[pid].children@.push(
                new_pid as usize,
            )
            &&& cp.parent == Some(pid as usize)
            &&& cp.children@.len() == 0
            &&& !cp.is_zombie
            &&& cp.threads@ == seq![new_tid as usize]
            &&& cp.mutex_list@.len() == 0
            &&& cp.semaphore_list@.len() == 0
            &&& cp.condvar_list@.len() == 0
            &&& cp.ledger.cols() == 0
            &&& !cp.deadlock_detect
            &&& final(k).manager.ready_queue@ == old(k).manager.ready_queue@.push(
                new_tid as usize,
            )
            &&& final(k).timers@ == old(k).timers@
        }),
{
    count_syscall(k, tid, SYSCALL_FORK);
    let ghost ka = *k;
    let pid = k.tasks[tid].pid;
    let new_pid = k.procs.len();
    let new_tid = k.tasks.len();
    let parent_stride = k.tasks[tid].stride;
    let parent_priority = k.tasks[tid].priority;
    let mut child = TaskControlBlock::new(new_pid);
    child.stride = parent_stride;
    child.priority = parent_priority;
    k.tasks.push(child);
    k.procs[pid].children.push(new_pid);
    k.procs.push(Process::new(Some(pid), new_tid));
    k.manager.add(new_tid);
    proof {
        let ntasks = k.tasks@.len() as int;
        let nprocs = k.procs@.len() as int;
        assert forall|t: int| 0 <= t < ntasks
            implies (#[trigger] k.tasks@[t]).wf() && k.tasks@[t].pid < nprocs by {
            if t < ka.tasks@.len() {
                assert(k.tasks@[t] == ka.tasks@[t]);
            }
        }
        assert forall|q: int| 0 <= q < nprocs
            implies (#[trigger] k.procs@[q]).wf() && k.procs@[q].queues_wf(ntasks)
                && k.procs@[q].rels_ok(nprocs, ntasks) by {
            if q < ka.procs@.len() {
                let old_p = ka.procs@[q];
                assert(old_p.wf() && old_p.queues_wf(ntasks) && old_p.rels_ok(nprocs - 1, ntasks
                    - 1));
                if q != pid as int {
                    assert(k.procs@[q] == old_p);
                }
                assert forall|i: int| 0 <= i < k.procs@[q].mutex_list@.len()
                    implies ((#[trigger] k.procs@[q].mutex_list@[i]) matches Some(m)
                        ==> crate::kernel::tids_ok(m.wait_queue@, ntasks)) by {
                    assert(k.procs@[q].mutex_list@[i] == old_p.mutex_list@[i]);
                }
                assert forall|i: int| 0 <= i < k.procs@[q].semaphore_list@.len()
                    implies ((#[trigger] k.procs@[q].semaphore_list@[i]) matches Some(s)
                        ==> crate::kernel::tids_ok(s.wait_queue@, ntasks)) by {
                    assert(k.procs@[q].semaphore_list@[i] == old_p.semaphore_list@[i]);
                }
                assert forall|i: int| 0 <= i < k.procs@[q].condvar_list@.len()
                    implies ((#[trigger] k.procs@[q].condvar_list@[i]) matches Some(c)
                        ==> crate::kernel::tids_ok(c.wait_queue@, ntasks)) by {
                    assert(k.procs@[q].condvar_list@[i] == old_p.condvar_list@[i]);
                }
            }
        }
        assert(new_pid < crate::ledger::MAX_LEDGER_THREADS);
    }
    new_pid as isize
}

/// Does child pid `cp` match the `waitpid` argument `pid` (`-1` matches
/// any child)?
pub open spec fn wait_matches(cp: usize, pid: isize) -> bool {
    pid == -1 || cp as int == pid as int
}

/// Index of the first child that matches `pid` and whose process is a
/// zombie, scanning from `i`; the children count when there is none.
pub open spec fn find_zombie_child(
    children: Seq<usize>,
    procs: Seq<Process>,
    pid: isize,
    i: int,
) -> int
    decreases children.len() - i,
{
    if i < 0 || i >= children.len() {
        children.len() as int
    } else if wait_matches(children[i], pid) && procs[children[i] as int].is_zombie {
        i
    } else {
        find_zombie_child(children, procs, pid, i + 1)
    }
}

/// A scan that found no zombie match below `i` may as well start at `i`.
proof fn lemma_find_zombie_skip(children: Seq<usize>, procs: Seq<Process>, pid: isize, i: int)
    requires
        0 <= i <= children.len(),
        forall|j: int| 0 <= j < i
            ==> !(wait_matches(#[trigger] children[j], pid)
                && procs[children[j] as int].is_zombie),
    ensures
        find_zombie_child(children, procs, pid, 0) == find_zombie_child(children, procs, pid, i),
    decreases i,
{
    if i > 0 {
        lemma_find_zombie_skip(children, procs, pid, i - 1);
    }
}

/// Wait for a child process: `-1` when no child matches `pid` at all;
/// otherwise, if a matching child has exited, the first such child is
/// reaped — removed from the children list, its exit code stored through
/// `exit_code_ptr` — and its process id returned; `-2` when every
/// matching child is still running.
pub fn sys_waitpid(k: &mut Kernel, tid: usize, pid: isize, exit_code_ptr: &mut i32) -> (r: isize)
    requires
        old(k).wf(),
        calling(*old(k), tid as int),
    ensures
        final(k).wf(),
        ({
            let selfpid = old(k).pid_of(tid as int);
            let p0 = old(k).procs@[selfpid];
            let ch = p0.children@;
            let fz = find_zombie_child(ch, old(k).procs@, pid, 0);
            if !(exists|i: int| 0 <= i < ch.len() && wait_matches(#[trigger] ch[i], pid)) {
                &&& r == -1
                &&& only_counted(*old(k), *final(k), tid as int, SYSCALL_WAITPID as int)
                &&& *final(exit_code_ptr) == *old(exit_code_ptr)
            } else if fz < ch.len() {
                let reaped = ch[fz];
                &&& r == reaped
                &&& final(k).manager.ready_queue@ == old(k).manager.ready_queue@
                &&& final(k).timers@ == old(k).timers@
                &&& final(k).tasks@.len() == old(k).tasks@.len()
                &&& forall|t: int| 0 <= t < old(k).tasks@.len() && t != tid
                    ==> final(k).tasks@[t] == #[trigger] old(k).tasks@[t]
                &&& TaskControlBlock::counted(
                    old(k).tasks@[tid as int],
                    final(k).tasks@[tid as int],
                    SYSCALL_WAITPID as int,
                )
                &&& final(k).procs@.len() == old(k).procs@.len()
                &&& forall|p: int| 0 <= p < old(k).procs@.len() && p != selfpid
                    ==> final(k).procs@[p] == #[trigger] old(k).procs@[p]
                &&& final(k).procs@[selfpid] == (Process {
                    children: final(k).procs@[selfpid].children,
                    ..p0
                })
                &&& final(k).procs@[selfpid].children@ == ch.remove(fz)
                &&& *final(exit_code_ptr) == old(k).procs@[reaped as int].exit_code
            } else {
                &&& r == -2
                &&& only_counted(*old(k), *final(k), tid as int, SYSCALL_WAITPID as int)
                &&& *final(exit_code_ptr) == *old(exit_code_ptr)
            }
        }),
{
    count_syscall(k, tid, SYSCALL_WAITPID);
    let ghost ka = *k;
    let selfpid = k.tasks[tid].pid;
    let ghost ch = k.procs@[selfpid as int].children@;
    let n = k.procs[selfpid].children.len();

    let mut any_match = false;
    let mut i: usize = 0;
    while i < n
        invariant
            selfpid < k.procs@.len(),
            n == k.procs@[selfpid as int].children@.len(),
            ch == k.procs@[selfpid as int].children@,
            i <= n,
            any_match <==> (exists|j: int| 0 <= j < i && wait_matches(#[trigger] ch[j], pid)),
        decreases n - i,
    {
        let cp = k.procs[selfpid].children[i];
        if pid == -1 || (pid >= 0 && cp == pid as usize) {
            proof {
                assert(wait_matches(ch[i as int], pid));
            }
            any_match = true;
        } else {
            proof {
                assert(!wait_matches(ch[i as int], pid));
            }
        }
        i = i + 1;
    }
    if !any_match {
        return -1;
    }

    let mut j: usize = 0;
    while j < n
        invariant
            k.wf(),
            *k == ka,
            k.procs@ == old(k).procs@,
            only_counted(*old(k), ka, tid as int, SYSCALL_WAITPID as int),
            tid < k.tasks@.len(),
            selfpid == k.tasks@[tid as int].pid,
            n == k.procs@[selfpid as int].children@.len(),
            ch == k.procs@[selfpid as int].children@,
            j <= n,
            forall|l: int| 0 <= l < j
                ==> !(wait_matches(#[trigger] ch[l], pid)
                    && k.procs@[ch[l] as int].is_zombie),
            *exit_code_ptr == *old(exit_code_ptr),
        decreases n - j,
    {
        let cp = k.procs[selfpid].children[j];
        let matched = pid == -1 || (pid >= 0 && cp == pid as usize);
        if matched {
            if k.procs[cp].is_zombie {
                proof {
                    assert(wait_matches(ch[j as int], pid));
                    lemma_find_zombie_skip(ch, k.procs@, pid, j as int);
                    assert(find_zombie_child(ch, k.procs@, pid, 0) == j);
                    assert(old(k).procs@ =~= k.procs@);
                }
                let code = k.procs[cp].exit_code;
                let removed = k.procs[selfpid].children.remove(j);
                *exit_code_ptr = code;
                proof {
                    let ntasks = k.tasks@.len() as int;
                    let nprocs = k.procs@.len() as int;
                    assert forall|q: int| 0 <= q < nprocs
                        implies (#[trigger] k.procs@[q]).wf() && k.procs@[q].queues_wf(ntasks)
                            && k.procs@[q].rels_ok(nprocs, ntasks) by {
                        assert(ka.procs@[q].wf() && ka.procs@[q].queues_wf(ntasks)
                            && ka.procs@[q].rels_ok(nprocs, ntasks));
                        if q != selfpid as int {
                            assert(k.procs@[q] == ka.procs@[q]);
                        } else {
                            assert forall|x: int| 0 <= x < k.procs@[q].children@.len()
                                implies (#[trigger] k.procs@[q].children@[x]) < nprocs by {
                                assert(k.procs@[q].children@ == ch.remove(j as int));
                                assert(ka.procs@[q].children@ == ch);
                            }
                        }
                    }
                    assert(cp < crate::ledger::MAX_LEDGER_THREADS);
                }
                return cp as isize;
            }
            proof {
                assert(!(wait_matches(ch[j as int], pid)
                    && k.procs@[ch[j as int] as int].is_zombie));
            }
        } else {
            proof {
                assert(!wait_matches(ch[j as int], pid));
            }
        }
        j = j + 1;
    }
    proof {
        lemma_find_zombie_skip(ch, k.procs@, pid, n as int);
        assert(old(k).procs@ =~= k.procs@);
    }
    -2
}

} // verus!
