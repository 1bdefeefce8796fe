//! The kernel state: the task table, the process table with each process's
//! primitives and resource ledger, the shared ready queue, and the pending
//! sleep timers.  Syscalls are functions over this state; the dispatch
//! loop, the timer interrupt and user memory are outside collaborators.

use vstd::prelude::*;
use crate::ledger::{ResourceKind, ResourceLedger, MAX_LEDGER_THREADS};
use crate::sync::{Condvar, Mutex, Semaphore};
use crate::task::manager::TaskManager;
use crate::task::{TaskControlBlock, TaskStatus};

verus! {

/// All task ids in `q` index into a task table of length `ntasks`.
pub open spec fn tids_ok(q: Seq<usize>, ntasks: int) -> bool {
    forall|i: int| 0 <= i < q.len() ==> (#[trigger] q[i]) < ntasks
}

/// One process: its primitives, addressed by small reusable slot ids, its
/// resource ledger, and its place in the process tree.
pub struct Process {
    /// Parent process, if any.
    pub parent: Option<usize>,
    /// Child processes, by process id.
    pub children: Vec<usize>,
    /// Exited; only the exit code remains.
    pub is_zombie: bool,
    /// Exit code, meaningful once `is_zombie`.
    pub exit_code: i32,
    /// This process's tasks, by task id; the first is the main task.
    pub threads: Vec<usize>,
    /// Lock slots; a freed slot would be reused first, and with no destroy
    /// operation every slot is occupied.
    pub mutex_list: Vec<Option<Mutex>>,
    /// Semaphore slots.
    pub semaphore_list: Vec<Option<Semaphore>>,
    /// Condition-variable slots.
    pub condvar_list: Vec<Option<Condvar>>,
    /// The deadlock-avoidance ledger over this process's locks and
    /// semaphores.
    pub ledger: ResourceLedger,
    /// Whether `lock` and `down` run the Banker's check; off by default.
    pub deadlock_detect: bool,
}

impl Process {
    /// Every primitive slot is occupied and internally consistent.
    pub open spec fn lists_wf(self) -> bool {
        &&& forall|i: int| 0 <= i < self.mutex_list@.len()
            ==> ((#[trigger] self.mutex_list@[i]) matches Some(m) && m.wf())
        &&& forall|i: int| 0 <= i < self.semaphore_list@.len()
            ==> ((#[trigger] self.semaphore_list@[i]) matches Some(s) && s.wf())
        &&& forall|i: int| 0 <= i < self.condvar_list@.len()
            ==> (#[trigger] self.condvar_list@[i]) is Some
    }

    /// The ledger's relation table and the primitive lists describe the
    /// same resources: one column per lock and per semaphore slot.
    pub open spec fn ledger_maps_lists(self) -> bool {
        &&& forall|i: usize| i < self.mutex_list@.len()
            ==> self.ledger.has_column(ResourceKind::Lock, i)
        &&& forall|i: usize| i < self.semaphore_list@.len()
            ==> self.ledger.has_column(ResourceKind::Semaphore, i)
        &&& forall|c: int| 0 <= c < self.ledger.cols() ==> ((#[trigger] self.ledger.relation@[c])
            matches (ResourceKind::Lock, i) ==> i < self.mutex_list@.len())
        &&& forall|c: int| 0 <= c < self.ledger.cols() ==> ((#[trigger] self.ledger.relation@[c])
            matches (ResourceKind::Semaphore, i) ==> i < self.semaphore_list@.len())
    }

    /// Structural validity of the process.
    pub open spec fn wf(self) -> bool {
        &&& self.ledger.wf()
        &&& self.ledger.conserves()
        &&& self.ledger.no_pending()
        &&& self.lists_wf()
        &&& self.ledger_maps_lists()
    }

    /// Every task id in a wait queue of this process indexes the task
    /// table.
    pub open spec fn queues_wf(self, ntasks: int) -> bool {
        &&& forall|i: int| 0 <= i < self.mutex_list@.len()
            ==> ((#[trigger] self.mutex_list@[i]) matches Some(m)
                ==> tids_ok(m.wait_queue@, ntasks))
        &&& forall|i: int| 0 <= i < self.semaphore_list@.len()
            ==> ((#[trigger] self.semaphore_list@[i]) matches Some(s)
                ==> tids_ok(s.wait_queue@, ntasks))
        &&& forall|i: int| 0 <= i < self.condvar_list@.len()
            ==> ((#[trigger] self.condvar_list@[i]) matches Some(c)
                ==> tids_ok(c.wait_queue@, ntasks))
    }

    /// Parent, children and thread references stay inside the tables.
    pub open spec fn rels_ok(self, nprocs: int, ntasks: int) -> bool {
        &&& (self.parent matches Some(pp) ==> pp < nprocs)
        &&& tids_ok(self.children@, nprocs)
        &&& tids_ok(self.threads@, ntasks)
        &&& self.threads@.len() >= 1
    }

    /// A fresh process with no primitives and an empty ledger, whose main
    /// task is `main_tid`.
    pub fn new(parent: Option<usize>, main_tid: usize) -> (p: Process)
        ensures
            p.wf(),
            p.parent == parent,
            p.children@ == Seq::<usize>::empty(),
            !p.is_zombie,
            p.exit_code == 0,
            p.threads@ == seq![main_tid],
            p.mutex_list@.len() == 0,
            p.semaphore_list@.len() == 0,
            p.condvar_list@.len() == 0,
            p.ledger.cols() == 0,
            p.ledger.threads() == 0,
            !p.deadlock_detect,
    {
        let mut threads: Vec<usize> = Vec::new();
        threads.push(main_tid);
        proof {
            assert(threads@ =~= seq![main_tid]);
        }
        Process {
            parent,
            children: Vec::new(),
            is_zombie: false,
            exit_code: 0,
            threads,
            mutex_list: Vec::new(),
            semaphore_list: Vec::new(),
            condvar_list: Vec::new(),
            ledger: ResourceLedger::new(),
            deadlock_detect: false,
        }
    }
}

/// First unoccupied slot of a slot list, if any.
fn find_empty_slot<T>(list: &Vec<Option<T>>) -> (r: Option<usize>)
    ensures
        match r {
            Some(i) => i < list@.len() && list@[i as int] is None && forall|j: int|
                0 <= j < i ==> (#[trigger] list@[j]) is Some,
            None => forall|j: int| 0 <= j < list@.len() ==> (#[trigger] list@[j]) is Some,
        },
{
    let mut i: usize = 0;
    while i < list.len()
        invariant
            i <= list@.len(),
            forall|j: int| 0 <= j < i ==> (#[trigger] list@[j]) is Some,
        decreases list@.len() - i,
    {
        if list[i].is_none() {
            return Some(i);
        }
        i = i + 1;
    }
    None
}

impl Process {
    /// Create a lock of the chosen variant: a freed slot would be reused
    /// first; with no destroy operation every slot is occupied, so a new
    /// slot is appended, together with its ledger column of one instance.
    pub fn create_mutex(&mut self, blocking: bool) -> (id: usize)
        requires
            old(self).wf(),
            old(self).mutex_list@.len() < usize::MAX,
            old(self).ledger.cols() < usize::MAX,
        ensures
            final(self).wf(),
            id == old(self).mutex_list@.len(),
            final(self).mutex_list@.len() == old(self).mutex_list@.len() + 1,
            forall|i: int| 0 <= i < id
                ==> final(self).mutex_list@[i] == #[trigger] old(self).mutex_list@[i],
            final(self).mutex_list@[id as int] matches Some(m) && m.blocking == blocking
                && !m.locked && m.wait_queue@.len() == 0,
            final(self).semaphore_list == old(self).semaphore_list,
            final(self).condvar_list == old(self).condvar_list,
            final(self).parent == old(self).parent,
            final(self).children == old(self).children,
            final(self).is_zombie == old(self).is_zombie,
            final(self).exit_code == old(self).exit_code,
            final(self).threads == old(self).threads,
            final(self).deadlock_detect == old(self).deadlock_detect,
            final(self).ledger.relation@ == old(self).ledger.relation@.push((
                ResourceKind::Lock,
                id,
            )),
            final(self).ledger.available@ == old(self).ledger.available@.push(1),
            final(self).ledger.total@ == old(self).ledger.total@.push(1),
            final(self).ledger.threads() == old(self).ledger.threads(),
            forall|t: int| 0 <= t < old(self).ledger.threads()
                ==> final(self).ledger.allocation@[t]@
                    == (#[trigger] old(self).ledger.allocation@[t])@.push(0),
            forall|t: int| 0 <= t < old(self).ledger.threads()
                ==> final(self).ledger.need@[t]@
                    == (#[trigger] old(self).ledger.need@[t])@.push(0),
            forall|nt: int| old(self).queues_wf(nt) ==> final(self).queues_wf(nt),
    {
        let slot = find_empty_slot(&self.mutex_list);
        if let Some(i) = slot {
            proof {
                assert(self.mutex_list@[i as int] is Some);
                assert(false);
            }
        }
        let id = self.mutex_list.len();
        self.mutex_list.push(Some(Mutex::new(blocking)));
        proof {
            if self.ledger.has_column(ResourceKind::Lock, id) {
                let c = choose|c: int|
                    0 <= c < self.ledger.cols() && self.ledger.relation@[c] == (
                    ResourceKind::Lock,
                    id,
                    );
                assert(old(self).ledger_maps_lists());
                assert(false);
            }
        }
        self.ledger.add_resource(ResourceKind::Lock, id, 1);
        proof {
            lemma_lists_columns_after_add(
                *old(self),
                *self,
                ResourceKind::Lock,
                id,
                old(self).mutex_list@.len() as int + 1,
                old(self).semaphore_list@.len() as int,
            );
        }
        id
    }

    /// Create a counting semaphore with `res_count` instances; its ledger
    /// column is seeded with that count.
    pub fn create_semaphore(&mut self, res_count: usize) -> (id: usize)
        requires
            old(self).wf(),
            old(self).semaphore_list@.len() < usize::MAX,
            old(self).ledger.cols() < usize::MAX,
            res_count <= isize::MAX,
        ensures
            final(self).wf(),
            id == old(self).semaphore_list@.len(),
            final(self).semaphore_list@.len() == old(self).semaphore_list@.len() + 1,
            forall|i: int| 0 <= i < id
                ==> final(self).semaphore_list@[i] == #[trigger] old(self).semaphore_list@[i],
            final(self).semaphore_list@[id as int] matches Some(s) && s.count == res_count
                && s.wait_queue@.len() == 0,
            final(self).mutex_list == old(self).mutex_list,
            final(self).condvar_list == old(self).condvar_list,
            final(self).parent == old(self).parent,
            final(self).children == old(self).children,
            final(self).is_zombie == old(self).is_zombie,
            final(self).exit_code == old(self).exit_code,
            final(self).threads == old(self).threads,
            final(self).deadlock_detect == old(self).deadlock_detect,
            final(self).ledger.relation@ == old(self).ledger.relation@.push((
                ResourceKind::Semaphore,
                id,
            )),
            final(self).ledger.available@ == old(self).ledger.available@.push(
                res_count as isize,
            ),
            final(self).ledger.total@ == old(self).ledger.total@.push(res_count as isize),
            final(self).ledger.threads() == old(self).ledger.threads(),
            forall|t: int| 0 <= t < old(self).ledger.threads()
                ==> final(self).ledger.allocation@[t]@
                    == (#[trigger] old(self).ledger.allocation@[t])@.push(0),
            forall|t: int| 0 <= t < old(self).ledger.threads()
                ==> final(self).ledger.need@[t]@
                    == (#[trigger] old(self).ledger.need@[t])@.push(0),
            forall|nt: int| old(self).queues_wf(nt) ==> final(self).queues_wf(nt),
    {
        let slot = find_empty_slot(&self.semaphore_list);
        if let Some(i) = slot {
            proof {
                assert(self.semaphore_list@[i as int] is Some);
                assert(false);
            }
        }
        let id = self.semaphore_list.len();
        self.semaphore_list.push(Some(Semaphore::new(res_count)));
        proof {
            if self.ledger.has_column(ResourceKind::Semaphore, id) {
                let c = choose|c: int|
                    0 <= c < self.ledger.cols() && self.ledger.relation@[c] == (
                    ResourceKind::Semaphore,
                    id,
                    );
                assert(old(self).ledger_maps_lists());
                assert(false);
            }
        }
        self.ledger.add_resource(ResourceKind::Semaphore, id, res_count as isize);
        proof {
            lemma_lists_columns_after_add(
                *old(self),
                *self,
                ResourceKind::Semaphore,
                id,
                old(self).mutex_list@.len() as int,
                old(self).semaphore_list@.len() as int + 1,
            );
        }
        id
    }

    /// Create a condition variable; it has no ledger column.
    pub fn create_condvar(&mut self) -> (id: usize)
        requires
            old(self).wf(),
            old(self).condvar_list@.len() < usize::MAX,
        ensures
            final(self).wf(),
            id == old(self).condvar_list@.len(),
            final(self).condvar_list@.len() == old(self).condvar_list@.len() + 1,
            forall|i: int| 0 <= i < id
                ==> final(self).condvar_list@[i] == #[trigger] old(self).condvar_list@[i],
            final(self).condvar_list@[id as int] matches Some(c) && c.wait_queue@.len() == 0,
            *final(self) == (Process { condvar_list: final(self).condvar_list, ..*old(self) }),
            forall|nt: int| old(self).queues_wf(nt) ==> final(self).queues_wf(nt),
    {
        let slot = find_empty_slot(&self.condvar_list);
        if let Some(i) = slot {
            proof {
                assert(self.condvar_list@[i as int] is Some);
                assert(false);
            }
        }
        let id = self.condvar_list.len();
        self.condvar_list.push(Some(Condvar::new()));
        id
    }
}

/// After a resource creation appended the column `(kind, id)` and filled
/// the matching new list slot, the relation table and the lists describe
/// the same resources again.
proof fn lemma_lists_columns_after_add(
    pre: Process,
    post: Process,
    kind: ResourceKind,
    id: usize,
    n_mutex: int,
    n_sem: int,
)
    requires
        pre.ledger.wf(),
        post.ledger.wf(),
        pre.ledger_maps_lists(),
        post.ledger.relation@ == pre.ledger.relation@.push((kind, id)),
        post.ledger.cols() == pre.ledger.cols() + 1,
        post.mutex_list@.len() == n_mutex,
        post.semaphore_list@.len() == n_sem,
        kind is Lock ==> n_mutex == pre.mutex_list@.len() + 1 && n_sem
            == pre.semaphore_list@.len() && id == pre.mutex_list@.len(),
        kind is Semaphore ==> n_sem == pre.semaphore_list@.len() + 1 && n_mutex
            == pre.mutex_list@.len() && id == pre.semaphore_list@.len(),
    ensures
        post.ledger_maps_lists(),
{
    let w = pre.ledger.cols();
    assert forall|i: usize| i < post.mutex_list@.len()
        implies post.ledger.has_column(ResourceKind::Lock, i) by {
        if kind is Lock && i == id {
            assert(post.ledger.relation@[w] == (ResourceKind::Lock, i));
        } else {
            assert(pre.ledger.has_column(ResourceKind::Lock, i));
            let c = choose|c: int|
                0 <= c < pre.ledger.cols() && pre.ledger.relation@[c] == (ResourceKind::Lock, i);
            assert(post.ledger.relation@[c] == (ResourceKind::Lock, i));
        }
    }
    assert forall|i: usize| i < post.semaphore_list@.len()
        implies post.ledger.has_column(ResourceKind::Semaphore, i) by {
        if kind is Semaphore && i == id {
            assert(post.ledger.relation@[w] == (ResourceKind::Semaphore, i));
        } else {
            assert(pre.ledger.has_column(ResourceKind::Semaphore, i));
            let c = choose|c: int|
                0 <= c < pre.ledger.cols() && pre.ledger.relation@[c] == (
                ResourceKind::Semaphore,
                i,
                );
            assert(post.ledger.relation@[c] == (ResourceKind::Semaphore, i));
        }
    }
    assert forall|c: int| 0 <= c < post.ledger.cols()
        implies ((#[trigger] post.ledger.relation@[c]) matches (ResourceKind::Lock, i)
            ==> i < post.mutex_list@.len()) && (post.ledger.relation@[c] matches (
        ResourceKind::Semaphore,
        i,
        ) ==> i < post.semaphore_list@.len()) by {
        if c < w {
            assert(post.ledger.relation@[c] == pre.ledger.relation@[c]);
        }
    }
}

/// One pending sleep: wake `tid` once the clock reaches `deadline` (in
/// milliseconds).
#[derive(Clone, Copy, Debug, PartialEq, Eq, Structural)]
pub struct SleepTimer {
    /// Absolute wake time in milliseconds.
    pub deadline: usize,
    /// The sleeping task.
    pub tid: usize,
}

/// The timers of `timers` that are still pending at time `now`, in order.
pub open spec fn timers_kept(timers: Seq<SleepTimer>, now: int) -> Seq<SleepTimer>
    decreases timers.len(),
{
    if timers.len() == 0 {
        Seq::empty()
    } else {
        let rest = timers_kept(timers.drop_last(), now);
        if timers.last().deadline <= now {
            rest
        } else {
            rest.push(timers.last())
        }
    }
}

/// The tasks of `timers` due at time `now`, in timer order.
pub open spec fn timers_due(timers: Seq<SleepTimer>, now: int) -> Seq<usize>
    decreases timers.len(),
{
    if timers.len() == 0 {
        Seq::empty()
    } else {
        let rest = timers_due(timers.drop_last(), now);
        if timers.last().deadline <= now {
            rest.push(timers.last().tid)
        } else {
            rest
        }
    }
}

/// The whole kernel state.
pub struct Kernel {
    /// All tasks ever created, indexed by task id.
    pub tasks: Vec<TaskControlBlock>,
    /// All processes ever created, indexed by process id.
    pub procs: Vec<Process>,
    /// The shared ready queue.
    pub manager: TaskManager,
    /// Pending sleep timers.
    pub timers: Vec<SleepTimer>,
}

impl Kernel {
    /// Structural validity of the whole state.
    pub open spec fn wf(self) -> bool {
        &&& self.tasks@.len() <= MAX_LEDGER_THREADS
        &&& self.procs@.len() <= MAX_LEDGER_THREADS
        &&& forall|t: int| 0 <= t < self.tasks@.len()
            ==> (#[trigger] self.tasks@[t]).wf() && self.tasks@[t].pid < self.procs@.len()
        &&& forall|p: int| 0 <= p < self.procs@.len() ==> (#[trigger] self.procs@[p]).wf()
        &&& forall|p: int| 0 <= p < self.procs@.len()
            ==> (#[trigger] self.procs@[p]).queues_wf(self.tasks@.len() as int)
        &&& forall|p: int| 0 <= p < self.procs@.len()
            ==> (#[trigger] self.procs@[p]).rels_ok(
                self.procs@.len() as int,
                self.tasks@.len() as int,
            )
        &&& tids_ok(self.manager.ready_queue@, self.tasks@.len() as int)
        &&& forall|i: int| 0 <= i < self.timers@.len()
            ==> (#[trigger] self.timers@[i]).tid < self.tasks@.len()
    }

    /// The process id of task `tid`.
    pub open spec fn pid_of(self, tid: int) -> int {
        self.tasks@[tid].pid as int
    }

    /// Between `pre` and `post`, only process `pid` differs.
    pub open spec fn only_proc_changed(pre: Kernel, post: Kernel, pid: int) -> bool {
        &&& post.tasks@ == pre.tasks@
        &&& post.manager.ready_queue@ == pre.manager.ready_queue@
        &&& post.timers@ == pre.timers@
        &&& post.procs@.len() == pre.procs@.len()
        &&& forall|p: int| 0 <= p < pre.procs@.len() && p != pid
            ==> post.procs@[p] == #[trigger] pre.procs@[p]
    }

    /// Between `pre` and `post`, only process `pid` and task `tid` differ.
    pub open spec fn only_proc_task_changed(pre: Kernel, post: Kernel, pid: int, tid: int) -> bool {
        &&& post.tasks@.len() == pre.tasks@.len()
        &&& forall|t: int| 0 <= t < pre.tasks@.len() && t != tid
            ==> post.tasks@[t] == #[trigger] pre.tasks@[t]
        &&& post.timers@ == pre.timers@
        &&& post.procs@.len() == pre.procs@.len()
        &&& forall|p: int| 0 <= p < pre.procs@.len() && p != pid
            ==> post.procs@[p] == #[trigger] pre.procs@[p]
    }

    /// A fresh kernel: one root process whose single task is running.
    pub fn new() -> (k: Kernel)
        ensures
            k.wf(),
            k.tasks@.len() == 1,
            k.tasks@[0].pid == 0,
            k.tasks@[0].status == TaskStatus::Running,
            k.tasks@[0].stride == 0,
            k.tasks@[0].wf(),
            k.procs@.len() == 1,
            k.procs@[0].parent is None,
            k.procs@[0].children@.len() == 0,
            !k.procs@[0].is_zombie,
            k.procs@[0].threads@ == seq![0usize],
            k.procs@[0].mutex_list@.len() == 0,
            k.procs@[0].semaphore_list@.len() == 0,
            k.procs@[0].condvar_list@.len() == 0,
            k.procs@[0].ledger.cols() == 0,
            k.procs@[0].ledger.threads() == 0,
            !k.procs@[0].deadlock_detect,
            k.manager.ready_queue@ == Seq::<usize>::empty(),
            k.timers@ == Seq::<SleepTimer>::empty(),
    {
        let mut root = TaskControlBlock::new(0);
        root.status = TaskStatus::Running;
        let mut tasks: Vec<TaskControlBlock> = Vec::new();
        tasks.push(root);
        let mut procs: Vec<Process> = Vec::new();
        procs.push(Process::new(None, 0));
        Kernel { tasks, procs, manager: TaskManager::new(), timers: Vec::new() }
    }

    /// Create one more task in the process of task `tid`: it starts ready
    /// and is enqueued at the tail of the ready queue.
    pub fn create_thread(&mut self, tid: usize) -> (new_tid: usize)
        requires
            old(self).wf(),
            tid < old(self).tasks@.len(),
            old(self).tasks@.len() < MAX_LEDGER_THREADS,
        ensures
            final(self).wf(),
            new_tid == old(self).tasks@.len(),
            final(self).tasks@.len() == old(self).tasks@.len() + 1,
            forall|t: int| 0 <= t < old(self).tasks@.len()
                ==> final(self).tasks@[t] == #[trigger] old(self).tasks@[t],
            final(self).tasks@[new_tid as int].pid == old(self).tasks@[tid as int].pid,
            final(self).tasks@[new_tid as int].status == TaskStatus::Ready,
            final(self).tasks@[new_tid as int].stride == 0,
            final(self).manager.ready_queue@ == old(self).manager.ready_queue@.push(new_tid),
            final(self).timers@ == old(self).timers@,
            final(self).procs@.len() == old(self).procs@.len(),
            forall|p: int| 0 <= p < old(self).procs@.len() && p != old(self).pid_of(tid as int)
                ==> final(self).procs@[p] == #[trigger] old(self).procs@[p],
            ({
                let pid = old(self).pid_of(tid as int);
                let p0 = old(self).procs@[pid];
                let p1 = final(self).procs@[pid];
                &&& p1.threads@ == p0.threads@.push(new_tid)
                &&& p1 == (Process { threads: p1.threads, ..p0 })
            }),
    {
        let pid = self.tasks[tid].pid;
        let new_tid = self.tasks.len();
        self.tasks.push(TaskControlBlock::new(pid));
        let p = &mut self.procs[pid];
        p.threads.push(new_tid);
        self.manager.add(new_tid);
        proof {
            let ntasks = self.tasks@.len() as int;
            let nprocs = self.procs@.len() as int;
            assert forall|q: int| 0 <= q < nprocs
                implies (#[trigger] self.procs@[q]).wf()
                    && self.procs@[q].queues_wf(ntasks)
                    && self.procs@[q].rels_ok(nprocs, ntasks) by {
                let old_p = old(self).procs@[q];
                assert(old_p.wf() && old_p.queues_wf(ntasks - 1) && old_p.rels_ok(nprocs, ntasks
                    - 1));
                if q != pid as int {
                    assert(self.procs@[q] == old_p);
                }
                assert forall|i: int| 0 <= i < self.procs@[q].mutex_list@.len()
                    implies ((#[trigger] self.procs@[q].mutex_list@[i]) matches Some(m)
                        ==> tids_ok(m.wait_queue@, ntasks)) by {
                    assert(self.procs@[q].mutex_list@[i] == old_p.mutex_list@[i]);
                }
                assert forall|i: int| 0 <= i < self.procs@[q].semaphore_list@.len()
                    implies ((#[trigger] self.procs@[q].semaphore_list@[i]) matches Some(s)
                        ==> tids_ok(s.wait_queue@, ntasks)) by {
                    assert(self.procs@[q].semaphore_list@[i] == old_p.semaphore_list@[i]);
                }
                assert forall|i: int| 0 <= i < self.procs@[q].condvar_list@.len()
                    implies ((#[trigger] self.procs@[q].condvar_list@[i]) matches Some(c)
                        ==> tids_ok(c.wait_queue@, ntasks)) by {
                    assert(self.procs@[q].condvar_list@[i] == old_p.condvar_list@[i]);
                }
            }
        }
        new_tid
    }

    /// Wake every sleeper whose deadline has been reached by `now_ms`: it
    /// becomes ready and is enqueued, in timer order; later timers stay.
    pub fn wake_expired(&mut self, now_ms: usize)
        requires
            old(self).wf(),
        ensures
            final(self).wf(),
            final(self).timers@ == timers_kept(old(self).timers@, now_ms as int),
            final(self).manager.ready_queue@ == old(self).manager.ready_queue@
                + timers_due(old(self).timers@, now_ms as int),
            final(self).tasks@.len() == old(self).tasks@.len(),
            forall|t: int| 0 <= t < old(self).tasks@.len()
                ==> if timers_due(old(self).timers@, now_ms as int).contains(t as usize) {
                    (#[trigger] final(self).tasks@[t]) == (TaskControlBlock {
                        status: TaskStatus::Ready,
                        ..old(self).tasks@[t]
                    })
                } else {
                    final(self).tasks@[t] == old(self).tasks@[t]
                },
            final(self).procs@ == old(self).procs@,
    {
        let n = self.timers.len();
        let mut kept: Vec<SleepTimer> = Vec::new();
        let mut j: usize = 0;
        while j < n
            invariant
                old(self).wf(),
                n == old(self).timers@.len(),
                j <= n,
                self.timers@ == old(self).timers@,
                self.procs@ == old(self).procs@,
                self.tasks@.len() == old(self).tasks@.len(),
                kept@ == timers_kept(old(self).timers@.take(j as int), now_ms as int),
                self.manager.ready_queue@ == old(self).manager.ready_queue@
                    + timers_due(old(self).timers@.take(j as int), now_ms as int),
                forall|t: int| 0 <= t < old(self).tasks@.len()
                    ==> if timers_due(old(self).timers@.take(j as int), now_ms as int).contains(
                        t as usize,
                    ) {
                        (#[trigger] self.tasks@[t]) == (TaskControlBlock {
                            status: TaskStatus::Ready,
                            ..old(self).tasks@[t]
                        })
                    } else {
                        self.tasks@[t] == old(self).tasks@[t]
                    },
            decreases n - j,
        {
            let ghost pre_due = timers_due(old(self).timers@.take(j as int), now_ms as int);
            proof {
                assert(old(self).timers@.take(j as int + 1).drop_last() =~= old(
                    self,
                ).timers@.take(j as int));
                assert(old(self).timers@.take(j as int + 1).last() == old(self).timers@[j as int]);
            }
            let tm = self.timers[j];
            if tm.deadline <= now_ms {
                let ghost tasks_pre = self.tasks@;
                self.tasks[tm.tid].status = TaskStatus::Ready;
                self.manager.add(tm.tid);
                proof {
                    let due1 = timers_due(old(self).timers@.take(j as int + 1), now_ms as int);
                    assert(due1 == pre_due.push(tm.tid));
                    assert(self.manager.ready_queue@ =~= old(self).manager.ready_queue@ + due1);
                    assert forall|t: int| 0 <= t < old(self).tasks@.len()
                        implies if due1.contains(t as usize) {
                            (#[trigger] self.tasks@[t]) == (TaskControlBlock {
                                status: TaskStatus::Ready,
                                ..old(self).tasks@[t]
                            })
                        } else {
                            self.tasks@[t] == old(self).tasks@[t]
                        } by {
                        if t == tm.tid as int {
                            assert(due1[due1.len() - 1] == t as usize);
                            assert(due1.contains(t as usize));
                        } else {
                            assert(self.tasks@[t] == tasks_pre[t]);
                            if pre_due.contains(t as usize) {
                                let w = choose|w: int|
                                    0 <= w < pre_due.len() && pre_due[w] == t as usize;
                                assert(due1[w] == t as usize);
                                assert(due1.contains(t as usize));
                            } else {
                                if due1.contains(t as usize) {
                                    let w = choose|w: int|
                                        0 <= w < due1.len() && due1[w] == t as usize;
                                    assert(w < pre_due.len());
                                    assert(pre_due[w] == t as usize);
                                    assert(false);
                                }
                            }
                        }
                    }
                }
            } else {
                kept.push(tm);
                proof {
                    let due1 = timers_due(old(self).timers@.take(j as int + 1), now_ms as int);
                    assert(due1 == pre_due);
                }
            }
            j = j + 1;
        }
        proof {
            assert(old(self).timers@.take(n as int) =~= old(self).timers@);
        }
        self.timers = kept;
        proof {
            let ntasks = self.tasks@.len() as int;
            let nprocs = self.procs@.len() as int;
            assert forall|q: int| 0 <= q < nprocs
                implies (#[trigger] self.procs@[q]).wf()
                    && self.procs@[q].queues_wf(ntasks)
                    && self.procs@[q].rels_ok(nprocs, ntasks) by {
                assert(self.procs@[q] == old(self).procs@[q]);
            }
            assert forall|i: int| 0 <= i < self.timers@.len()
                implies (#[trigger] self.timers@[i]).tid < self.tasks@.len() by {
                lemma_timers_kept_sub(old(self).timers@, now_ms as int, i);
            }
            let due = timers_due(old(self).timers@, now_ms as int);
            assert forall|t: int| 0 <= t < self.tasks@.len()
                implies (#[trigger] self.tasks@[t]).wf()
                    && self.tasks@[t].pid < self.procs@.len() by {
                if !due.contains(t as usize) {
                    assert(self.tasks@[t] == old(self).tasks@[t]);
                }
            }
            assert forall|i: int| 0 <= i < self.manager.ready_queue@.len()
                implies (#[trigger] self.manager.ready_queue@[i]) < self.tasks@.len() by {
                if i >= old(self).manager.ready_queue@.len() {
                    lemma_timers_due_sub(
                        old(self).timers@,
                        now_ms as int,
                        i - old(self).manager.ready_queue@.len(),
                    );
                }
            }
        }
    }
}

/// Every due task id is the id of one of the original timers.
proof fn lemma_timers_due_sub(timers: Seq<SleepTimer>, now: int, i: int)
    requires
        0 <= i < timers_due(timers, now).len(),
    ensures
        exists|j: int| 0 <= j < timers.len() && timers[j].tid == timers_due(timers, now)[i],
    decreases timers.len(),
{
    if timers.len() > 0 {
        let rest = timers_due(timers.drop_last(), now);
        if i < rest.len() {
            lemma_timers_due_sub(timers.drop_last(), now, i);
            let j = choose|j: int|
                0 <= j < timers.drop_last().len() && timers.drop_last()[j].tid == rest[i];
            assert(timers[j].tid == timers_due(timers, now)[i]);
        } else {
            assert(timers[timers.len() - 1].tid == timers_due(timers, now)[i]);
        }
    }
}

/// Kernel validity is preserved by an update that touches one process
/// (keeping its tree references), task statuses, the ready queue and
/// nothing else.
pub(crate) proof fn lemma_kernel_wf_update(pre: Kernel, post: Kernel, pid: int)
    requires
        pre.wf(),
        post.tasks@.len() == pre.tasks@.len(),
        post.procs@.len() == pre.procs@.len(),
        0 <= pid < pre.procs@.len(),
        forall|p: int| 0 <= p < pre.procs@.len() && p != pid
            ==> post.procs@[p] == #[trigger] pre.procs@[p],
        post.procs@[pid].wf(),
        post.procs@[pid].queues_wf(pre.tasks@.len() as int),
        post.procs@[pid].parent == pre.procs@[pid].parent,
        post.procs@[pid].children == pre.procs@[pid].children,
        post.procs@[pid].threads == pre.procs@[pid].threads,
        forall|t: int| 0 <= t < pre.tasks@.len()
            ==> (#[trigger] post.tasks@[t]).wf() && post.tasks@[t].pid == pre.tasks@[t].pid,
        tids_ok(post.manager.ready_queue@, post.tasks@.len() as int),
        post.timers@ == pre.timers@,
    ensures
        post.wf(),
{
    let ntasks = post.tasks@.len() as int;
    let nprocs = post.procs@.len() as int;
    assert forall|p: int| 0 <= p < nprocs
        implies (#[trigger] post.procs@[p]).wf() && post.procs@[p].queues_wf(ntasks)
            && post.procs@[p].rels_ok(nprocs, ntasks) by {
        if p != pid {
            assert(post.procs@[p] == pre.procs@[p]);
        } else {
            assert(pre.procs@[p].rels_ok(nprocs, ntasks));
        }
    }
}

/// Process validity is preserved by swapping in a ledger with the same
/// relation table and column count.
pub(crate) proof fn lemma_proc_ledger_swap(p0: Process, p1: Process, ntasks: int)
    requires
        p0.wf(),
        p0.queues_wf(ntasks),
        p1 == (Process { ledger: p1.ledger, ..p0 }),
        p1.ledger.wf(),
        p1.ledger.conserves(),
        p1.ledger.no_pending(),
        p1.ledger.relation@ == p0.ledger.relation@,
        p1.ledger.cols() == p0.ledger.cols(),
    ensures
        p1.wf(),
        p1.queues_wf(ntasks),
{
    assert forall|i: usize| i < p1.mutex_list@.len()
        implies p1.ledger.has_column(ResourceKind::Lock, i) by {
        assert(p0.ledger.has_column(ResourceKind::Lock, i));
        let c = choose|c: int|
            0 <= c < p0.ledger.cols() && p0.ledger.relation@[c] == (ResourceKind::Lock, i);
        assert(p1.ledger.relation@[c] == (ResourceKind::Lock, i));
    }
    assert forall|i: usize| i < p1.semaphore_list@.len()
        implies p1.ledger.has_column(ResourceKind::Semaphore, i) by {
        assert(p0.ledger.has_column(ResourceKind::Semaphore, i));
        let c = choose|c: int|
            0 <= c < p0.ledger.cols() && p0.ledger.relation@[c] == (ResourceKind::Semaphore, i);
        assert(p1.ledger.relation@[c] == (ResourceKind::Semaphore, i));
    }
}

/// Process validity is preserved by replacing one occupied lock slot with
/// another valid occupied lock.
pub(crate) proof fn lemma_proc_mutex_slot(p0: Process, p1: Process, id: int, ntasks: int)
    requires
        p0.wf(),
        p0.queues_wf(ntasks),
        p1 == (Process { mutex_list: p1.mutex_list, ..p0 }),
        p1.mutex_list@.len() == p0.mutex_list@.len(),
        forall|i: int| 0 <= i < p0.mutex_list@.len() && i != id
            ==> p1.mutex_list@[i] == #[trigger] p0.mutex_list@[i],
        0 <= id < p1.mutex_list@.len(),
        p1.mutex_list@[id] matches Some(m) && m.wf() && tids_ok(m.wait_queue@, ntasks),
    ensures
        p1.wf(),
        p1.queues_wf(ntasks),
{
    assert forall|i: int| 0 <= i < p1.mutex_list@.len()
        implies ((#[trigger] p1.mutex_list@[i]) matches Some(m) && m.wf() && tids_ok(
            m.wait_queue@,
            ntasks,
        )) by {
        if i != id {
            assert(p1.mutex_list@[i] == p0.mutex_list@[i]);
        }
    }
}

/// Process validity is preserved by replacing one occupied semaphore slot
/// with another valid occupied semaphore.
pub(crate) proof fn lemma_proc_sem_slot(p0: Process, p1: Process, id: int, ntasks: int)
    requires
        p0.wf(),
        p0.queues_wf(ntasks),
        p1 == (Process { semaphore_list: p1.semaphore_list, ..p0 }),
        p1.semaphore_list@.len() == p0.semaphore_list@.len(),
        forall|i: int| 0 <= i < p0.semaphore_list@.len() && i != id
            ==> p1.semaphore_list@[i] == #[trigger] p0.semaphore_list@[i],
        0 <= id < p1.semaphore_list@.len(),
        p1.semaphore_list@[id] matches Some(s) && s.wf() && tids_ok(s.wait_queue@, ntasks),
    ensures
        p1.wf(),
        p1.queues_wf(ntasks),
{
    assert forall|i: int| 0 <= i < p1.semaphore_list@.len()
        implies ((#[trigger] p1.semaphore_list@[i]) matches Some(s) && s.wf() && tids_ok(
            s.wait_queue@,
            ntasks,
        )) by {
        if i != id {
            assert(p1.semaphore_list@[i] == p0.semaphore_list@[i]);
        }
    }
}

/// Process validity is preserved by replacing one occupied
/// condition-variable slot.
pub(crate) proof fn lemma_proc_condvar_slot(p0: Process, p1: Process, id: int, ntasks: int)
    requires
        p0.wf(),
        p0.queues_wf(ntasks),
        p1 == (Process { condvar_list: p1.condvar_list, ..p0 }),
        p1.condvar_list@.len() == p0.condvar_list@.len(),
        forall|i: int| 0 <= i < p0.condvar_list@.len() && i != id
            ==> p1.condvar_list@[i] == #[trigger] p0.condvar_list@[i],
        0 <= id < p1.condvar_list@.len(),
        p1.condvar_list@[id] matches Some(c) && tids_ok(c.wait_queue@, ntasks),
    ensures
        p1.wf(),
        p1.queues_wf(ntasks),
{
    assert forall|i: int| 0 <= i < p1.condvar_list@.len()
        implies ((#[trigger] p1.condvar_list@[i]) matches Some(c) && tids_ok(
            c.wait_queue@,
            ntasks,
        )) by {
        if i != id {
            assert(p1.condvar_list@[i] == p0.condvar_list@[i]);
        }
    }
}

/// Every kept timer is one of the original timers.
proof fn lemma_timers_kept_sub(timers: Seq<SleepTimer>, now: int, i: int)
    requires
        0 <= i < timers_kept(timers, now).len(),
    ensures
        exists|j: int| 0 <= j < timers.len() && timers[j] == timers_kept(timers, now)[i],
    decreases timers.len(),
{
    if timers.len() > 0 {
        let rest = timers_kept(timers.drop_last(), now);
        if i < rest.len() {
            lemma_timers_kept_sub(timers.drop_last(), now, i);
            let j = choose|j: int|
                0 <= j < timers.drop_last().len() && timers.drop_last()[j] == rest[i];
            assert(timers[j] == timers_kept(timers, now)[i]);
        } else {
            assert(timers[timers.len() - 1] == timers_kept(timers, now)[i]);
        }
    }
}

} // verus!
