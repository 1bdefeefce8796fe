//! Task control blocks: status, per-task stride-scheduling state
//! (`stride`, `priority`, derived `pass`), and the per-task syscall
//! bookkeeping that `sys_task_info` reports.

pub mod manager;

use vstd::prelude::*;

verus! {

/// Numerator of the per-dispatch stride increment: `pass = BIG_STRIDE / priority`.
pub const BIG_STRIDE: u64 = 65536;

/// Smallest priority `set_priority` accepts.
pub const MIN_PRIORITY: u64 = 2;

/// Priority a task is created with.
pub const DEFAULT_PRIORITY: u64 = 16;

/// Number of syscall ids whose call counts are tracked per task.
pub const MAX_SYSCALL_NUM: usize = 500;

/// Where a task stands in its life cycle.
#[derive(Clone, Copy, Debug, PartialEq, Eq, Structural)]
pub enum TaskStatus {
    /// Runnable, sitting in the ready queue.
    Ready,
    /// Currently on the processor.
    Running,
    /// Waiting on a primitive's queue or on a sleep timer.
    Blocked,
    /// Exited; only its exit code remains.
    Zombie,
}

/// One task (thread).  Owned by the kernel's task table; the ready queue and
/// the primitives' wait queues refer to it by its table index.
pub struct TaskControlBlock {
    /// Index of the owning process in the kernel's process table.
    pub pid: usize,
    /// Life-cycle status.
    pub status: TaskStatus,
    /// Accumulated proportional-share counter.
    pub stride: u64,
    /// Scheduling priority; always at least `MIN_PRIORITY`.
    pub priority: u64,
    /// Total running time, in milliseconds, as maintained by the dispatcher.
    pub time: usize,
    /// How often each syscall id was invoked by the task.
    pub syscall_times: Vec<u32>,
}

impl TaskControlBlock {
    /// Structural validity: a legal priority and a full-width counter table.
    pub open spec fn wf(self) -> bool {
        &&& self.priority >= MIN_PRIORITY
        &&& self.syscall_times@.len() == MAX_SYSCALL_NUM
    }

    /// The fields `sys_task_info` does not report, unchanged between two values.
    pub open spec fn same_info(a: TaskControlBlock, b: TaskControlBlock) -> bool {
        &&& b.pid == a.pid
        &&& b.status == a.status
        &&& b.stride == a.stride
        &&& b.priority == a.priority
        &&& b.time == a.time
    }

    /// `b` is `a` with one more call of syscall `id` on record.
    pub open spec fn counted(a: TaskControlBlock, b: TaskControlBlock, id: int) -> bool {
        &&& Self::same_info(a, b)
        &&& b.syscall_times@ == a.syscall_times@.update(
            id,
            if a.syscall_times@[id] < u32::MAX { (a.syscall_times@[id] + 1) as u32 } else { u32::MAX },
        )
    }

    /// A fresh task of process `pid`.
    pub fn new(pid: usize) -> (t: TaskControlBlock)
        ensures
            t.wf(),
            t.pid == pid,
            t.status == TaskStatus::Ready,
            t.stride == 0,
            t.priority == DEFAULT_PRIORITY,
            t.time == 0,
            forall|i: int| 0 <= i < MAX_SYSCALL_NUM ==> t.syscall_times@[i] == 0,
    {
        let mut times: Vec<u32> = Vec::new();
        let mut i: usize = 0;
        while i < MAX_SYSCALL_NUM
            invariant
                i <= MAX_SYSCALL_NUM,
                times@.len() == i,
                forall|j: int| 0 <= j < i ==> times@[j] == 0,
            decreases MAX_SYSCALL_NUM - i,
        {
            times.push(0);
            i = i + 1;
        }
        TaskControlBlock {
            pid,
            status: TaskStatus::Ready,
            stride: 0,
            priority: DEFAULT_PRIORITY,
            time: 0,
            syscall_times: times,
        }
    }

    /// Per-dispatch stride increment, `BIG_STRIDE / priority`.
    pub open spec fn spec_pass(self) -> int {
        BIG_STRIDE as int / self.priority as int
    }

    /// Per-dispatch stride increment, `BIG_STRIDE / priority`.
    pub fn pass(&self) -> (p: u64)
        requires
            self.wf(),
        ensures
            p == self.spec_pass(),
    {
        BIG_STRIDE / self.priority
    }

    /// Set the scheduling priority.  Only future `pass` increments change;
    /// the already-accumulated `stride` is not rescaled.
    pub fn set_priority(&mut self, prio: u64)
        requires
            prio >= MIN_PRIORITY,
        ensures
            *final(self) == (TaskControlBlock { priority: prio, ..*old(self) }),
    {
        self.priority = prio;
    }

    /// Charge one dispatch: add `pass` to the accumulated stride,
    /// saturating at the counter's width.
    pub fn charge_pass(&mut self)
        requires
            old(self).wf(),
        ensures
            final(self).stride == if old(self).stride + old(self).spec_pass() <= u64::MAX {
                old(self).stride + old(self).spec_pass()
            } else {
                u64::MAX as int
            },
            *final(self) == (TaskControlBlock { stride: final(self).stride, ..*old(self) }),
    {
        let p = self.pass();
        if self.stride <= u64::MAX - p {
            self.stride = self.stride + p;
        } else {
            self.stride = u64::MAX;
        }
    }

    /// Record one invocation of syscall `id`, saturating the counter.
    pub fn change_info(&mut self, id: usize)
        requires
            old(self).wf(),
            id < MAX_SYSCALL_NUM,
        ensures
            final(self).wf(),
            TaskControlBlock::counted(*old(self), *final(self), id as int),
    {
        let c = self.syscall_times[id];
        if c < u32::MAX {
            self.syscall_times.set(id, c + 1);
        } else {
            self.syscall_times.set(id, u32::MAX);
        }
    }
}

} // verus!
