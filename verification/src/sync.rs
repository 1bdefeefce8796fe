//! Synchronization primitives: mutual-exclusion locks (spin or blocking,
//! one capability with two behaviours chosen at creation), counting
//! semaphores, and condition variables.  Each is a waitable object with its
//! own FIFO queue of task ids; blocking and waking are expressed in the
//! contracts, and the syscall layer performs the status changes.

use vstd::prelude::*;
use std::collections::VecDeque;

verus! {

/// What one acquisition attempt on a `Mutex` did.
#[derive(Clone, Copy, Debug, PartialEq, Eq, Structural)]
pub enum LockAttempt {
    /// The caller now owns the lock.
    Acquired,
    /// Spin variant, lock held: the caller must yield and attempt again.
    WouldSpin,
    /// Blocking variant, lock held: the caller was enqueued and must block;
    /// ownership is handed to it directly when its turn comes.
    Enqueued,
}

/// A binary lock.  The spin variant holds only the `locked` flag and its
/// waiters poll; the blocking variant adds a FIFO wait queue and hands
/// ownership directly to the woken waiter.
pub struct Mutex {
    /// Chosen at creation: `true` for the blocking variant.
    pub blocking: bool,
    /// Free (`false`) or owned (`true`).
    pub locked: bool,
    /// Waiting task ids, oldest first; always empty for the spin variant.
    pub wait_queue: VecDeque<usize>,
}

impl Mutex {
    /// A spin mutex never queues a waiter.
    pub open spec fn wf(self) -> bool {
        !self.blocking ==> self.wait_queue@.len() == 0
    }

    /// A free lock of the chosen variant.
    pub fn new(blocking: bool) -> (m: Mutex)
        ensures
            m.wf(),
            m.blocking == blocking,
            !m.locked,
            m.wait_queue@ == Seq::<usize>::empty(),
    {
        Mutex { blocking, locked: false, wait_queue: VecDeque::new() }
    }

    /// One acquisition attempt by task `tid`: take a free lock; on a held
    /// blocking lock, enqueue; on a held spin lock, report that the caller
    /// must poll again.
    pub fn lock(&mut self, tid: usize) -> (r: LockAttempt)
        requires
            old(self).wf(),
        ensures
            final(self).wf(),
            final(self).blocking == old(self).blocking,
            !old(self).locked ==> {
                &&& r == LockAttempt::Acquired
                &&& final(self).locked
                &&& final(self).wait_queue@ == old(self).wait_queue@
            },
            old(self).locked && old(self).blocking ==> {
                &&& r == LockAttempt::Enqueued
                &&& final(self).locked
                &&& final(self).wait_queue@ == old(self).wait_queue@.push(tid)
            },
            old(self).locked && !old(self).blocking ==> {
                &&& r == LockAttempt::WouldSpin
                &&& final(self).locked
                &&& final(self).wait_queue@ == old(self).wait_queue@
            },
    {
        if !self.locked {
            self.locked = true;
            LockAttempt::Acquired
        } else if self.blocking {
            self.wait_queue.push_back(tid);
            LockAttempt::Enqueued
        } else {
            LockAttempt::WouldSpin
        }
    }

    /// Release the lock.  If a waiter is queued, dequeue exactly one and
    /// hand ownership directly to it — the lock never passes through a free
    /// state; otherwise mark the lock free.
    pub fn unlock(&mut self) -> (woken: Option<usize>)
        requires
            old(self).wf(),
            old(self).locked,
        ensures
            final(self).wf(),
            final(self).blocking == old(self).blocking,
            old(self).wait_queue@.len() == 0 ==> {
                &&& woken is None
                &&& !final(self).locked
                &&& final(self).wait_queue@ == old(self).wait_queue@
            },
            old(self).wait_queue@.len() > 0 ==> {
                &&& woken == Some(old(self).wait_queue@[0])
                &&& final(self).locked
                &&& final(self).wait_queue@ == old(self).wait_queue@.drop_first()
            },
    {
        let woken = self.wait_queue.pop_front();
        match woken {
            Some(t) => {
                proof {
                    assert(final(self).wait_queue@ =~= old(self).wait_queue@.drop_first());
                }
                Some(t)
            },
            None => {
                self.locked = false;
                None
            },
        }
    }
}

/// A counting semaphore.  A negative counter records how many tasks are
/// blocked waiting; the wait queue holds exactly those tasks, oldest first.
pub struct Semaphore {
    /// Remaining instances when nonnegative; `-count` waiters when negative.
    pub count: isize,
    /// Waiting task ids, oldest first.
    pub wait_queue: VecDeque<usize>,
}

impl Semaphore {
    /// The counter and the queue agree: a negative counter counts the
    /// queued waiters, a nonnegative one means nobody waits.
    pub open spec fn wf(self) -> bool {
        &&& self.count < 0 ==> self.wait_queue@.len() == -(self.count as int)
        &&& self.count >= 0 ==> self.wait_queue@.len() == 0
    }

    /// A semaphore with `res_count` free instances.
    pub fn new(res_count: usize) -> (s: Semaphore)
        requires
            res_count <= isize::MAX,
        ensures
            s.wf(),
            s.count == res_count,
            s.wait_queue@ == Seq::<usize>::empty(),
    {
        Semaphore { count: res_count as isize, wait_queue: VecDeque::new() }
    }

    /// Take one instance for task `tid`: decrement the counter; if it goes
    /// negative the caller is enqueued and must block.
    pub fn down(&mut self, tid: usize) -> (blocked: bool)
        requires
            old(self).wf(),
            old(self).count > isize::MIN,
        ensures
            final(self).wf(),
            final(self).count == old(self).count - 1,
            blocked <==> final(self).count < 0,
            blocked ==> final(self).wait_queue@ == old(self).wait_queue@.push(tid),
            !blocked ==> final(self).wait_queue@ == old(self).wait_queue@,
    {
        self.count = self.count - 1;
        if self.count < 0 {
            self.wait_queue.push_back(tid);
            true
        } else {
            false
        }
    }

    /// Return one instance: increment the counter; if a task was waiting,
    /// dequeue and wake exactly the oldest one.
    pub fn up(&mut self) -> (woken: Option<usize>)
        requires
            old(self).wf(),
            old(self).count < isize::MAX,
        ensures
            final(self).wf(),
            final(self).count == old(self).count + 1,
            old(self).count < 0 ==> {
                &&& woken == Some(old(self).wait_queue@[0])
                &&& final(self).wait_queue@ == old(self).wait_queue@.drop_first()
            },
            old(self).count >= 0 ==> {
                &&& woken is None
                &&& final(self).wait_queue@ == old(self).wait_queue@
            },
    {
        let was_negative = self.count < 0;
        self.count = self.count + 1;
        if was_negative {
            let woken = self.wait_queue.pop_front();
            proof {
                assert(final(self).wait_queue@ =~= old(self).wait_queue@.drop_first());
            }
            woken
        } else {
            None
        }
    }
}

/// A condition variable: a FIFO wait queue and nothing else.  A signal with
/// no waiters is dropped, never buffered.  `wait` is paired with a
/// caller-supplied lock which the syscall layer releases before blocking;
/// the woken waiter re-acquires that lock itself.
pub struct Condvar {
    /// Waiting task ids, oldest first.
    pub wait_queue: VecDeque<usize>,
}

impl Condvar {
    /// A condition variable with no waiters.
    pub fn new() -> (c: Condvar)
        ensures
            c.wait_queue@ == Seq::<usize>::empty(),
    {
        Condvar { wait_queue: VecDeque::new() }
    }

    /// Enqueue task `tid`; the caller then blocks.  The paired lock must
    /// already have been released by the caller.
    pub fn wait(&mut self, tid: usize)
        ensures
            final(self).wait_queue@ == old(self).wait_queue@.push(tid),
    {
        self.wait_queue.push_back(tid);
    }

    /// Wake exactly the oldest waiter, if there is one; with no waiters the
    /// signal has no effect at all.
    pub fn signal(&mut self) -> (woken: Option<usize>)
        ensures
            old(self).wait_queue@.len() == 0 ==> woken is None
                && final(self).wait_queue@ == old(self).wait_queue@,
            old(self).wait_queue@.len() > 0 ==> {
                &&& woken == Some(old(self).wait_queue@[0])
                &&& final(self).wait_queue@ == old(self).wait_queue@.drop_first()
            },
    {
        let woken = self.wait_queue.pop_front();
        proof {
            if old(self).wait_queue@.len() > 0 {
                assert(final(self).wait_queue@ =~= old(self).wait_queue@.drop_first());
            }
        }
        woken
    }
}

/// FIFO fairness of the wait queues: waiters enqueued in order are
/// released in exactly that order.  Every wake event (`Mutex::unlock`,
/// `Semaphore::up`, `Condvar::signal`) releases the queue's front and
/// leaves `drop_first()` behind, and no other operation removes a waiter;
/// so starting from waiters `w`, the queue after `j` wake events is
/// `w.skip(j)`, and the wake after those releases `w[j]` — the waiters
/// leave in exactly their arrival order.
pub proof fn lemma_fifo_wake_order(w: Seq<usize>, j: int)
    requires
        0 <= j < w.len(),
    ensures
        w.skip(0) == w,
        w.skip(j)[0] == w[j],
        w.skip(j).drop_first() == w.skip(j + 1),
{
    assert(w.skip(0) =~= w);
    assert(w.skip(j).drop_first() =~= w.skip(j + 1));
}

} // verus!
