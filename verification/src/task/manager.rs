//! The process-wide ready queue and the two selection policies: FIFO
//! (`fetch` pops the head) and stride (`get_smallest_stride_task` removes
//! the first task whose accumulated stride is minimal).

use vstd::prelude::*;
use std::collections::VecDeque;
use crate::ledger::banker::count_true;
use crate::task::TaskControlBlock;

verus! {

/// The strides of the queued tasks, in queue order.
pub open spec fn queued_strides(q: Seq<usize>, tasks: Seq<TaskControlBlock>) -> Seq<u64> {
    q.map_values(|tid: usize| tasks[tid as int].stride)
}

/// Index of the first occurrence of the minimum of a nonempty sequence.
pub open spec fn first_min_index(s: Seq<u64>) -> int
    recommends
        s.len() > 0,
    decreases s.len(),
{
    if s.len() <= 1 {
        0
    } else {
        let m = first_min_index(s.drop_last());
        if s.last() < s[m] {
            s.len() - 1
        } else {
            m
        }
    }
}

/// `first_min_index` points at the minimum, and at its first occurrence.
pub proof fn lemma_first_min_index(s: Seq<u64>)
    requires
        s.len() > 0,
    ensures
        0 <= first_min_index(s) < s.len(),
        forall|j: int| 0 <= j < s.len() ==> s[first_min_index(s)] <= #[trigger] s[j],
        forall|j: int| 0 <= j < first_min_index(s) ==> #[trigger] s[j] > s[first_min_index(s)],
    decreases s.len(),
{
    if s.len() > 1 {
        lemma_first_min_index(s.drop_last());
        assert(forall|j: int| 0 <= j < s.len() - 1 ==> s.drop_last()[j] == s[j]);
    }
}

/// A two-task run under stride selection, `true` marking a dispatch of
/// the first task: each round the dispatched task's accumulated stride is
/// no larger than the other's — ties may go either way, as they do when
/// queue positions alternate — and the dispatched task's stride then
/// grows by its pass.  After `j` rounds the first task has run
/// `count_true(trace.take(j))` times and its stride is that count times
/// `pass1`.
pub open spec fn stride_policy(trace: Seq<bool>, pass1: int, pass2: int) -> bool {
    forall|j: int| 0 <= j < trace.len() ==> {
        let s1 = count_true(trace.take(j)) * pass1;
        let s2 = (j - count_true(trace.take(j))) * pass2;
        &&& ((#[trigger] trace[j]) ==> s1 <= s2)
        &&& (!trace[j] ==> s2 <= s1)
    }
}

/// Stride fairness: in a run of two always-ready tasks under stride
/// selection, the accumulated strides `c1 * pass1` and `c2 * pass2` never
/// drift apart by more than the larger pass.  The dispatch counts of any
/// long run therefore satisfy `c1 * pass1 ≈ c2 * pass2`, so their ratio
/// approaches `pass2 : pass1` — with `pass = BIG_STRIDE / priority`, a
/// task pair with priorities `p1 < p2` is dispatched in a ratio
/// approaching `p1 : p2`, i.e. the higher-priority task runs `p2 : p1`
/// relative to its peer.  Both passes must be at least one: a priority
/// above `BIG_STRIDE` has an integer pass of zero, and a task whose
/// stride never advances would be selected forever.
pub proof fn lemma_stride_fairness(trace: Seq<bool>, pass1: int, pass2: int, k: int)
    requires
        pass1 >= 1,
        pass2 >= 1,
        0 <= k <= trace.len(),
        stride_policy(trace, pass1, pass2),
    ensures
        ({
            let c1 = count_true(trace.take(k)) as int;
            let c2 = k - c1;
            let gap = if c1 * pass1 >= c2 * pass2 {
                c1 * pass1 - c2 * pass2
            } else {
                c2 * pass2 - c1 * pass1
            };
            gap <= if pass1 >= pass2 {
                pass1
            } else {
                pass2
            }
        }),
    decreases k,
{
    if k == 0 {
        assert(trace.take(0).len() == 0);
        assert(count_true(trace.take(0)) == 0);
        assert(0 * pass1 == 0) by (nonlinear_arith);
        assert(0 * pass2 == 0) by (nonlinear_arith);
    } else {
        lemma_stride_fairness(trace, pass1, pass2, k - 1);
        let c1p = count_true(trace.take(k - 1)) as int;
        let c2p = k - 1 - c1p;
        assert(trace.take(k).drop_last() =~= trace.take(k - 1));
        assert(trace.take(k).last() == trace[k - 1]);
        let c1 = count_true(trace.take(k)) as int;
        if trace[k - 1] {
            assert(c1 == c1p + 1);
            assert((c1p + 1) * pass1 == c1p * pass1 + pass1) by (nonlinear_arith);
            assert(c1p * pass1 <= c2p * pass2);
        } else {
            assert(c1 == c1p);
            assert((c2p + 1) * pass2 == c2p * pass2 + pass2) by (nonlinear_arith);
            assert(c2p * pass2 <= c1p * pass1);
        }
    }
}

/// The shared ready queue of runnable tasks, holding task-table indices.
pub struct TaskManager {
    /// Queue in arrival order; the head is the oldest entry.
    pub ready_queue: VecDeque<usize>,
}

impl TaskManager {
    /// An empty ready queue.
    pub fn new() -> (m: TaskManager)
        ensures
            m.ready_queue@ == Seq::<usize>::empty(),
    {
        TaskManager { ready_queue: VecDeque::new() }
    }

    /// Append a runnable task at the tail.
    pub fn add(&mut self, tid: usize)
        ensures
            final(self).ready_queue@ == old(self).ready_queue@.push(tid),
    {
        self.ready_queue.push_back(tid);
    }

    /// FIFO selection: remove and return the head, if any.
    pub fn fetch(&mut self) -> (t: Option<usize>)
        ensures
            old(self).ready_queue@.len() == 0 ==> t is None
                && final(self).ready_queue@ == old(self).ready_queue@,
            old(self).ready_queue@.len() > 0 ==> {
                &&& t == Some(old(self).ready_queue@[0])
                &&& final(self).ready_queue@ == old(self).ready_queue@.drop_first()
            },
    {
        let r = self.ready_queue.pop_front();
        proof {
            if old(self).ready_queue@.len() > 0 {
                assert(final(self).ready_queue@ =~= old(self).ready_queue@.drop_first());
            }
        }
        r
    }

    /// Stride selection: remove and return the first queued task whose
    /// accumulated stride is minimal among all queued tasks.
    pub fn get_smallest_stride_task(&mut self, tasks: &Vec<TaskControlBlock>) -> (t: Option<usize>)
        requires
            old(self).ready_queue@.len() > 0,
            forall|i: int| 0 <= i < old(self).ready_queue@.len()
                ==> #[trigger] old(self).ready_queue@[i] < tasks@.len(),
        ensures
            ({
                let q = old(self).ready_queue@;
                let m = first_min_index(queued_strides(q, tasks@));
                &&& t == Some(q[m])
                &&& final(self).ready_queue@ == q.remove(m)
            }),
    {
        let ghost q = self.ready_queue@;
        let ghost strides = queued_strides(q, tasks@);
        let first_task = self.ready_queue[0];
        let mut min_stride: u64 = tasks[first_task].stride;
        let mut id: usize = 0;
        let mut count: usize = 1;
        while count < self.ready_queue.len()
            invariant
                self.ready_queue@ == q,
                strides == queued_strides(q, tasks@),
                1 <= count <= q.len(),
                forall|i: int| 0 <= i < q.len() ==> #[trigger] q[i] < tasks@.len(),
                id < count,
                id == first_min_index(strides.take(count as int)),
                min_stride == strides[id as int],
            decreases q.len() - count,
        {
            let tid = self.ready_queue[count];
            proof {
                assert(strides.take(count as int + 1).drop_last() =~= strides.take(count as int));
                assert(strides.take(count as int + 1).last() == strides[count as int]);
                assert(strides[count as int] == tasks@[q[count as int] as int].stride);
            }
            if tasks[tid].stride < min_stride {
                min_stride = tasks[tid].stride;
                id = count;
            }
            count = count + 1;
        }
        proof {
            assert(strides.take(q.len() as int) =~= strides);
        }
        let r = self.ready_queue.remove(id);
        r
    }
}

} // verus!
