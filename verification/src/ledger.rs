//! The per-process resource ledger: availability, allocation and need
//! matrices over the tracked resource columns, the relation table mapping a
//! `(kind, resource id)` pair to its column, and the Banker's-algorithm
//! safety check run on the acquisition path when deadlock detection is on.
//!
//! Columns are appended as resources are created; a thread's matrix rows
//! are created lazily, on its first ledger interaction.  The conservation
//! invariant — for every column, available plus the column's allocations
//! equals the instances the column was created with — holds in every
//! reachable state and is carried by every operation's contract.

pub mod banker;

use vstd::prelude::*;
use crate::ledger::banker::{
    add_row, bankers_safe, eligible, first_eligible_from, greedy_safe, matrix_nonneg, matrix_wf,
    matrix_zero, pad_rows, row_le, row_nonneg, zero_row, count_false, count_true,
    covers_unfinished, order_finishes, lemma_count_update, lemma_count_true_le,
    lemma_count_true_zero, lemma_first_eligible_from, lemma_first_eligible_skip,
    lemma_greedy_gives_order, lemma_zero_need_safe,
};

verus! {

/// Upper bound on the number of matrix rows (threads) the ledger tracks;
/// keeps the executable check's work vector within `i128`.
pub const MAX_LEDGER_THREADS: usize = 0x1000_0000;

/// The two kinds of tracked resources.
#[derive(Clone, Copy, Debug, PartialEq, Eq, Structural)]
pub enum ResourceKind {
    /// A mutual-exclusion lock; always a single instance.
    Lock,
    /// A counting semaphore; as many instances as its initial count.
    Semaphore,
}

/// Sum of column `c` over all rows.
pub open spec fn col_sum(rows: Seq<Vec<isize>>, c: int) -> int
    decreases rows.len(),
{
    if rows.len() == 0 {
        0
    } else {
        col_sum(rows.drop_last(), c) + rows.last()@[c]
    }
}

/// The deadlock-avoidance ledger of one process.
pub struct ResourceLedger {
    /// Free instances per column; negative when more was granted than was
    /// free — any grant with detection off, or a blocked taker charged
    /// under detection once the check found its holder able to finish.
    pub available: Vec<isize>,
    /// Instances each column was created with.
    pub total: Vec<isize>,
    /// Instances granted, per thread row and column.
    pub allocation: Vec<Vec<isize>>,
    /// Speculative requests under check, per thread row and column; zero
    /// outside of `request` itself.
    pub need: Vec<Vec<isize>>,
    /// Which resource each column tracks; entry `c` describes column `c`.
    pub relation: Vec<(ResourceKind, usize)>,
}

impl ResourceLedger {
    /// Number of resource columns.
    pub open spec fn cols(self) -> int {
        self.available@.len() as int
    }

    /// Number of thread rows created so far.
    pub open spec fn threads(self) -> int {
        self.allocation@.len() as int
    }

    /// Availability vector as unbounded integers.
    pub open spec fn avail_m(self) -> Seq<int> {
        self.available@.map_values(|x: isize| x as int)
    }

    /// Allocation matrix as unbounded integers.
    pub open spec fn alloc_m(self) -> Seq<Seq<int>> {
        self.allocation@.map_values(|r: Vec<isize>| r@.map_values(|x: isize| x as int))
    }

    /// Need matrix as unbounded integers.
    pub open spec fn need_m(self) -> Seq<Seq<int>> {
        self.need@.map_values(|r: Vec<isize>| r@.map_values(|x: isize| x as int))
    }

    /// Allocation of thread `t` in column `c`, zero if the row was never
    /// created.
    pub open spec fn alloc_at(self, t: int, c: int) -> int {
        if 0 <= t < self.threads() {
            self.allocation@[t]@[c] as int
        } else {
            0
        }
    }

    /// Availability of column `c`.
    pub open spec fn avail_at(self, c: int) -> int {
        self.available@[c] as int
    }

    /// Dimensions agree and relation entries are distinct: the matrices are
    /// rectangular with one relation entry and one total per column.
    pub open spec fn wf(self) -> bool {
        &&& self.total@.len() == self.cols()
        &&& self.relation@.len() == self.cols()
        &&& self.need@.len() == self.allocation@.len()
        &&& forall|t: int| 0 <= t < self.threads()
            ==> (#[trigger] self.allocation@[t])@.len() == self.cols()
        &&& forall|t: int| 0 <= t < self.threads()
            ==> (#[trigger] self.need@[t])@.len() == self.cols()
        &&& self.threads() <= MAX_LEDGER_THREADS
        &&& forall|i: int, j: int| 0 <= i < j < self.cols()
            ==> self.relation@[i] != self.relation@[j]
    }

    /// Ledger conservation: in every column, available plus the column's
    /// allocations equals the instances the column was created with.
    pub open spec fn conserves(self) -> bool {
        forall|c: int| 0 <= c < self.cols()
            ==> self.available@[c] + col_sum(self.allocation@, c) == #[trigger] self.total@[c]
    }

    /// No speculative need is pending anywhere.
    pub open spec fn no_pending(self) -> bool {
        forall|t: int, c: int|
            0 <= t < self.threads() && 0 <= c < self.cols()
                ==> (#[trigger] self.need@[t]@[c]) == 0
    }

    /// Some column tracks `(kind, rid)`.
    pub open spec fn has_column(self, kind: ResourceKind, rid: usize) -> bool {
        exists|c: int| 0 <= c < self.cols() && self.relation@[c] == (kind, rid)
    }

    /// The column tracking `(kind, rid)`.
    pub open spec fn spec_col(self, kind: ResourceKind, rid: usize) -> int {
        choose|c: int| 0 <= c < self.cols() && self.relation@[c] == (kind, rid)
    }

    /// An empty ledger: no columns, no thread rows.
    pub fn new() -> (l: ResourceLedger)
        ensures
            l.wf(),
            l.conserves(),
            l.no_pending(),
            l.cols() == 0,
            l.threads() == 0,
            l.relation@ == Seq::<(ResourceKind, usize)>::empty(),
    {
        ResourceLedger {
            available: Vec::new(),
            total: Vec::new(),
            allocation: Vec::new(),
            need: Vec::new(),
            relation: Vec::new(),
        }
    }

    /// The column tracking `(kind, rid)`, if any.
    pub fn find_column(&self, kind: ResourceKind, rid: usize) -> (r: Option<usize>)
        requires
            self.wf(),
        ensures
            match r {
                Some(c) => c < self.cols() && self.relation@[c as int] == (kind, rid)
                    && c == self.spec_col(kind, rid),
                None => !self.has_column(kind, rid),
            },
    {
        let mut c: usize = 0;
        while c < self.relation.len()
            invariant
                self.wf(),
                c <= self.cols(),
                forall|j: int| 0 <= j < c ==> self.relation@[j] != (kind, rid),
            decreases self.cols() - c,
        {
            let (k, r) = self.relation[c];
            if k == kind && r == rid {
                proof {
                    assert(self.relation@[c as int] == (kind, rid));
                    let w = self.spec_col(kind, rid);
                    if w != c {
                        assert(self.relation@[w] == (kind, rid));
                        assert(false);
                    }
                }
                return Some(c);
            }
            c = c + 1;
        }
        None
    }
}

/// Write one matrix cell.
fn set_cell(m: &mut Vec<Vec<isize>>, t: usize, c: usize, v: isize)
    requires
        t < old(m)@.len(),
        c < old(m)@[t as int]@.len(),
    ensures
        final(m)@.len() == old(m)@.len(),
        final(m)@[t as int]@ == old(m)@[t as int]@.update(c as int, v),
        forall|i: int| 0 <= i < old(m)@.len() && i != t
            ==> final(m)@[i] == #[trigger] old(m)@[i],
{
    let row = &mut m[t];
    row.set(c, v);
}

impl ResourceLedger {
    /// `post` is `pre` with one instance of `(kind, rid)` granted to thread
    /// `tid`: that column's availability down one, that thread's allocation
    /// up one, rows extended to reach `tid` if needed, all else unchanged.
    pub open spec fn granted(
        pre: Self,
        post: Self,
        kind: ResourceKind,
        rid: usize,
        tid: int,
    ) -> bool {
        let c = pre.spec_col(kind, rid);
        let n = pre.padded_threads(tid);
        let a0 = pad_rows(pre.alloc_m(), n, pre.cols());
        &&& post.relation@ == pre.relation@
        &&& post.total@ == pre.total@
        &&& post.threads() == n
        &&& post.avail_m() == pre.avail_m().update(c, pre.avail_m()[c] - 1)
        &&& post.alloc_m() == a0.update(tid, a0[tid].update(c, a0[tid][c] + 1))
    }

    /// `post` is `pre` with one instance of `(kind, rid)` given back by
    /// thread `tid`: availability up one, that thread's allocation down one.
    pub open spec fn released(
        pre: Self,
        post: Self,
        kind: ResourceKind,
        rid: usize,
        tid: int,
    ) -> bool {
        let c = pre.spec_col(kind, rid);
        let n = pre.padded_threads(tid);
        let a0 = pad_rows(pre.alloc_m(), n, pre.cols());
        &&& post.relation@ == pre.relation@
        &&& post.total@ == pre.total@
        &&& post.threads() == n
        &&& post.avail_m() == pre.avail_m().update(c, pre.avail_m()[c] + 1)
        &&& post.alloc_m() == a0.update(tid, a0[tid].update(c, a0[tid][c] - 1))
    }

    /// Row count after extending the matrices to reach row `tid`.
    pub open spec fn padded_threads(self, tid: int) -> int {
        if self.threads() >= tid + 1 {
            self.threads()
        } else {
            tid + 1
        }
    }

    /// Create the zero rows of every thread up to `tid` that has none yet.
    fn ensure_rows(&mut self, tid: usize)
        requires
            old(self).wf(),
            old(self).conserves(),
            old(self).no_pending(),
            tid < MAX_LEDGER_THREADS,
        ensures
            final(self).wf(),
            final(self).conserves(),
            final(self).no_pending(),
            final(self).available@ == old(self).available@,
            final(self).total@ == old(self).total@,
            final(self).relation@ == old(self).relation@,
            final(self).threads() == old(self).padded_threads(tid as int),
            tid < final(self).threads(),
            forall|t: int| 0 <= t < old(self).threads()
                ==> final(self).allocation@[t] == #[trigger] old(self).allocation@[t],
            forall|t: int| 0 <= t < old(self).threads()
                ==> final(self).need@[t] == #[trigger] old(self).need@[t],
            forall|t: int, c: int|
                old(self).threads() <= t < final(self).threads() && 0 <= c < old(self).cols()
                    ==> (#[trigger] final(self).allocation@[t]@[c]) == 0,
            final(self).alloc_m() == pad_rows(old(self).alloc_m(),
                old(self).padded_threads(tid as int), old(self).cols()),
            final(self).need_m() == pad_rows(old(self).need_m(),
                old(self).padded_threads(tid as int), old(self).cols()),
    {
        let w = self.available.len();
        while self.allocation.len() <= tid
            invariant
                self.wf(),
                self.conserves(),
                self.no_pending(),
                w == self.cols(),
                tid < MAX_LEDGER_THREADS,
                self.available@ == old(self).available@,
                self.total@ == old(self).total@,
                self.relation@ == old(self).relation@,
                old(self).threads() <= self.threads() <= old(self).padded_threads(tid as int),
                forall|t: int| 0 <= t < old(self).threads()
                    ==> self.allocation@[t] == #[trigger] old(self).allocation@[t],
                forall|t: int| 0 <= t < old(self).threads()
                    ==> self.need@[t] == #[trigger] old(self).need@[t],
                forall|t: int, c: int|
                    old(self).threads() <= t < self.threads() && 0 <= c < w
                        ==> (#[trigger] self.allocation@[t]@[c]) == 0,
                forall|t: int, c: int|
                    old(self).threads() <= t < self.threads() && 0 <= c < w
                        ==> (#[trigger] self.need@[t]@[c]) == 0,
            decreases MAX_LEDGER_THREADS - self.threads(),
        {
            let zrow: Vec<isize> = vec![0isize; w];
            let zrow2: Vec<isize> = vec![0isize; w];
            let ghost rows0 = self.allocation@;
            self.allocation.push(zrow);
            self.need.push(zrow2);
            proof {
                assert forall|c: int| 0 <= c < self.cols()
                    implies self.available@[c] + col_sum(self.allocation@, c)
                        == #[trigger] self.total@[c] by {
                    lemma_col_sum_push(rows0, self.allocation@.last(), c);
                }
            }
        }
        proof {
            let n = old(self).padded_threads(tid as int);
            assert(self.threads() == n);
            assert(self.alloc_m() =~~= pad_rows(old(self).alloc_m(), n, old(self).cols()));
            assert(self.need_m() =~~= pad_rows(old(self).need_m(), n, old(self).cols()));
        }
    }

    /// Append the column of a newly created resource: its availability is
    /// seeded with its instance count, and every thread row is zero-extended.
    pub fn add_resource(&mut self, kind: ResourceKind, rid: usize, count: isize) -> (c: usize)
        requires
            old(self).wf(),
            old(self).conserves(),
            old(self).no_pending(),
            !old(self).has_column(kind, rid),
            count >= 0,
            old(self).cols() < usize::MAX,
        ensures
            final(self).wf(),
            final(self).conserves(),
            final(self).no_pending(),
            c == old(self).cols(),
            final(self).relation@ == old(self).relation@.push((kind, rid)),
            final(self).available@ == old(self).available@.push(count),
            final(self).total@ == old(self).total@.push(count),
            final(self).threads() == old(self).threads(),
            forall|t: int| 0 <= t < old(self).threads()
                ==> final(self).allocation@[t]@
                    == (#[trigger] old(self).allocation@[t])@.push(0),
            forall|t: int| 0 <= t < old(self).threads()
                ==> final(self).need@[t]@ == (#[trigger] old(self).need@[t])@.push(0),
            final(self).has_column(kind, rid),
            final(self).spec_col(kind, rid) == c,
    {
        let c = self.available.len();
        self.available.push(count);
        self.total.push(count);
        self.relation.push((kind, rid));
        let n = self.allocation.len();
        let mut t: usize = 0;
        while t < n
            invariant
                n == self.threads(),
                n == old(self).threads(),
                self.need@.len() == n,
                t <= n,
                c == old(self).cols(),
                self.available@ == old(self).available@.push(count),
                self.total@ == old(self).total@.push(count),
                self.relation@ == old(self).relation@.push((kind, rid)),
                forall|i: int| 0 <= i < t
                    ==> (#[trigger] self.allocation@[i])@ == old(self).allocation@[i]@.push(0),
                forall|i: int| 0 <= i < t
                    ==> (#[trigger] self.need@[i])@ == old(self).need@[i]@.push(0),
                forall|i: int| t <= i < n
                    ==> #[trigger] self.allocation@[i] == old(self).allocation@[i],
                forall|i: int| t <= i < n
                    ==> #[trigger] self.need@[i] == old(self).need@[i],
            decreases n - t,
        {
            let row = &mut self.allocation[t];
            row.push(0);
            let row2 = &mut self.need[t];
            row2.push(0);
            t = t + 1;
        }
        proof {
            let pre = *old(self);
            let post = *self;
            let w = pre.cols();
            // Dimensions: every row gained exactly the new column.
            assert forall|i: int| 0 <= i < post.threads()
                implies (#[trigger] post.allocation@[i])@.len() == post.cols() by {
                assert(post.allocation@[i]@ == pre.allocation@[i]@.push(0));
            }
            assert forall|i: int| 0 <= i < post.threads()
                implies (#[trigger] post.need@[i])@.len() == post.cols() by {
                assert(post.need@[i]@ == pre.need@[i]@.push(0));
            }
            // The new relation entry differs from every old one.
            assert forall|i: int, j: int| 0 <= i < j < post.cols()
                implies post.relation@[i] != post.relation@[j] by {
                if j == w {
                    assert(post.relation@[i] == pre.relation@[i]);
                    if pre.relation@[i] == (kind, rid) {
                        assert(pre.has_column(kind, rid));
                    }
                }
            }
            // Conservation in the old columns: sums unchanged entry by entry.
            assert forall|c0: int| 0 <= c0 < post.cols()
                implies post.available@[c0] + col_sum(post.allocation@, c0)
                    == #[trigger] post.total@[c0] by {
                if c0 < w {
                    assert forall|i: int| 0 <= i < n
                        implies pre.allocation@[i]@[c0]
                            == #[trigger] post.allocation@[i]@[c0] by {
                        assert(post.allocation@[i]@ == pre.allocation@[i]@.push(0));
                    }
                    lemma_col_sum_congruence(pre.allocation@, post.allocation@, c0);
                } else {
                    assert forall|i: int| 0 <= i < post.allocation@.len()
                        implies (#[trigger] post.allocation@[i])@[c0] == 0 by {
                        assert(post.allocation@[i]@ == pre.allocation@[i]@.push(0));
                    }
                    lemma_col_sum_zero(post.allocation@, c0);
                }
            }
            // The fresh need entries are zero as well.
            assert forall|i: int, c0: int|
                0 <= i < post.threads() && 0 <= c0 < post.cols()
                implies (#[trigger] post.need@[i]@[c0]) == 0 by {
                assert(post.need@[i]@ == pre.need@[i]@.push(0));
            }
            // The new column is the unique one for `(kind, rid)`.
            assert(post.relation@[w] == (kind, rid));
            let picked = post.spec_col(kind, rid);
            if picked != w {
                assert(post.relation@[picked] == pre.relation@[picked]);
                assert(pre.has_column(kind, rid));
            }
        }
        c
    }
}

impl ResourceLedger {
    /// Book one granted instance: `allocation[tid][col] += 1`,
    /// `available[col] -= 1`.  Runs without any safety check; the caller
    /// accepts the risk of deadlock (detection off), or has just run the
    /// check through `request`.
    pub fn grant(&mut self, kind: ResourceKind, rid: usize, tid: usize)
        requires
            old(self).wf(),
            old(self).conserves(),
            old(self).no_pending(),
            old(self).has_column(kind, rid),
            tid < MAX_LEDGER_THREADS,
            old(self).avail_at(old(self).spec_col(kind, rid)) > isize::MIN,
            old(self).alloc_at(tid as int, old(self).spec_col(kind, rid)) < isize::MAX,
        ensures
            final(self).wf(),
            final(self).conserves(),
            final(self).no_pending(),
            ResourceLedger::granted(*old(self), *final(self), kind, rid, tid as int),
    {
        let col = match self.find_column(kind, rid) {
            Some(c) => c,
            None => {
                proof {
                    assert(false);
                }
                0
            },
        };
        self.ensure_rows(tid);
        let ghost mid = *self;
        let a = self.allocation[tid][col];
        set_cell(&mut self.allocation, tid, col, a + 1);
        let av = self.available[col];
        self.available.set(col, av - 1);
        proof {
            let pre = *old(self);
            let post = *self;
            let c = col as int;
            let t = tid as int;
            let n = pre.padded_threads(t);
            // Conservation: the updated row raises column `c`'s sum by one,
            // matching the lowered availability.
            assert(post.allocation@ =~= mid.allocation@.update(t, post.allocation@[t]));
            assert forall|c0: int| 0 <= c0 < post.cols()
                implies post.available@[c0] + col_sum(post.allocation@, c0)
                    == #[trigger] post.total@[c0] by {
                lemma_col_sum_update(mid.allocation@, t, post.allocation@[t], c0);
            }
            // The transition in model terms.
            let a0 = pad_rows(pre.alloc_m(), n, pre.cols());
            assert(mid.alloc_m() == a0);
            assert(post.avail_m() =~= pre.avail_m().update(c, pre.avail_m()[c] - 1));
            assert(post.alloc_m() =~~= a0.update(t, a0[t].update(c, a0[t][c] + 1)));
        }
    }

    /// Book one released instance: `allocation[tid][col] -= 1`,
    /// `available[col] += 1`.  Pairs one-to-one with a prior successful
    /// `request` or `grant`; the caller checks that pairing.
    pub fn release(&mut self, kind: ResourceKind, rid: usize, tid: usize)
        requires
            old(self).wf(),
            old(self).conserves(),
            old(self).no_pending(),
            old(self).has_column(kind, rid),
            tid < MAX_LEDGER_THREADS,
            old(self).avail_at(old(self).spec_col(kind, rid)) < isize::MAX,
            old(self).alloc_at(tid as int, old(self).spec_col(kind, rid)) > isize::MIN,
        ensures
            final(self).wf(),
            final(self).conserves(),
            final(self).no_pending(),
            ResourceLedger::released(*old(self), *final(self), kind, rid, tid as int),
    {
        let col = match self.find_column(kind, rid) {
            Some(c) => c,
            None => {
                proof {
                    assert(false);
                }
                0
            },
        };
        self.ensure_rows(tid);
        let ghost mid = *self;
        let a = self.allocation[tid][col];
        set_cell(&mut self.allocation, tid, col, a - 1);
        let av = self.available[col];
        self.available.set(col, av + 1);
        proof {
            let pre = *old(self);
            let post = *self;
            let c = col as int;
            let t = tid as int;
            let n = pre.padded_threads(t);
            assert(post.allocation@ =~= mid.allocation@.update(t, post.allocation@[t]));
            assert forall|c0: int| 0 <= c0 < post.cols()
                implies post.available@[c0] + col_sum(post.allocation@, c0)
                    == #[trigger] post.total@[c0] by {
                lemma_col_sum_update(mid.allocation@, t, post.allocation@[t], c0);
            }
            let a0 = pad_rows(pre.alloc_m(), n, pre.cols());
            assert(mid.alloc_m() == a0);
            assert(post.avail_m() =~= pre.avail_m().update(c, pre.avail_m()[c] + 1));
            assert(post.alloc_m() =~~= a0.update(t, a0[t].update(c, a0[t][c] - 1)));
        }
    }
}

/// A work vector's entries as unbounded integers.
pub open spec fn work_view(w: Seq<i128>) -> Seq<int> {
    w.map_values(|x: i128| x as int)
}

/// A matrix of machine integers as unbounded integers.
pub open spec fn mat_view(m: Seq<Vec<isize>>) -> Seq<Seq<int>> {
    m.map_values(|r: Vec<isize>| r@.map_values(|x: isize| x as int))
}

/// Magnitude bound on a work entry after `k` allocation rows were
/// reclaimed: the initial entry and each row entry fit in `isize`.
pub open spec fn work_bound(k: int) -> int {
    (1 + k) * 0x8000_0000_0000_0000
}

/// Does `need_row` fit componentwise under `work`?
fn row_fits(need_row: &Vec<isize>, work: &Vec<i128>) -> (r: bool)
    requires
        need_row@.len() == work@.len(),
    ensures
        r == row_le(need_row@.map_values(|x: isize| x as int), work_view(work@)),
{
    let ghost nr = need_row@.map_values(|x: isize| x as int);
    let ghost wv = work_view(work@);
    let mut i: usize = 0;
    while i < need_row.len()
        invariant
            need_row@.len() == work@.len(),
            nr == need_row@.map_values(|x: isize| x as int),
            wv == work_view(work@),
            i <= need_row@.len(),
            forall|j: int| 0 <= j < i ==> #[trigger] nr[j] <= wv[j],
        decreases need_row@.len() - i,
    {
        if (need_row[i] as i128) > work[i] {
            proof {
                assert(!(nr[i as int] <= wv[i as int]));
            }
            return false;
        }
        i = i + 1;
    }
    true
}

/// The least unfinished thread whose need row fits under `work`, if any.
fn find_first_eligible(need: &Vec<Vec<isize>>, work: &Vec<i128>, finish: &Vec<bool>) -> (r: Option<
    usize,
>)
    requires
        need@.len() == finish@.len(),
        forall|t: int| 0 <= t < need@.len() ==> (#[trigger] need@[t])@.len() == work@.len(),
    ensures
        ({
            let fe = first_eligible_from(mat_view(need@), work_view(work@), finish@, 0);
            match r {
                Some(t) => fe == Some(t as int) && t < finish@.len(),
                None => fe is None,
            }
        }),
{
    let ghost nm = mat_view(need@);
    let ghost wv = work_view(work@);
    let n = finish.len();
    let mut t: usize = 0;
    while t < n
        invariant
            need@.len() == finish@.len(),
            forall|j: int| 0 <= j < need@.len() ==> (#[trigger] need@[j])@.len() == work@.len(),
            nm == mat_view(need@),
            wv == work_view(work@),
            n == finish@.len(),
            t <= n,
            forall|j: int| 0 <= j < t ==> !eligible(nm, wv, finish@, j),
        decreases n - t,
    {
        let is_unfinished = !finish[t];
        if is_unfinished {
            let fits = row_fits(&need[t], work);
            if fits {
                proof {
                    assert(nm[t as int] == need@[t as int]@.map_values(|x: isize| x as int));
                    assert(eligible(nm, wv, finish@, t as int));
                    lemma_first_eligible_skip(nm, wv, finish@, t as int);
                }
                return Some(t);
            }
            proof {
                assert(nm[t as int] == need@[t as int]@.map_values(|x: isize| x as int));
                assert(!eligible(nm, wv, finish@, t as int));
            }
        }
        t = t + 1;
    }
    proof {
        lemma_first_eligible_skip(nm, wv, finish@, n as int);
    }
    None
}

impl ResourceLedger {
    /// The verdict of the Banker's check run for thread `tid` speculatively
    /// requesting one instance of `(kind, rid)`.
    pub open spec fn check_verdict(pre: Self, kind: ResourceKind, rid: usize, tid: int) -> bool {
        let c = pre.spec_col(kind, rid);
        let n = pre.padded_threads(tid);
        let w = pre.cols();
        let n0 = pad_rows(pre.need_m(), n, w);
        let n1 = n0.update(tid, n0[tid].update(c, 1));
        bankers_safe(pre.avail_m(), pad_rows(pre.alloc_m(), n, w), n1)
    }

    /// Run the Banker's algorithm on the current matrices: repeatedly
    /// finish the first thread whose need fits under the work vector and
    /// reclaim its allocation row; report whether every thread finished.
    fn banker_check(&self) -> (r: bool)
        requires
            self.wf(),
        ensures
            r == bankers_safe(self.avail_m(), self.alloc_m(), self.need_m()),
    {
        let ghost avail_g = self.avail_m();
        let ghost alloc_g = self.alloc_m();
        let ghost need_g = self.need_m();
        let n = self.allocation.len();
        let w = self.available.len();

        let mut work: Vec<i128> = Vec::new();
        let mut c: usize = 0;
        while c < w
            invariant
                self.wf(),
                w == self.cols(),
                c <= w,
                work@.len() == c,
                forall|j: int| 0 <= j < c ==> #[trigger] work@[j] == self.available@[j] as i128,
            decreases w - c,
        {
            work.push(self.available[c] as i128);
            c = c + 1;
        }

        let mut finish: Vec<bool> = Vec::new();
        let mut i: usize = 0;
        while i < n
            invariant
                i <= n,
                finish@.len() == i,
                forall|j: int| 0 <= j < i ==> !(#[trigger] finish@[j]),
            decreases n - i,
        {
            finish.push(false);
            i = i + 1;
        }

        proof {
            assert(work_view(work@) =~= avail_g);
            assert(finish@ =~= Seq::new(alloc_g.len(), |j: int| false));
            lemma_count_true_zero(finish@);
            assert forall|j: int| 0 <= j < w
                implies -work_bound(count_true(finish@) as int) <= #[trigger] work_view(work@)[j]
                    <= work_bound(count_true(finish@) as int) by {
                assert(work_view(work@)[j] == self.available@[j] as int);
            }
        }

        loop
            invariant
                self.wf(),
                n == self.threads(),
                w == self.cols(),
                avail_g == self.avail_m(),
                alloc_g == self.alloc_m(),
                need_g == self.need_m(),
                work@.len() == w,
                finish@.len() == n,
                count_true(finish@) <= n,
                greedy_safe(alloc_g, need_g, work_view(work@), finish@) == bankers_safe(
                    avail_g,
                    alloc_g,
                    need_g,
                ),
                forall|j: int| 0 <= j < w
                    ==> -work_bound(count_true(finish@) as int) <= #[trigger] work_view(work@)[j]
                        <= work_bound(count_true(finish@) as int),
            ensures
                finish@.len() == n,
                greedy_safe(alloc_g, need_g, work_view(work@), finish@) == bankers_safe(
                    avail_g,
                    alloc_g,
                    need_g,
                ),
                first_eligible_from(need_g, work_view(work@), finish@, 0) is None,
            decreases count_false(finish@),
        {
            proof {
                assert(mat_view(self.need@) =~~= need_g);
            }
            let found = find_first_eligible(&self.need, &work, &finish);
            match found {
                None => {
                    break;
                },
                Some(t) => {
                    let ghost work0 = work@;
                    let ghost finish0 = finish@;
                    let ghost k = count_true(finish0) as int;
                    proof {
                        lemma_first_eligible_from(need_g, work_view(work0), finish0, 0);
                        lemma_count_update(finish0, t as int);
                        lemma_count_true_le(finish0.update(t as int, true));
                        assert(k + 1 <= n);
                        assert(alloc_g[t as int] == self.allocation@[t as int]@.map_values(
                            |x: isize| x as int,
                        ));
                    }
                    let row = &self.allocation[t];
                    let mut c2: usize = 0;
                    proof {
                        assert forall|j: int| 0 <= j < w
                            implies -work_bound(k) <= #[trigger] work0[j] as int <= work_bound(k) by {
                            assert(work_view(work0)[j] == work0[j] as int);
                        }
                    }
                    while c2 < w
                        invariant
                            row@.len() == w,
                            work@.len() == w,
                            work0.len() == w,
                            c2 <= w,
                            k + 1 <= n <= MAX_LEDGER_THREADS,
                            forall|j: int| 0 <= j < c2
                                ==> #[trigger] work@[j] as int == work0[j] as int + row@[j] as int,
                            forall|j: int| c2 <= j < w ==> #[trigger] work@[j] == work0[j],
                            forall|j: int| 0 <= j < w
                                ==> -work_bound(k) <= #[trigger] work0[j] as int <= work_bound(k),
                        decreases w - c2,
                    {
                        proof {
                            assert(work_bound(k) + 0x8000_0000_0000_0000 == work_bound(k + 1));
                            assert(work_bound(k + 1) <= work_bound(MAX_LEDGER_THREADS as int));
                            assert(-work_bound(MAX_LEDGER_THREADS as int) > i128::MIN
                                && work_bound(MAX_LEDGER_THREADS as int) < i128::MAX);
                        }
                        let v = work[c2] + (row[c2] as i128);
                        work.set(c2, v);
                        c2 = c2 + 1;
                    }
                    finish.set(t, true);
                    proof {
                        assert(work_view(work@) =~= add_row(work_view(work0), alloc_g[t as int]));
                        assert(finish@ == finish0.update(t as int, true));
                        assert(greedy_safe(alloc_g, need_g, work_view(work0), finish0)
                            == greedy_safe(alloc_g, need_g, work_view(work@), finish@));
                        assert forall|j: int| 0 <= j < w
                            implies -work_bound(count_true(finish@) as int) <= #[trigger] work_view(
                            work@,
                        )[j] <= work_bound(count_true(finish@) as int) by {
                            assert(work_view(work@)[j] == work0[j] as int + alloc_g[t as int][j]);
                            assert(-0x8000_0000_0000_0000 <= alloc_g[t as int][j]
                                <= 0x8000_0000_0000_0000);
                            assert(work_bound(k) + 0x8000_0000_0000_0000 == work_bound(k + 1));
                        }
                    }
                },
            }
        }

        let mut all = true;
        let mut t2: usize = 0;
        while t2 < n
            invariant
                finish@.len() == n,
                t2 <= n,
                all <==> (forall|j: int| 0 <= j < t2 ==> #[trigger] finish@[j]),
            decreases n - t2,
        {
            if !finish[t2] {
                all = false;
            }
            t2 = t2 + 1;
        }
        all
    }

    /// Thread `tid` requests one instance of `(kind, rid)`: set the
    /// speculative need, run the Banker's check, and on a safe verdict
    /// commit the grant; otherwise roll the speculative need back and
    /// refuse, leaving the ledger as it stood (up to freshly created,
    /// all-zero thread rows).
    pub fn request(&mut self, kind: ResourceKind, rid: usize, tid: usize) -> (r: bool)
        requires
            old(self).wf(),
            old(self).conserves(),
            old(self).no_pending(),
            old(self).has_column(kind, rid),
            tid < MAX_LEDGER_THREADS,
            old(self).avail_at(old(self).spec_col(kind, rid)) > isize::MIN,
            old(self).alloc_at(tid as int, old(self).spec_col(kind, rid)) < isize::MAX,
        ensures
            final(self).wf(),
            final(self).conserves(),
            final(self).no_pending(),
            r == ResourceLedger::check_verdict(*old(self), kind, rid, tid as int),
            r ==> ResourceLedger::granted(*old(self), *final(self), kind, rid, tid as int),
            !r ==> {
                let n = old(self).padded_threads(tid as int);
                &&& final(self).relation@ == old(self).relation@
                &&& final(self).total@ == old(self).total@
                &&& final(self).threads() == n
                &&& final(self).avail_m() == old(self).avail_m()
                &&& final(self).alloc_m() == pad_rows(old(self).alloc_m(), n, old(self).cols())
            },
    {
        let col = match self.find_column(kind, rid) {
            Some(c) => c,
            None => {
                proof {
                    assert(false);
                }
                0
            },
        };
        self.ensure_rows(tid);
        let ghost mid0 = *self;
        set_cell(&mut self.need, tid, col, 1);
        let ghost mid1 = *self;
        proof {
            let pre = *old(self);
            let c = col as int;
            let t = tid as int;
            let n = pre.padded_threads(t);
            let w = pre.cols();
            let n0 = pad_rows(pre.need_m(), n, w);
            assert(mid1.need@ =~= mid0.need@.update(t, mid1.need@[t]));
            assert(mid1.need_m() =~~= n0.update(t, n0[t].update(c, 1)));
            assert(mid1.avail_m() == pre.avail_m());
            assert(mid1.alloc_m() == pad_rows(pre.alloc_m(), n, w));
            assert(mid1.wf());
        }
        let ok = self.banker_check();
        proof {
            assert(ok == ResourceLedger::check_verdict(*old(self), kind, rid, tid as int));
        }
        if ok {
            set_cell(&mut self.need, tid, col, 0);
            let ghost mid2 = *self;
            proof {
                assert forall|t0: int, c0: int|
                    0 <= t0 < mid2.need@.len() && 0 <= c0 < mid2.need@[t0]@.len()
                    implies (#[trigger] mid2.need@[t0]@[c0]) == 0 by {
                    if t0 != tid as int {
                        assert(mid2.need@[t0] == mid0.need@[t0]);
                        assert(mid0.need@[t0]@[c0] == 0);
                    } else {
                        assert(mid2.need@[t0]@ == mid1.need@[t0]@.update(col as int, 0));
                        if c0 != col as int {
                            assert(mid1.need@[t0]@[c0] == mid0.need@[t0]@[c0]);
                            assert(mid0.need@[t0]@[c0] == 0);
                        }
                    }
                }
                assert forall|t0: int| 0 <= t0 < mid2.threads()
                    implies (#[trigger] mid2.need@[t0])@.len() == mid2.cols() by {
                    if t0 != tid as int {
                        assert(mid2.need@[t0] == mid1.need@[t0]);
                    } else {
                        assert(mid2.need@[t0]@ == mid1.need@[t0]@.update(col as int, 0));
                    }
                }
                assert(mid2.wf());
            }
            let a = self.allocation[tid][col];
            set_cell(&mut self.allocation, tid, col, a + 1);
            let av = self.available[col];
            self.available.set(col, av - 1);
            proof {
                let pre = *old(self);
                let post = *self;
                let c = col as int;
                let t = tid as int;
                let n = pre.padded_threads(t);
                assert(post.allocation@ =~= mid0.allocation@.update(t, post.allocation@[t]));
                assert forall|c0: int| 0 <= c0 < post.cols()
                    implies post.available@[c0] + col_sum(post.allocation@, c0)
                        == #[trigger] post.total@[c0] by {
                    lemma_col_sum_update(mid0.allocation@, t, post.allocation@[t], c0);
                }
                let a0 = pad_rows(pre.alloc_m(), n, pre.cols());
                assert(mid0.alloc_m() == a0);
                assert(post.avail_m() =~= pre.avail_m().update(c, pre.avail_m()[c] - 1));
                assert(post.alloc_m() =~~= a0.update(t, a0[t].update(c, a0[t][c] + 1)));
                assert forall|t0: int| 0 <= t0 < post.threads()
                    implies (#[trigger] post.allocation@[t0])@.len() == post.cols()
                        && (#[trigger] post.need@[t0])@.len() == post.cols() by {
                    assert(post.need@[t0] == mid2.need@[t0]);
                    if t0 != t {
                        assert(post.allocation@[t0] == mid2.allocation@[t0]);
                    }
                }
                assert(post.wf());
                assert forall|t0: int, c0: int|
                    0 <= t0 < post.threads() && 0 <= c0 < post.cols()
                    implies (#[trigger] post.need@[t0]@[c0]) == 0 by {
                    assert(post.need@[t0] == mid2.need@[t0]);
                    assert(mid2.need@[t0]@[c0] == 0);
                }
            }
            true
        } else {
            set_cell(&mut self.need, tid, col, 0);
            proof {
                let pre = *old(self);
                let post = *self;
                assert forall|t0: int, c0: int|
                    0 <= t0 < post.need@.len() && 0 <= c0 < post.need@[t0]@.len()
                    implies (#[trigger] post.need@[t0]@[c0]) == 0 by {
                    if t0 != tid as int {
                        assert(post.need@[t0] == mid0.need@[t0]);
                        assert(mid0.need@[t0]@[c0] == 0);
                    } else {
                        assert(post.need@[t0]@ == mid1.need@[t0]@.update(col as int, 0));
                        if c0 != col as int {
                            assert(mid1.need@[t0]@[c0] == mid0.need@[t0]@[c0]);
                            assert(mid0.need@[t0]@[c0] == 0);
                        }
                    }
                }
                assert(post.alloc_m() == pad_rows(pre.alloc_m(),
                    pre.padded_threads(tid as int), pre.cols()));
                assert(post.avail_m() == pre.avail_m());
                assert forall|t0: int| 0 <= t0 < post.threads()
                    implies (#[trigger] post.need@[t0])@.len() == post.cols() by {
                    if t0 != tid as int {
                        assert(post.need@[t0] == mid0.need@[t0]);
                    } else {
                        assert(post.need@[t0]@ == mid1.need@[t0]@.update(col as int, 0));
                    }
                }
                assert(post.wf());
            }
            false
        }
    }
}

impl ResourceLedger {
    /// Zero thread `tid`'s rows for good, returning everything it held to
    /// availability; used when the task is destroyed.
    pub fn clear_thread(&mut self, tid: usize)
        requires
            old(self).wf(),
            old(self).conserves(),
            old(self).no_pending(),
            tid < MAX_LEDGER_THREADS,
            forall|c: int| 0 <= c < old(self).cols()
                ==> isize::MIN <= #[trigger] old(self).avail_at(c) + old(self).alloc_at(
                    tid as int,
                    c,
                ) <= isize::MAX,
        ensures
            final(self).wf(),
            final(self).conserves(),
            final(self).no_pending(),
            final(self).relation@ == old(self).relation@,
            final(self).total@ == old(self).total@,
            final(self).threads() == old(self).padded_threads(tid as int),
            forall|c: int| 0 <= c < old(self).cols()
                ==> final(self).avail_at(c) == old(self).avail_at(c) + old(self).alloc_at(
                    tid as int,
                    c,
                ),
            forall|c: int| 0 <= c < old(self).cols()
                ==> final(self).alloc_at(tid as int, c) == 0,
            forall|t: int, c: int| 0 <= t < final(self).threads() && t != tid && 0 <= c < old(
                self,
            ).cols() ==> final(self).alloc_at(t, c) == old(self).alloc_at(t, c),
    {
        self.ensure_rows(tid);
        let ghost base = *self;
        let w = self.available.len();
        proof {
            assert forall|c0: int| 0 <= c0 < w
                implies isize::MIN <= #[trigger] base.available@[c0] + base.allocation@[tid
                    as int]@[c0] <= isize::MAX by {
                assert(old(self).avail_at(c0) == base.available@[c0]);
                if (tid as int) < old(self).threads() {
                    assert(base.allocation@[tid as int] == old(self).allocation@[tid as int]);
                } else {
                    assert(base.allocation@[tid as int]@[c0] == 0);
                }
            }
        }
        let mut c: usize = 0;
        while c < w
            invariant
                base.wf(),
                base.conserves(),
                base.no_pending(),
                tid < base.threads(),
                w == base.cols(),
                c <= w,
                self.wf(),
                self.conserves(),
                self.need@ == base.need@,
                self.relation@ == base.relation@,
                self.total@ == base.total@,
                self.threads() == base.threads(),
                self.cols() == w,
                forall|c0: int| 0 <= c0 < c
                    ==> #[trigger] self.available@[c0] == base.available@[c0]
                        + base.allocation@[tid as int]@[c0],
                forall|c0: int| c <= c0 < w
                    ==> #[trigger] self.available@[c0] == base.available@[c0],
                forall|c0: int| 0 <= c0 < c
                    ==> #[trigger] self.allocation@[tid as int]@[c0] == 0,
                forall|c0: int| c <= c0 < w
                    ==> #[trigger] self.allocation@[tid as int]@[c0] == base.allocation@[tid
                        as int]@[c0],
                forall|t: int| 0 <= t < base.threads() && t != tid
                    ==> #[trigger] self.allocation@[t] == base.allocation@[t],
                forall|c0: int| 0 <= c0 < w
                    ==> isize::MIN <= #[trigger] base.available@[c0] + base.allocation@[tid
                        as int]@[c0] <= isize::MAX,
            decreases w - c,
        {
            let ghost mid = *self;
            let a = self.allocation[tid][c];
            let av = self.available[c];
            self.available.set(c, av + a);
            set_cell(&mut self.allocation, tid, c, 0);
            proof {
                assert(self.allocation@ =~= mid.allocation@.update(
                    tid as int,
                    self.allocation@[tid as int],
                ));
                assert forall|c0: int| 0 <= c0 < self.cols()
                    implies self.available@[c0] + col_sum(self.allocation@, c0)
                        == #[trigger] self.total@[c0] by {
                    lemma_col_sum_update(mid.allocation@, tid as int, self.allocation@[tid as int],
                        c0);
                }
            }
            c = c + 1;
        }
    }
}

/// The relation table has one entry per column, so an entry pins the
/// column `spec_col` denotes; callers use this to reason about a known
/// handle's column.
pub proof fn lemma_spec_col_unique(l: ResourceLedger, kind: ResourceKind, rid: usize, c: int)
    requires
        l.wf(),
        0 <= c < l.cols(),
        l.relation@[c] == (kind, rid),
    ensures
        l.has_column(kind, rid),
        l.spec_col(kind, rid) == c,
{
    assert(l.has_column(kind, rid));
    let w = l.spec_col(kind, rid);
    assert(l.relation@[w] == (kind, rid));
}

/// Safety soundness: in a ledger with no pending speculative need, with
/// nonnegative allocations and componentwise nonnegative availability, the
/// Banker's check finishes every thread — re-running it finds a completion
/// order, and such an order over all threads indeed exists.
pub proof fn lemma_safety_soundness(l: ResourceLedger)
    requires
        l.wf(),
        l.no_pending(),
        matrix_nonneg(l.alloc_m()),
        row_nonneg(l.avail_m()),
    ensures
        bankers_safe(l.avail_m(), l.alloc_m(), l.need_m()),
        exists|order: Seq<int>|
            covers_unfinished(order, Seq::new(l.alloc_m().len(), |i: int| false)) && #[trigger]
            order_finishes(l.alloc_m(), l.need_m(), l.avail_m(), order),
{
    assert(matrix_wf(l.alloc_m(), l.threads(), l.cols()));
    assert(matrix_wf(l.need_m(), l.threads(), l.cols()));
    assert forall|t: int, c: int|
        0 <= t < l.need_m().len() && 0 <= c < l.need_m()[t].len()
        implies (#[trigger] l.need_m()[t][c]) == 0 by {
        assert(l.need@[t]@[c] == 0);
    }
    lemma_zero_need_safe(
        l.alloc_m(),
        l.need_m(),
        l.avail_m(),
        Seq::new(l.alloc_m().len(), |i: int| false),
    );
    lemma_greedy_gives_order(
        l.alloc_m(),
        l.need_m(),
        l.avail_m(),
        Seq::new(l.alloc_m().len(), |i: int| false),
    );
}

/// Safety soundness across a successful `request`: a grant committed from
/// a quiescent ledger with nonnegative allocations, nonnegative
/// availability and at least one free instance in the requested column
/// leaves a ledger on which re-running the Banker's check again finds a
/// completion order, and an order over all threads exists.  (`request`'s
/// postconditions supply `granted` and the quiescence of `post`.)
pub proof fn lemma_request_keeps_safe(
    pre: ResourceLedger,
    post: ResourceLedger,
    kind: ResourceKind,
    rid: usize,
    tid: int,
)
    requires
        pre.wf(),
        post.wf(),
        post.no_pending(),
        matrix_nonneg(pre.alloc_m()),
        row_nonneg(pre.avail_m()),
        pre.has_column(kind, rid),
        pre.avail_m()[pre.spec_col(kind, rid)] >= 1,
        0 <= tid < MAX_LEDGER_THREADS,
        ResourceLedger::granted(pre, post, kind, rid, tid),
    ensures
        bankers_safe(post.avail_m(), post.alloc_m(), post.need_m()),
        exists|order: Seq<int>|
            covers_unfinished(order, Seq::new(post.alloc_m().len(), |i: int| false)) && #[trigger]
            order_finishes(post.alloc_m(), post.need_m(), post.avail_m(), order),
{
    let c = pre.spec_col(kind, rid);
    let n = pre.padded_threads(tid);
    let a0 = pad_rows(pre.alloc_m(), n, pre.cols());
    assert(row_nonneg(post.avail_m()));
    assert forall|t0: int, c0: int|
        0 <= t0 < a0.len() && 0 <= c0 < a0[t0].len()
        implies (#[trigger] a0[t0][c0]) >= 0 by {
        if t0 < pre.threads() {
            assert(a0[t0] == pre.alloc_m()[t0]);
        } else {
            assert(a0[t0] == zero_row(pre.cols()));
        }
    }
    assert(matrix_nonneg(post.alloc_m()));
    lemma_safety_soundness(post);
}

// ------------------------------------------------------------------
// Lemmas about column sums.

/// Updating one row changes a column's sum by the difference in that row.
pub proof fn lemma_col_sum_update(rows: Seq<Vec<isize>>, t: int, row: Vec<isize>, c: int)
    requires
        0 <= t < rows.len(),
    ensures
        col_sum(rows.update(t, row), c)
            == col_sum(rows, c) - rows[t]@[c] + row@[c],
    decreases rows.len(),
{
    let upd = rows.update(t, row);
    if t == rows.len() - 1 {
        assert(upd.drop_last() =~= rows.drop_last());
    } else {
        assert(upd.drop_last() =~= rows.drop_last().update(t, row));
        lemma_col_sum_update(rows.drop_last(), t, row, c);
    }
}

/// Appending a row adds its entry to each column's sum.
pub proof fn lemma_col_sum_push(rows: Seq<Vec<isize>>, row: Vec<isize>, c: int)
    ensures
        col_sum(rows.push(row), c) == col_sum(rows, c) + row@[c],
{
    assert(rows.push(row).drop_last() =~= rows);
}

/// If every row agrees on column `c`, the sums agree.
pub proof fn lemma_col_sum_congruence(rows1: Seq<Vec<isize>>, rows2: Seq<Vec<isize>>, c: int)
    requires
        rows1.len() == rows2.len(),
        forall|t: int| 0 <= t < rows1.len() ==> rows1[t]@[c] == #[trigger] rows2[t]@[c],
    ensures
        col_sum(rows1, c) == col_sum(rows2, c),
    decreases rows1.len(),
{
    if rows1.len() > 0 {
        lemma_col_sum_congruence(rows1.drop_last(), rows2.drop_last(), c);
    }
}

/// A column that is zero in every row sums to zero.
pub proof fn lemma_col_sum_zero(rows: Seq<Vec<isize>>, c: int)
    requires
        forall|t: int| 0 <= t < rows.len() ==> (#[trigger] rows[t])@[c] == 0,
    ensures
        col_sum(rows, c) == 0,
    decreases rows.len(),
{
    if rows.len() > 0 {
        lemma_col_sum_zero(rows.drop_last(), c);
    }
}

} // verus!
