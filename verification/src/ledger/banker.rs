//! Mathematical model of the Banker's safety check.
//!
//! A state is a triple of an availability vector `work`, an allocation
//! matrix and a need matrix, all over unbounded integers.  The check
//! repeatedly finishes the first thread whose need fits under the current
//! work vector, reclaiming its allocation; the state is safe when every
//! thread finishes.  `greedy_safe` is that procedure written as a recursive
//! function; the executable check is proved to return exactly its value.

use vstd::prelude::*;

verus! {

/// `a` is componentwise at most `b` (on `a`'s indices).
pub open spec fn row_le(a: Seq<int>, b: Seq<int>) -> bool {
    forall|i: int| 0 <= i < a.len() ==> #[trigger] a[i] <= b[i]
}

/// Componentwise sum, on `w`'s indices.
pub open spec fn add_row(w: Seq<int>, r: Seq<int>) -> Seq<int> {
    Seq::new(w.len(), |i: int| w[i] + r[i])
}

/// A row of `w` zeros.
pub open spec fn zero_row(w: int) -> Seq<int> {
    Seq::new(w as nat, |i: int| 0)
}

/// `m` extended with zero rows of width `w` until it has `n` rows.
pub open spec fn pad_rows(m: Seq<Seq<int>>, n: int, w: int) -> Seq<Seq<int>> {
    if m.len() >= n {
        m
    } else {
        m + Seq::new((n - m.len()) as nat, |i: int| zero_row(w))
    }
}

/// `n` rows, each of width `w`.
pub open spec fn matrix_wf(m: Seq<Seq<int>>, n: int, w: int) -> bool {
    &&& m.len() == n
    &&& forall|t: int| 0 <= t < n ==> (#[trigger] m[t]).len() == w
}

/// Every entry of `m` is zero.
pub open spec fn matrix_zero(m: Seq<Seq<int>>) -> bool {
    forall|t: int, c: int|
        0 <= t < m.len() && 0 <= c < m[t].len() ==> #[trigger] m[t][c] == 0
}

/// Every entry of `m` is nonnegative.
pub open spec fn matrix_nonneg(m: Seq<Seq<int>>) -> bool {
    forall|t: int, c: int|
        0 <= t < m.len() && 0 <= c < m[t].len() ==> #[trigger] m[t][c] >= 0
}

/// Every entry of `r` is nonnegative.
pub open spec fn row_nonneg(r: Seq<int>) -> bool {
    forall|i: int| 0 <= i < r.len() ==> #[trigger] r[i] >= 0
}

/// Thread `t` is unfinished and its need fits under the current work.
pub open spec fn eligible(need: Seq<Seq<int>>, work: Seq<int>, finish: Seq<bool>, t: int) -> bool {
    &&& 0 <= t < finish.len()
    &&& !finish[t]
    &&& row_le(need[t], work)
}

/// The least eligible thread index that is at least `t`, if any.
pub open spec fn first_eligible_from(
    need: Seq<Seq<int>>,
    work: Seq<int>,
    finish: Seq<bool>,
    t: int,
) -> Option<int>
    decreases finish.len() - t,
{
    if t < 0 || t >= finish.len() {
        None
    } else if eligible(need, work, finish, t) {
        Some(t)
    } else {
        first_eligible_from(need, work, finish, t + 1)
    }
}

/// How many threads are still unfinished.
pub open spec fn count_false(finish: Seq<bool>) -> nat
    decreases finish.len(),
{
    if finish.len() == 0 {
        0
    } else {
        count_false(finish.drop_last()) + if finish.last() { 0nat } else { 1nat }
    }
}

/// How many threads have finished.
pub open spec fn count_true(finish: Seq<bool>) -> nat
    decreases finish.len(),
{
    if finish.len() == 0 {
        0
    } else {
        count_true(finish.drop_last()) + if finish.last() { 1nat } else { 0nat }
    }
}

/// Finishing an unfinished thread lowers the unfinished count by one and
/// raises the finished count by one.
pub proof fn lemma_count_update(finish: Seq<bool>, t: int)
    requires
        0 <= t < finish.len(),
        !finish[t],
    ensures
        count_false(finish) == count_false(finish.update(t, true)) + 1,
        count_true(finish.update(t, true)) == count_true(finish) + 1,
    decreases finish.len(),
{
    let upd = finish.update(t, true);
    if t == finish.len() - 1 {
        assert(upd.drop_last() =~= finish.drop_last());
    } else {
        assert(upd.drop_last() =~= finish.drop_last().update(t, true));
        lemma_count_update(finish.drop_last(), t);
    }
}

/// An all-unfinished vector has no finished threads.
pub proof fn lemma_count_true_zero(finish: Seq<bool>)
    requires
        forall|t: int| 0 <= t < finish.len() ==> !(#[trigger] finish[t]),
    ensures
        count_true(finish) == 0,
    decreases finish.len(),
{
    if finish.len() > 0 {
        lemma_count_true_zero(finish.drop_last());
    }
}

/// No more threads finish than there are.
pub proof fn lemma_count_true_le(finish: Seq<bool>)
    ensures
        count_true(finish) <= finish.len(),
    decreases finish.len(),
{
    if finish.len() > 0 {
        lemma_count_true_le(finish.drop_last());
    }
}

/// What `first_eligible_from(.., t0)` returning `Some` or `None` means for
/// the individual indices.
pub proof fn lemma_first_eligible_from(
    need: Seq<Seq<int>>,
    work: Seq<int>,
    finish: Seq<bool>,
    t0: int,
)
    requires
        0 <= t0,
    ensures
        match first_eligible_from(need, work, finish, t0) {
            Some(t) => {
                &&& t0 <= t < finish.len()
                &&& eligible(need, work, finish, t)
                &&& forall|j: int| t0 <= j < t ==> !eligible(need, work, finish, j)
            },
            None => forall|j: int| t0 <= j < finish.len() ==> !eligible(need, work, finish, j),
        },
    decreases finish.len() - t0,
{
    if t0 < finish.len() && !eligible(need, work, finish, t0) {
        lemma_first_eligible_from(need, work, finish, t0 + 1);
    }
}

/// A scan that passed every index below `t` without finding an eligible
/// thread may as well have started at `t`.
pub proof fn lemma_first_eligible_skip(
    need: Seq<Seq<int>>,
    work: Seq<int>,
    finish: Seq<bool>,
    t: int,
)
    requires
        0 <= t <= finish.len(),
        forall|j: int| 0 <= j < t ==> !eligible(need, work, finish, j),
    ensures
        first_eligible_from(need, work, finish, 0) == first_eligible_from(need, work, finish, t),
    decreases t,
{
    if t > 0 {
        lemma_first_eligible_skip(need, work, finish, t - 1);
    }
}

/// The Banker's check itself: keep finishing the first thread whose need
/// fits under the work vector, reclaiming its allocation row; the state is
/// safe exactly when every thread finishes.
pub open spec fn greedy_safe(
    alloc: Seq<Seq<int>>,
    need: Seq<Seq<int>>,
    work: Seq<int>,
    finish: Seq<bool>,
) -> bool
    decreases count_false(finish),
    via greedy_safe_decreases
{
    match first_eligible_from(need, work, finish, 0) {
        None => forall|t: int| 0 <= t < finish.len() ==> finish[t],
        Some(t) => greedy_safe(alloc, need, add_row(work, alloc[t]), finish.update(t, true)),
    }
}

#[via_fn]
proof fn greedy_safe_decreases(
    alloc: Seq<Seq<int>>,
    need: Seq<Seq<int>>,
    work: Seq<int>,
    finish: Seq<bool>,
) {
    match first_eligible_from(need, work, finish, 0) {
        None => {},
        Some(t) => {
            lemma_first_eligible_from(need, work, finish, 0);
            lemma_count_update(finish, t);
        },
    }
}

/// The whole check on a state: all threads start unfinished and the work
/// vector starts as the availability vector.
pub open spec fn bankers_safe(avail: Seq<int>, alloc: Seq<Seq<int>>, need: Seq<Seq<int>>) -> bool {
    greedy_safe(alloc, need, avail, Seq::new(alloc.len(), |i: int| false))
}

/// `order` lists each unfinished thread exactly once.
pub open spec fn covers_unfinished(order: Seq<int>, finish: Seq<bool>) -> bool {
    &&& order.no_duplicates()
    &&& forall|i: int| 0 <= i < order.len()
        ==> 0 <= #[trigger] order[i] < finish.len() && !finish[order[i]]
    &&& forall|t: int| 0 <= t < finish.len() && !finish[t] ==> #[trigger] order.contains(t)
}

/// The threads can finish in the order given: each one's need fits under
/// the work accumulated from the allocations reclaimed before it.
pub open spec fn order_finishes(
    alloc: Seq<Seq<int>>,
    need: Seq<Seq<int>>,
    work: Seq<int>,
    order: Seq<int>,
) -> bool
    decreases order.len(),
{
    order.len() == 0 || {
        let t = order[0];
        &&& row_le(need[t], work)
        &&& order_finishes(alloc, need, add_row(work, alloc[t]), order.drop_first())
    }
}

/// A row stays under a work vector that only grew.
proof fn lemma_row_le_widen(a: Seq<int>, w: Seq<int>, r: Seq<int>)
    requires
        row_le(a, w),
        row_nonneg(r),
        a.len() <= w.len(),
        r.len() == w.len(),
    ensures
        row_le(a, add_row(w, r)),
{
}

/// A thread whose need already fits may finish first: removing it from
/// anywhere in a valid order and reclaiming its allocation up front keeps
/// the rest of the order valid, because extra reclaimed allocation never
/// shrinks the work vector.
proof fn lemma_order_exchange(
    alloc: Seq<Seq<int>>,
    need: Seq<Seq<int>>,
    work: Seq<int>,
    order: Seq<int>,
    k: int,
)
    requires
        matrix_wf(alloc, alloc.len() as int, work.len() as int),
        matrix_wf(need, alloc.len() as int, work.len() as int),
        matrix_nonneg(alloc),
        forall|i: int| 0 <= i < order.len() ==> 0 <= #[trigger] order[i] < alloc.len(),
        order_finishes(alloc, need, work, order),
        0 <= k < order.len(),
        row_le(need[order[k]], work),
    ensures
        order_finishes(alloc, need, add_row(work, alloc[order[k]]), order.remove(k)),
    decreases k,
{
    if k == 0 {
        assert(order.remove(0) =~= order.drop_first());
    } else {
        let t = order[0];
        let u = order[k];
        let rest = order.drop_first();
        assert(rest[k - 1] == u);
        assert(row_nonneg(alloc[t]));
        assert(row_nonneg(alloc[u]));
        lemma_row_le_widen(need[u], work, alloc[t]);
        lemma_order_exchange(alloc, need, add_row(work, alloc[t]), rest, k - 1);
        assert(add_row(add_row(work, alloc[t]), alloc[u]) =~= add_row(
            add_row(work, alloc[u]),
            alloc[t],
        ));
        assert(order.remove(k)[0] == t);
        assert(order.remove(k).drop_first() =~= rest.remove(k - 1));
        lemma_row_le_widen(need[t], work, alloc[u]);
    }
}

/// Soundness of the check: a successful run yields a completion order
/// over exactly the unfinished threads — the order in which the check
/// finished them.
pub proof fn lemma_greedy_gives_order(
    alloc: Seq<Seq<int>>,
    need: Seq<Seq<int>>,
    work: Seq<int>,
    finish: Seq<bool>,
)
    requires
        greedy_safe(alloc, need, work, finish),
    ensures
        exists|order: Seq<int>|
            covers_unfinished(order, finish) && #[trigger] order_finishes(
                alloc,
                need,
                work,
                order,
            ),
    decreases count_false(finish),
{
    lemma_first_eligible_from(need, work, finish, 0);
    match first_eligible_from(need, work, finish, 0) {
        None => {
            let empty = Seq::<int>::empty();
            assert(covers_unfinished(empty, finish));
            assert(order_finishes(alloc, need, work, empty));
        },
        Some(t) => {
            lemma_count_update(finish, t);
            let finish2 = finish.update(t, true);
            let work2 = add_row(work, alloc[t]);
            lemma_greedy_gives_order(alloc, need, work2, finish2);
            let tail = choose|order: Seq<int>|
                covers_unfinished(order, finish2) && #[trigger] order_finishes(
                    alloc,
                    need,
                    work2,
                    order,
                );
            let order = seq![t] + tail;
            assert(order[0] == t);
            assert(order.drop_first() =~= tail);
            assert forall|i: int, j: int| 0 <= i < j < order.len()
                implies order[i] != order[j] by {
                if i == 0 {
                    assert(tail[j - 1] != t);
                }
            }
            assert forall|u: int| 0 <= u < finish.len() && !finish[u]
                implies #[trigger] order.contains(u) by {
                if u == t {
                    assert(order[0] == u);
                } else {
                    assert(tail.contains(u));
                    let i = choose|i: int| 0 <= i < tail.len() && tail[i] == u;
                    assert(order[i + 1] == u);
                }
            }
            assert(covers_unfinished(order, finish));
            assert(order_finishes(alloc, need, work, order));
        },
    }
}

/// Completeness of the check, and why tie-breaking among candidate
/// threads is immaterial: when allocations are nonnegative, any valid
/// completion order certifies that the check — which always finishes the
/// first eligible thread — also finishes every thread.
pub proof fn lemma_order_gives_greedy(
    alloc: Seq<Seq<int>>,
    need: Seq<Seq<int>>,
    work: Seq<int>,
    finish: Seq<bool>,
    order: Seq<int>,
)
    requires
        matrix_wf(alloc, finish.len() as int, work.len() as int),
        matrix_wf(need, finish.len() as int, work.len() as int),
        matrix_nonneg(alloc),
        covers_unfinished(order, finish),
        order_finishes(alloc, need, work, order),
    ensures
        greedy_safe(alloc, need, work, finish),
    decreases count_false(finish),
{
    lemma_first_eligible_from(need, work, finish, 0);
    match first_eligible_from(need, work, finish, 0) {
        None => {
            assert forall|t: int| 0 <= t < finish.len() implies finish[t] by {
                if !finish[t] {
                    assert(order.contains(t));
                    assert(order.len() > 0);
                    let u = order[0];
                    assert(row_le(need[u], work));
                    assert(eligible(need, work, finish, u));
                }
            }
        },
        Some(t0) => {
            assert(order.contains(t0));
            let k = choose|k: int| 0 <= k < order.len() && order[k] == t0;
            lemma_order_exchange(alloc, need, work, order, k);
            let order2 = order.remove(k);
            let finish2 = finish.update(t0, true);
            assert forall|i: int, j: int| 0 <= i < j < order2.len()
                implies order2[i] != order2[j] by {
                let i0 = if i < k { i } else { i + 1 };
                let j0 = if j < k { j } else { j + 1 };
                assert(order2[i] == order[i0] && order2[j] == order[j0]);
            }
            assert forall|i: int| 0 <= i < order2.len()
                implies 0 <= #[trigger] order2[i] < finish2.len() && !finish2[order2[i]] by {
                let i0 = if i < k { i } else { i + 1 };
                assert(order2[i] == order[i0]);
                assert(order[i0] != order[k]);
            }
            assert forall|u: int| 0 <= u < finish2.len() && !finish2[u]
                implies #[trigger] order2.contains(u) by {
                assert(order.contains(u));
                let i0 = choose|i0: int| 0 <= i0 < order.len() && order[i0] == u;
                assert(i0 != k);
                if i0 < k {
                    assert(order2[i0] == u);
                } else {
                    assert(order2[i0 - 1] == u);
                }
            }
            assert(covers_unfinished(order2, finish2));
            lemma_count_update(finish, t0);
            lemma_order_gives_greedy(alloc, need, add_row(work, alloc[t0]), finish2, order2);
        },
    }
}

/// The Banker's check succeeds exactly when some completion order over
/// all threads exists (allocations nonnegative): the verdict does not
/// depend on how candidate threads are picked.
pub proof fn lemma_verdict_iff_order(avail: Seq<int>, alloc: Seq<Seq<int>>, need: Seq<Seq<int>>)
    requires
        matrix_wf(alloc, alloc.len() as int, avail.len() as int),
        matrix_wf(need, alloc.len() as int, avail.len() as int),
        matrix_nonneg(alloc),
    ensures
        bankers_safe(avail, alloc, need) <==> exists|order: Seq<int>|
            covers_unfinished(order, Seq::new(alloc.len(), |i: int| false)) && #[trigger]
            order_finishes(alloc, need, avail, order),
{
    let finish0 = Seq::new(alloc.len(), |i: int| false);
    if bankers_safe(avail, alloc, need) {
        lemma_greedy_gives_order(alloc, need, avail, finish0);
    }
    if exists|order: Seq<int>|
        covers_unfinished(order, finish0) && #[trigger] order_finishes(alloc, need, avail, order) {
        let order = choose|order: Seq<int>|
            covers_unfinished(order, finish0) && #[trigger] order_finishes(
                alloc,
                need,
                avail,
                order,
            );
        lemma_order_gives_greedy(alloc, need, avail, finish0, order);
    }
}

/// With no pending need anywhere, nonnegative allocations and a
/// nonnegative work vector, the check finishes every thread: each round the
/// first unfinished thread is eligible, and reclaiming a nonnegative row
/// keeps the work vector nonnegative.
pub proof fn lemma_zero_need_safe(
    alloc: Seq<Seq<int>>,
    need: Seq<Seq<int>>,
    work: Seq<int>,
    finish: Seq<bool>,
)
    requires
        matrix_wf(alloc, finish.len() as int, work.len() as int),
        matrix_wf(need, finish.len() as int, work.len() as int),
        matrix_zero(need),
        matrix_nonneg(alloc),
        row_nonneg(work),
    ensures
        greedy_safe(alloc, need, work, finish),
    decreases count_false(finish),
{
    lemma_first_eligible_from(need, work, finish, 0);
    match first_eligible_from(need, work, finish, 0) {
        None => {
            assert forall|t: int| 0 <= t < finish.len() implies finish[t] by {
                if !finish[t] {
                    assert(row_le(need[t], work));
                    assert(eligible(need, work, finish, t));
                }
            }
        },
        Some(t) => {
            let work2 = add_row(work, alloc[t]);
            assert(row_nonneg(work2));
            lemma_count_update(finish, t);
            lemma_zero_need_safe(alloc, need, work2, finish.update(t, true));
        },
    }
}

} // verus!
