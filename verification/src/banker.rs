//! Resource-allocation safety check in the style of the banker's algorithm.
//!
//! A snapshot of one acquisition attempt is given by a free vector `work`
//! (one entry per resource kind), a `need` matrix and an `allocation` matrix
//! (one row per task, one column per resource kind).  The state is *safe*
//! when some order lets every task finish: a task can finish once its whole
//! `need` row fits under the free vector, and on finishing it returns its
//! `allocation` row to the free vector.
//!
//! `check` decides safety by repeatedly granting any task whose need is
//! covered; its contract states that the answer is exactly `banker_safe`.

use vstd::prelude::*;

verus! {

/// A sequence of `i32` read as mathematical integers.
pub open spec fn ints(s: Seq<i32>) -> Seq<int> {
    s.map_values(|x: i32| x as int)
}

/// A vector of `i32` rows read as a matrix of mathematical integers.
pub open spec fn mat(rows: Seq<Vec<i32>>) -> Seq<Seq<int>> {
    rows.map_values(|r: Vec<i32>| ints(r@))
}

/// `a` has `n` rows, each of width `m`.
pub open spec fn mat_dims(a: Seq<Seq<int>>, n: int, m: int) -> bool {
    a.len() == n && forall|i: int| 0 <= i < n ==> (#[trigger] a[i]).len() == m
}

/// Every entry of `a` is non-negative.
pub open spec fn mat_nonneg(a: Seq<Seq<int>>, n: int, m: int) -> bool {
    forall|i: int, j: int| 0 <= i < n && 0 <= j < m ==> 0 <= #[trigger] a[i][j]
}

/// Row `need_i` is covered by `work`, column by column.
pub open spec fn row_le(need_i: Seq<int>, work: Seq<int>) -> bool {
    forall|j: int| 0 <= j < work.len() ==> #[trigger] need_i[j] <= work[j]
}

/// The free vector after one task returns its allocation row.
pub open spec fn add_alloc(work: Seq<int>, alloc_i: Seq<int>) -> Seq<int> {
    Seq::new(work.len(), |j: int| work[j] + alloc_i[j])
}

/// The free vector after the first `k` tasks of `order` finish in turn.
pub open spec fn work_along(order: Seq<int>, k: int, work0: Seq<int>, alloc: Seq<Seq<int>>) -> Seq<int>
    decreases k,
{
    if k <= 0 {
        work0
    } else {
        add_alloc(work_along(order, k - 1, work0, alloc), alloc[order[k - 1]])
    }
}

/// Every task of `order` can finish at its turn.
pub open spec fn order_valid(order: Seq<int>, work0: Seq<int>, need: Seq<Seq<int>>, alloc: Seq<Seq<int>>) -> bool {
    forall|k: int|
        0 <= k < order.len() ==> row_le(
            need[order[k]],
            #[trigger] work_along(order, k, work0, alloc),
        )
}

/// A completion order for all tasks: each task index exactly once, and each
/// task can finish at its turn.
pub open spec fn is_safe_order(order: Seq<int>, work0: Seq<int>, need: Seq<Seq<int>>, alloc: Seq<Seq<int>>) -> bool {
    &&& forall|k: int| 0 <= k < order.len() ==> 0 <= #[trigger] order[k] < need.len()
    &&& order.no_duplicates()
    &&& forall|i: int| 0 <= i < need.len() ==> order.contains(i)
    &&& order_valid(order, work0, need, alloc)
}

/// The snapshot is safe: some completion order lets every task finish.
pub open spec fn banker_safe(work0: Seq<int>, need: Seq<Seq<int>>, alloc: Seq<Seq<int>>) -> bool {
    exists|order: Seq<int>| is_safe_order(order, work0, need, alloc)
}

/// Sum of column `j` over the rows of `a` with index below `k`.
pub open spec fn col_sum(a: Seq<Seq<int>>, k: int, j: int) -> int
    decreases k,
{
    if k <= 0 {
        0
    } else {
        col_sum(a, k - 1, j) + a[k - 1][j]
    }
}

/// Sum of column `j` over the finished rows of `a` with index below `k`.
pub open spec fn fin_sum(finish: Seq<bool>, a: Seq<Seq<int>>, k: int, j: int) -> int
    decreases k,
{
    if k <= 0 {
        0
    } else {
        fin_sum(finish, a, k - 1, j) + if finish[k - 1] {
            a[k - 1][j]
        } else {
            0
        }
    }
}

/// How many of the first `k` entries of `finish` are set.
pub open spec fn num_finished(finish: Seq<bool>, k: int) -> int
    decreases k,
{
    if k <= 0 {
        0
    } else {
        num_finished(finish, k - 1) + if finish[k - 1] {
            1int
        } else {
            0
        }
    }
}

/// `finish` with the tasks of `order[0..k]` marked unfinished again.
pub open spec fn finish_minus(finish: Seq<bool>, order: Seq<int>, k: int) -> Seq<bool>
    decreases k,
{
    if k <= 0 {
        finish
    } else {
        finish_minus(finish, order, k - 1).update(order[k - 1], false)
    }
}

pub broadcast proof fn lemma_work_along_len(order: Seq<int>, k: int, work0: Seq<int>, alloc: Seq<Seq<int>>)
    ensures
        (#[trigger] work_along(order, k, work0, alloc)).len() == work0.len(),
    decreases k,
{
    if k > 0 {
        lemma_work_along_len(order, k - 1, work0, alloc);
    }
}

proof fn lemma_fin_sum_nonneg(finish: Seq<bool>, a: Seq<Seq<int>>, k: int, j: int)
    requires
        k <= a.len(),
        forall|i: int| 0 <= i < a.len() ==> 0 <= #[trigger] a[i][j],
    ensures
        0 <= fin_sum(finish, a, k, j),
    decreases k,
{
    if k > 0 {
        lemma_fin_sum_nonneg(finish, a, k - 1, j);
    }
}

proof fn lemma_fin_sum_le_col_sum(finish: Seq<bool>, a: Seq<Seq<int>>, k: int, j: int)
    requires
        k <= a.len(),
        forall|i: int| 0 <= i < a.len() ==> 0 <= #[trigger] a[i][j],
    ensures
        fin_sum(finish, a, k, j) <= col_sum(a, k, j),
    decreases k,
{
    if k > 0 {
        lemma_fin_sum_le_col_sum(finish, a, k - 1, j);
    }
}

proof fn lemma_fin_sum_update(finish: Seq<bool>, a: Seq<Seq<int>>, e: int, b: bool, k: int, j: int)
    requires
        0 <= e < finish.len(),
        k <= finish.len(),
    ensures
        fin_sum(finish.update(e, b), a, k, j) == fin_sum(finish, a, k, j) + if 0 <= e < k {
            (if b { a[e][j] } else { 0 }) - (if finish[e] { a[e][j] } else { 0 })
        } else {
            0
        },
    decreases k,
{
    if k > 0 {
        lemma_fin_sum_update(finish, a, e, b, k - 1, j);
    }
}

proof fn lemma_num_finished_update(finish: Seq<bool>, e: int, b: bool, k: int)
    requires
        0 <= e < finish.len(),
        k <= finish.len(),
    ensures
        num_finished(finish.update(e, b), k) == num_finished(finish, k) + if 0 <= e < k {
            (if b { 1int } else { 0 }) - (if finish[e] { 1int } else { 0 })
        } else {
            0
        },
    decreases k,
{
    if k > 0 {
        lemma_num_finished_update(finish, e, b, k - 1);
    }
}

proof fn lemma_fin_sum_all_false(finish: Seq<bool>, a: Seq<Seq<int>>, k: int, j: int)
    requires
        forall|i: int| 0 <= i < k ==> !(#[trigger] finish[i]),
    ensures
        fin_sum(finish, a, k, j) == 0,
    decreases k,
{
    if k > 0 {
        lemma_fin_sum_all_false(finish, a, k - 1, j);
    }
}

proof fn lemma_num_finished_bounds(finish: Seq<bool>, k: int)
    ensures
        0 <= num_finished(finish, k) && num_finished(finish, k) <= if k <= 0 {
            0int
        } else {
            k
        },
    decreases k,
{
    if k > 0 {
        lemma_num_finished_bounds(finish, k - 1);
    }
}

proof fn lemma_work_along_push(order: Seq<int>, e: int, k: int, work0: Seq<int>, alloc: Seq<Seq<int>>)
    requires
        0 <= k <= order.len(),
    ensures
        work_along(order.push(e), k, work0, alloc) == work_along(order, k, work0, alloc),
    decreases k,
{
    if k > 0 {
        lemma_work_along_push(order, e, k - 1, work0, alloc);
        assert(order.push(e)[k - 1] == order[k - 1]);
    }
}

proof fn lemma_finish_minus_index(finish: Seq<bool>, order: Seq<int>, k: int, e: int)
    requires
        0 <= k,
        forall|l: int| 0 <= l < k ==> 0 <= #[trigger] order[l] < finish.len(),
        0 <= e < finish.len(),
    ensures
        finish_minus(finish, order, k).len() == finish.len(),
        finish_minus(finish, order, k)[e] == (finish[e] && forall|l: int|
            0 <= l < k ==> #[trigger] order[l] != e),
    decreases k,
{
    if k > 0 {
        lemma_finish_minus_index(finish, order, k - 1, e);
    }
}

proof fn lemma_finish_minus_len(finish: Seq<bool>, order: Seq<int>, k: int)
    requires
        0 <= k,
        forall|l: int| 0 <= l < k ==> 0 <= #[trigger] order[l] < finish.len(),
    ensures
        finish_minus(finish, order, k).len() == finish.len(),
    decreases k,
{
    if k > 0 {
        lemma_finish_minus_len(finish, order, k - 1);
    }
}

/// Walking a valid completion order from a stuck state: every task the order
/// lists must already be finished, because an unfinished one would have to be
/// coverable, and the order can only ever see free vectors at or below the
/// stuck one.
proof fn lemma_stuck_walk(
    work0: Seq<int>,
    need: Seq<Seq<int>>,
    alloc: Seq<Seq<int>>,
    finish: Seq<bool>,
    w: Seq<int>,
    order: Seq<int>,
    k: int,
)
    requires
        mat_dims(need, finish.len() as int, work0.len() as int),
        mat_dims(alloc, finish.len() as int, work0.len() as int),
        mat_nonneg(alloc, finish.len() as int, work0.len() as int),
        w.len() == work0.len(),
        forall|j: int|
            0 <= j < work0.len() ==> #[trigger] w[j] == work0[j] + fin_sum(
                finish,
                alloc,
                finish.len() as int,
                j,
            ),
        forall|i: int| 0 <= i < finish.len() && !finish[i] ==> !row_le(#[trigger] need[i], w),
        is_safe_order(order, work0, need, alloc),
        0 <= k <= order.len(),
        forall|l: int| 0 <= l < k ==> finish[#[trigger] order[l]],
        forall|j: int|
            0 <= j < work0.len() ==> #[trigger] work_along(order, k, work0, alloc)[j] + fin_sum(
                finish_minus(finish, order, k),
                alloc,
                finish.len() as int,
                j,
            ) == work0[j] + fin_sum(finish, alloc, finish.len() as int, j),
    ensures
        forall|l: int| 0 <= l < order.len() ==> finish[#[trigger] order[l]],
    decreases order.len() - k,
{
    broadcast use lemma_work_along_len;

    let n = finish.len() as int;
    let m = work0.len() as int;
    if k < order.len() {
        let e = order[k];
        let wk = work_along(order, k, work0, alloc);
        let fmk = finish_minus(finish, order, k);
        lemma_finish_minus_len(finish, order, k);
        // The free vector along the order never exceeds the stuck free vector.
        assert forall|j: int| 0 <= j < m implies wk[j] <= w[j] by {
            assert forall|i: int| 0 <= i < n implies 0 <= #[trigger] alloc[i][j] by {}
            lemma_fin_sum_nonneg(fmk, alloc, n, j);
        }
        // So the task at position k is coverable in the stuck state too.
        assert(row_le(need[e], wk));
        assert(row_le(need[e], w)) by {
            assert(wk.len() == m);
            assert forall|j: int| 0 <= j < w.len() implies need[e][j] <= w[j] by {
                assert(need[e][j] <= wk[j]);
            }
        }
        assert(finish[e]);
        // Re-establish the conservation equation one step further.
        assert(fmk[e]) by {
            lemma_finish_minus_index(finish, order, k, e);
            assert forall|l: int| 0 <= l < k implies #[trigger] order[l] != e by {
                // no_duplicates
                assert(order[l] != order[k]);
            }
        }
        let fmk1 = finish_minus(finish, order, k + 1);
        assert(fmk1 == fmk.update(e, false));
        assert forall|j: int|
            0 <= j < m implies #[trigger] work_along(order, k + 1, work0, alloc)[j] + fin_sum(
                fmk1,
                alloc,
                n,
                j,
            ) == work0[j] + fin_sum(finish, alloc, n, j) by {
            lemma_fin_sum_update(fmk, alloc, e, false, n, j);
            assert(work_along(order, k + 1, work0, alloc) == add_alloc(wk, alloc[e]));
            assert(work_along(order, k + 1, work0, alloc)[j] == wk[j] + alloc[e][j]);
        }
        lemma_stuck_walk(work0, need, alloc, finish, w, order, k + 1);
    }
}

/// From a stuck state (no unfinished task is coverable, and at least one task
/// is unfinished) no completion order exists.
proof fn lemma_stuck_unsafe(
    work0: Seq<int>,
    need: Seq<Seq<int>>,
    alloc: Seq<Seq<int>>,
    finish: Seq<bool>,
    w: Seq<int>,
)
    requires
        mat_dims(need, finish.len() as int, work0.len() as int),
        mat_dims(alloc, finish.len() as int, work0.len() as int),
        mat_nonneg(alloc, finish.len() as int, work0.len() as int),
        w.len() == work0.len(),
        forall|j: int|
            0 <= j < work0.len() ==> #[trigger] w[j] == work0[j] + fin_sum(
                finish,
                alloc,
                finish.len() as int,
                j,
            ),
        forall|i: int| 0 <= i < finish.len() && !finish[i] ==> !row_le(#[trigger] need[i], w),
        exists|i: int| 0 <= i < finish.len() && !(#[trigger] finish[i]),
    ensures
        !banker_safe(work0, need, alloc),
{
    if banker_safe(work0, need, alloc) {
        let order = choose|order: Seq<int>| is_safe_order(order, work0, need, alloc);
        assert(finish_minus(finish, order, 0) == finish);
        lemma_stuck_walk(work0, need, alloc, finish, w, order, 0);
        let i = choose|i: int| 0 <= i < finish.len() && !(#[trigger] finish[i]);
        assert(order.contains(i));
        let k = choose|k: int| 0 <= k < order.len() && order[k] == i;
        assert(finish[order[k]]);
        assert(false);
    }
}

/// Whether the whole row `need_i` fits under the free vector `work`.
fn row_fits(need_i: &Vec<i32>, work: &Vec<i32>) -> (r: bool)
    requires
        need_i@.len() == work@.len(),
    ensures
        r == row_le(ints(need_i@), ints(work@)),
{
    let m = work.len();
    for j in 0..m
        invariant
            m == work@.len(),
            need_i@.len() == m,
            forall|jj: int| 0 <= jj < j ==> ints(need_i@)[jj] <= ints(work@)[jj],
    {
        if need_i[j] > work[j] {
            assert(!(ints(need_i@)[j as int] <= ints(work@)[j as int]));
            return false;
        }
    }
    true
}

/// First unfinished task whose whole need row fits under `work`, if any.
fn find_runnable(n: usize, m: usize, work: &Vec<i32>, need: &Vec<Vec<i32>>, finish: &Vec<bool>) -> (r: Option<
    usize,
>)
    requires
        work@.len() == m,
        finish@.len() == n,
        mat_dims(mat(need@), n as int, m as int),
    ensures
        match r {
            Some(i) => i < n && !finish@[i as int] && row_le(mat(need@)[i as int], ints(work@)),
            None => forall|i: int|
                0 <= i < n ==> (finish@[i] || !row_le(mat(need@)[i], ints(work@))),
        },
{
    for i in 0..n
        invariant
            work@.len() == m,
            finish@.len() == n,
            need@.len() == n,
            mat_dims(mat(need@), n as int, m as int),
            forall|ii: int| 0 <= ii < i ==> (finish@[ii] || !row_le(mat(need@)[ii], ints(work@))),
    {
        if !finish[i] {
            assert(mat(need@)[i as int].len() == m);
            assert(need@[i as int]@.len() == m);
            if row_fits(&need[i], work) {
                return Some(i);
            }
        }
    }
    None
}

/// Whether every task is finished.
fn all_finished(finish: &Vec<bool>) -> (r: bool)
    ensures
        r == forall|i: int| 0 <= i < finish@.len() ==> #[trigger] finish@[i],
{
    let n = finish.len();
    for i in 0..n
        invariant
            n == finish@.len(),
            forall|ii: int| 0 <= ii < i ==> #[trigger] finish@[ii],
    {
        if !finish[i] {
            return false;
        }
    }
    true
}

/// Decide whether the snapshot is safe, by repeatedly finishing any task
/// whose need row is covered and returning its allocation to `work`.
/// `work` is caller-owned scratch; its final contents are unspecified.
pub fn check(n: usize, m: usize, work: &mut Vec<i32>, need: &Vec<Vec<i32>>, allocation: &Vec<Vec<i32>>) -> (r:
    bool)
    requires
        old(work)@.len() == m,
        mat_dims(mat(need@), n as int, m as int),
        mat_dims(mat(allocation@), n as int, m as int),
        mat_nonneg(mat(allocation@), n as int, m as int),
        forall|j: int|
            0 <= j < m ==> ints(old(work)@)[j] + col_sum(mat(allocation@), n as int, j) <= i32::MAX,
    ensures
        r == banker_safe(ints(old(work)@), mat(need@), mat(allocation@)),
        final(work)@.len() == m,
{
    broadcast use lemma_work_along_len;

    let ghost work0: Seq<int> = ints(work@);
    let ghost needs: Seq<Seq<int>> = mat(need@);
    let ghost allocs: Seq<Seq<int>> = mat(allocation@);
    let mut finish: Vec<bool> = Vec::new();
    while finish.len() < n
        invariant
            finish@.len() <= n,
            forall|i: int| 0 <= i < finish@.len() ==> !(#[trigger] finish@[i]),
        decreases n - finish@.len(),
    {
        finish.push(false);
    }
    let ghost mut order: Seq<int> = Seq::empty();
    proof {
        assert forall|j: int|
            0 <= j < m implies ints(work@)[j] == work0[j] + fin_sum(finish@, allocs, n as int, j) by {
            lemma_fin_sum_all_false(finish@, allocs, n as int, j);
        }
        assert forall|i: int| 0 <= i < n implies (#[trigger] finish@[i] <==> order.contains(i)) by {}
    }
    let mut again = true;
    while again
        invariant
            work@.len() == m,
            finish@.len() == n,
            need@.len() == n,
            allocation@.len() == n,
            needs == mat(need@),
            allocs == mat(allocation@),
            work0.len() == m,
            mat_dims(needs, n as int, m as int),
            mat_dims(allocs, n as int, m as int),
            mat_nonneg(allocs, n as int, m as int),
            forall|j: int| 0 <= j < m ==> work0[j] + col_sum(allocs, n as int, j) <= i32::MAX,
            forall|j: int| 0 <= j < m ==> i32::MIN <= work0[j],
            forall|k: int| 0 <= k < order.len() ==> 0 <= #[trigger] order[k] < n,
            order.no_duplicates(),
            forall|i: int| 0 <= i < n ==> (#[trigger] finish@[i] <==> order.contains(i)),
            order_valid(order, work0, needs, allocs),
            forall|j: int|
                0 <= j < m ==> ints(work@)[j] == #[trigger] work_along(order, order.len() as int, work0, allocs)[j],
            forall|j: int|
                0 <= j < m ==> ints(work@)[j] == work0[j] + fin_sum(finish@, allocs, n as int, j),
            !again ==> forall|i: int|
                0 <= i < n ==> (finish@[i] || !row_le(#[trigger] needs[i], ints(work@))),
        decreases n - num_finished(finish@, n as int), flag_measure(again),
    {
        proof {
            lemma_num_finished_bounds(finish@, n as int);
        }
        match find_runnable(n, m, work, need, &finish) {
            Some(i) => {
                let ghost old_work: Seq<int> = ints(work@);
                let ghost old_finish: Seq<bool> = finish@;
                let ghost old_order: Seq<int> = order;
                proof {
                    assert(!old_finish[i as int]);
                    assert(row_le(needs[i as int], old_work));
                    assert(forall|jj: int|
                        0 <= jj < m ==> old_work[jj] == #[trigger] work_along(
                            old_order,
                            old_order.len() as int,
                            work0,
                            allocs,
                        )[jj]);
                    assert(needs[i as int].len() == m);
                    assert forall|jj: int|
                        0 <= jj < m implies fin_sum(old_finish, allocs, n as int, jj) + allocs[i as int][jj]
                            <= col_sum(allocs, n as int, jj) by {
                        lemma_fin_sum_update(old_finish, allocs, i as int, true, n as int, jj);
                        lemma_fin_sum_le_col_sum(
                            old_finish.update(i as int, true),
                            allocs,
                            n as int,
                            jj,
                        );
                    }
                    assert forall|jj: int|
                        0 <= jj < m implies fin_sum(old_finish, allocs, n as int, jj) >= 0 by {
                        assert forall|ii: int| 0 <= ii < n implies 0 <= #[trigger] allocs[ii][jj] by {}
                        lemma_fin_sum_nonneg(old_finish, allocs, n as int, jj);
                    }
                }
                // Return task i's allocation row to the free vector.
                let row: &Vec<i32> = &allocation[i];
                proof {
                    assert(allocs[i as int] == ints(row@));
                    assert(allocs[i as int].len() == m);
                    assert(row@.len() == m);
                }
                for j in 0..m
                    invariant
                        work@.len() == m,
                        row@.len() == m,
                        allocs[i as int] == ints(row@),
                        mat_nonneg(allocs, n as int, m as int),
                        0 <= (i as int) < n,
                        forall|jj: int|
                            0 <= jj < m ==> old_work[jj] == work0[jj] + fin_sum(old_finish, allocs, n as int, jj),
                        forall|jj: int| 0 <= jj < m ==> work0[jj] + col_sum(allocs, n as int, jj) <= i32::MAX,
                        forall|jj: int|
                            0 <= jj < m ==> fin_sum(old_finish, allocs, n as int, jj) + allocs[i as int][jj] <= col_sum(allocs, n as int, jj),
                        forall|jj: int|
                            j <= jj < m ==> ints(work@)[jj] == old_work[jj],
                        forall|jj: int|
                            0 <= jj < j ==> ints(work@)[jj] == old_work[jj] + allocs[i as int][jj],
                {
                    let w: i32 = work[j];
                    let a: i32 = row[j];
                    let ghost pre: Seq<i32> = work@;
                    assert(a == allocs[i as int][j as int]);
                    assert(w as int == old_work[j as int]);
                    assert(w as int + a as int <= i32::MAX);
                    assert(0 <= a as int);
                    work.set(j, w + a);
                    assert forall|jj: int| 0 <= jj < j + 1 implies ints(work@)[jj] == old_work[jj]
                        + allocs[i as int][jj] by {
                        if jj == j as int {
                            assert(work@[jj] == w + a);
                            assert(ints(work@)[jj] == (w + a) as int);
                        } else {
                            assert(ints(pre)[jj] == old_work[jj] + allocs[i as int][jj]);
                            assert(work@[jj] == pre[jj]);
                        }
                    }
                    assert forall|jj: int| j + 1 <= jj < m implies ints(work@)[jj] == old_work[jj] by {
                        assert(ints(pre)[jj] == old_work[jj]);
                        assert(work@[jj] == pre[jj]);
                    }
                }
                finish.set(i, true);
                proof {
                    broadcast use lemma_work_along_len;

                    order = order.push(i as int);
                    // the queue of earlier picks is untouched by the push
                    assert forall|k: int|
                        0 <= k <= old_order.len() implies work_along(order, k, work0, allocs)
                            == #[trigger] work_along(old_order, k, work0, allocs) by {
                        lemma_work_along_push(old_order, i as int, k, work0, allocs);
                    }
                    assert(order.no_duplicates()) by {
                        assert(!old_order.contains(i as int));
                        assert forall|p: int, q: int|
                            0 <= p < order.len() && 0 <= q < order.len() && p != q implies order[p]
                            != order[q] by {
                            if p < old_order.len() && q < old_order.len() {
                                assert(old_order[p] != old_order[q]);
                            }
                        }
                    }
                    assert forall|ii: int| 0 <= ii < n implies (#[trigger] finish@[ii]
                        <==> order.contains(ii)) by {
                        if finish@[ii] {
                            if ii == i as int {
                                assert(order[order.len() - 1] == ii);
                            } else {
                                assert(old_finish[ii]);
                                let k = choose|k: int|
                                    0 <= k < old_order.len() && old_order[k] == ii;
                                assert(order[k] == ii);
                            }
                        } else {
                            if order.contains(ii) {
                                let k = choose|k: int| 0 <= k < order.len() && order[k] == ii;
                                assert(k < old_order.len());
                                assert(old_order.contains(ii));
                                assert(false);
                            }
                        }
                    }
                    assert(order_valid(order, work0, needs, allocs)) by {
                        assert forall|k: int| 0 <= k < order.len() implies row_le(
                            needs[order[k]],
                            #[trigger] work_along(order, k, work0, allocs),
                        ) by {
                            lemma_work_along_push(old_order, i as int, k, work0, allocs);
                            assert(work_along(order, k, work0, allocs) == work_along(old_order, k, work0, allocs));
                            if k < old_order.len() {
                                assert(order[k] == old_order[k]);
                                assert(row_le(needs[old_order[k]], work_along(old_order, k, work0, allocs)));
                            } else {
                                assert(order[k] == i as int);
                                assert(work_along(order, k, work0, allocs).len() == m);
                                assert forall|jj: int|
                                    0 <= jj < m implies needs[i as int][jj] <= work_along(order, k, work0, allocs)[jj] by {
                                    assert(needs[i as int][jj] <= old_work[jj]);
                                    assert(old_work[jj] == work_along(old_order, old_order.len() as int, work0, allocs)[jj]);
                                }
                                assert(row_le(needs[order[k]], work_along(order, k, work0, allocs)));
                            }
                        }
                    }
                    assert forall|j: int|
                        0 <= j < m implies ints(work@)[j] == #[trigger] work_along(order, order.len() as int, work0, allocs)[j] by {
                        assert(work_along(order, order.len() as int, work0, allocs) == add_alloc(
                            work_along(order, order.len() - 1, work0, allocs),
                            allocs[i as int],
                        ));
                        lemma_work_along_push(old_order, i as int, old_order.len() as int, work0, allocs);
                        assert(work_along(order, order.len() - 1, work0, allocs) == work_along(
                            old_order,
                            old_order.len() as int,
                            work0,
                            allocs,
                        ));
                        assert(ints(work@)[j] == old_work[j] + allocs[i as int][j]);
                    }
                    assert forall|j: int|
                        0 <= j < m implies ints(work@)[j] == work0[j] + fin_sum(finish@, allocs, n as int, j) by {
                        lemma_fin_sum_update(old_finish, allocs, i as int, true, n as int, j);
                    }
                    lemma_num_finished_update(old_finish, i as int, true, n as int);
                    lemma_num_finished_bounds(finish@, n as int);
                }
            },
            None => {
                again = false;
            },
        }
        proof {
            // keep the overflow bound available for the next grant
            assert forall|j: int|
                0 <= j < m implies ints(work@)[j] + (col_sum(allocs, n as int, j) - fin_sum(finish@, allocs, n as int, j)) <= i32::MAX by {
                assert forall|i: int| 0 <= i < n implies 0 <= #[trigger] allocs[i][j] by {}
                lemma_fin_sum_le_col_sum(finish@, allocs, n as int, j);
            }
        }
    }
    let done = all_finished(&finish);
    if done {
        proof {
            broadcast use lemma_work_along_len;

            assert forall|i: int| 0 <= i < needs.len() implies order.contains(i) by {
                assert(finish@[i]);
            }
            assert(is_safe_order(order, work0, needs, allocs));
        }
        true
    } else {
        proof {
            let w: Seq<int> = ints(work@);
            assert(exists|i: int| 0 <= i < n && !(#[trigger] finish@[i]));
            assert forall|i: int|
                0 <= i < finish@.len() && !finish@[i] implies !row_le(#[trigger] needs[i], w) by {}
            lemma_stuck_unsafe(work0, needs, allocs, finish@, w);
        }
        false
    }
}

/// Measure for the grant loop's progress flag.
pub open spec fn flag_measure(b: bool) -> int {
    if b {
        1int
    } else {
        0
    }
}

} // verus!
