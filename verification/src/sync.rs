//! Process-scoped synchronization: locks, counting semaphores and condition
//! variables, shared among a process's tasks, with a per-task ledger of
//! requested and held resources.  Before committing an acquisition,
//! `sys_mutex_lock` and `sys_semaphore_down` snapshot the ledger into the
//! banker's matrices and refuse the request when detection is enabled and the
//! resulting state would be unsafe; a refused request withdraws its intent
//! and leaves the process as it was.

use vstd::prelude::*;
use vstd::multiset::Multiset;

use crate::banker::banker_safe;
use crate::banker::check;
use crate::banker::col_sum;
use crate::banker::ints;
use crate::banker::mat;
use crate::banker::mat_dims;
use crate::banker::mat_nonneg;
use crate::task::Task;
use crate::task::TaskStatus;

verus! {

/// Error returned when an acquisition would make the state unsafe.
pub const WOULD_DEADLOCK: isize = -0xdead;

/// How many entries of `s` equal `x`.
pub open spec fn occ(s: Seq<usize>, x: int) -> int
    decreases s.len(),
{
    if s.len() == 0 {
        0
    } else {
        occ(s.drop_last(), x) + if s.last() == x {
            1int
        } else {
            0
        }
    }
}

/// Every entry of `s` is below `n`.
pub open spec fn ids_lt(s: Seq<usize>, n: int) -> bool {
    forall|k: int| 0 <= k < s.len() ==> #[trigger] s[k] < n
}

/// Sum over the first `k` lists of how often each holds `j`.
pub open spec fn col_held(ls: Seq<Seq<usize>>, k: int, j: int) -> int
    decreases k,
{
    if k <= 0 {
        0
    } else {
        col_held(ls, k - 1, j) + occ(ls[k - 1], j)
    }
}

/// Sum of the lengths of the first `k` lists.
pub open spec fn total_len(ls: Seq<Seq<usize>>, k: int) -> int
    decreases k,
{
    if k <= 0 {
        0
    } else {
        total_len(ls, k - 1) + ls[k - 1].len()
    }
}

proof fn lemma_occ_bounds(s: Seq<usize>, x: int)
    ensures
        0 <= occ(s, x) <= s.len(),
    decreases s.len(),
{
    if s.len() > 0 {
        lemma_occ_bounds(s.drop_last(), x);
    }
}

proof fn lemma_occ_push(s: Seq<usize>, v: usize, x: int)
    ensures
        occ(s.push(v), x) == occ(s, x) + if v == x {
            1int
        } else {
            0
        },
{
    assert(s.push(v).drop_last() =~= s);
}

proof fn lemma_occ_remove(s: Seq<usize>, k: int, x: int)
    requires
        0 <= k < s.len(),
    ensures
        occ(s.remove(k), x) == occ(s, x) - if s[k] == x {
            1int
        } else {
            0
        },
    decreases s.len(),
{
    if k == s.len() - 1 {
        assert(s.remove(k) =~= s.drop_last());
    } else {
        assert(s.remove(k).drop_last() =~= s.drop_last().remove(k));
        assert(s.remove(k).last() == s.last());
        lemma_occ_remove(s.drop_last(), k, x);
    }
}

proof fn lemma_occ_take_step(s: Seq<usize>, k: int, x: int)
    requires
        0 <= k < s.len(),
    ensures
        occ(s.take(k + 1), x) == occ(s.take(k), x) + if s[k] == x {
            1int
        } else {
            0
        },
{
    assert(s.take(k + 1).drop_last() =~= s.take(k));
    assert(s.take(k + 1).last() == s[k]);
}

proof fn lemma_occ_high_zero(s: Seq<usize>, n: int, x: int)
    requires
        ids_lt(s, n),
        x >= n,
    ensures
        occ(s, x) == 0,
    decreases s.len(),
{
    if s.len() > 0 {
        assert(ids_lt(s.drop_last(), n)) by {
            assert(forall|k: int|
                0 <= k < s.drop_last().len() ==> #[trigger] s.drop_last()[k] == s[k]);
        }
        lemma_occ_high_zero(s.drop_last(), n, x);
        assert(s.last() < n);
    }
}

proof fn lemma_col_held_nonneg(ls: Seq<Seq<usize>>, k: int, j: int)
    ensures
        0 <= col_held(ls, k, j),
    decreases k,
{
    if k > 0 {
        lemma_col_held_nonneg(ls, k - 1, j);
        lemma_occ_bounds(ls[k - 1], j);
    }
}

proof fn lemma_col_held_le_total(ls: Seq<Seq<usize>>, k: int, j: int)
    ensures
        col_held(ls, k, j) <= total_len(ls, k),
    decreases k,
{
    if k > 0 {
        lemma_col_held_le_total(ls, k - 1, j);
        lemma_occ_bounds(ls[k - 1], j);
    }
}

proof fn lemma_total_len_nonneg(ls: Seq<Seq<usize>>, k: int)
    ensures
        0 <= total_len(ls, k),
        forall|kk: int| 0 <= kk <= k ==> #[trigger] total_len(ls, kk) <= total_len(ls, k),
    decreases k,
{
    if k > 0 {
        lemma_total_len_nonneg(ls, k - 1);
    }
}

proof fn lemma_col_held_update(ls: Seq<Seq<usize>>, t: int, nl: Seq<usize>, k: int, j: int)
    requires
        0 <= t < ls.len(),
        k <= ls.len(),
    ensures
        col_held(ls.update(t, nl), k, j) == col_held(ls, k, j) + if t < k {
            occ(nl, j) - occ(ls[t], j)
        } else {
            0
        },
    decreases k,
{
    if k > 0 {
        lemma_col_held_update(ls, t, nl, k - 1, j);
    }
}

proof fn lemma_col_held_push(ls: Seq<Seq<usize>>, nl: Seq<usize>, k: int, j: int)
    requires
        0 <= k <= ls.len(),
    ensures
        col_held(ls.push(nl), k, j) == col_held(ls, k, j),
    decreases k,
{
    if k > 0 {
        lemma_col_held_push(ls, nl, k - 1, j);
    }
}

/// Build the row of how often each id below `m` occurs in `ids`.
fn count_row(ids: &Vec<usize>, m: usize) -> (row: Vec<i32>)
    requires
        ids_lt(ids@, m as int),
        ids@.len() <= i32::MAX,
    ensures
        row@.len() == m,
        forall|j: int| 0 <= j < m ==> ints(row@)[j] == occ(ids@, j),
{
    let mut row: Vec<i32> = Vec::new();
    while row.len() < m
        invariant
            row@.len() <= m,
            forall|j: int| 0 <= j < row@.len() ==> #[trigger] row@[j] == 0int,
        decreases m - row@.len(),
    {
        row.push(0);
    }
    proof {
        assert(ids@.take(0) =~= Seq::<usize>::empty());
    }
    let n = ids.len();
    for k in 0..n
        invariant
            n == ids@.len(),
            ids@.len() <= i32::MAX,
            ids_lt(ids@, m as int),
            row@.len() == m,
            forall|j: int| 0 <= j < m ==> #[trigger] row@[j] as int == occ(ids@.take(k as int), j),
    {
        let id = ids[k];
        assert(id < m);
        let cur: i32 = row[id];
        proof {
            assert(cur as int == occ(ids@.take(k as int), id as int));
            lemma_occ_bounds(ids@.take(k as int), id as int);
            assert(ids@.take(k as int).len() == k);
        }
        row.set(id, cur + 1);
        proof {
            assert forall|j: int|
                0 <= j < m implies #[trigger] row@[j] as int == occ(ids@.take(k as int + 1), j) by {
                lemma_occ_take_step(ids@, k as int, j);
            }
        }
    }
    proof {
        assert(ids@.take(n as int) =~= ids@);
        assert forall|j: int| 0 <= j < m implies ints(row@)[j] == occ(ids@, j) by {
            assert(row@[j] as int == occ(ids@, j));
        }
    }
    row
}

/// Subtract `row` from `work`, entry by entry.
fn subtract_row(work: &mut Vec<i32>, row: &Vec<i32>)
    requires
        old(work)@.len() == row@.len(),
        forall|j: int|
            0 <= j < row@.len() ==> i32::MIN <= old(work)@[j] as int - #[trigger] row@[j] as int
                <= i32::MAX,
    ensures
        final(work)@.len() == old(work)@.len(),
        forall|j: int|
            0 <= j < row@.len() ==> ints(final(work)@)[j] == ints(old(work)@)[j] - ints(row@)[j],
{
    let m = work.len();
    for j in 0..m
        invariant
            m == work@.len(),
            row@.len() == m,
            forall|jj: int|
                0 <= jj < m ==> i32::MIN <= old(work)@[jj] as int - #[trigger] row@[jj] as int
                    <= i32::MAX,
            forall|jj: int|
                0 <= jj < j ==> #[trigger] work@[jj] as int == old(work)@[jj] as int - row@[jj] as int,
            forall|jj: int| j <= jj < m ==> #[trigger] work@[jj] == old(work)@[jj],
    {
        let w: i32 = work[j];
        let d: i32 = row[j];
        proof {
            assert(w == old(work)@[j as int]);
        }
        work.set(j, w - d);
    }
    proof {
        assert forall|j: int|
            0 <= j < row@.len() implies ints(work@)[j] == ints(old(work)@)[j] - ints(row@)[j] by {
            assert(work@[j] as int == old(work)@[j] as int - row@[j] as int);
        }
    }
}

/// Remove the first occurrence of `x` from `v`, if any; report whether one
/// was found.
fn remove_first(v: &mut Vec<usize>, x: usize) -> (found: bool)
    ensures
        found == (occ(old(v)@, x as int) > 0),
        forall|j: int|
            occ(final(v)@, j) == occ(old(v)@, j) - if found && j == x {
                1int
            } else {
                0
            },
        final(v)@.len() == old(v)@.len() - if found {
            1int
        } else {
            0
        },
        final(v)@.to_multiset() == old(v)@.to_multiset().remove(x) || (!found && final(v)@
            == old(v)@),
        !found ==> final(v)@ == old(v)@,
        found ==> exists|k: int|
            0 <= k < old(v)@.len() && old(v)@[k] == x && final(v)@ == #[trigger] old(v)@.remove(k),
{
    let n = v.len();
    let mut idx: usize = 0;
    while idx < n
        invariant
            n == v@.len(),
            idx <= n,
            v@ == old(v)@,
            forall|k: int| 0 <= k < idx ==> old(v)@[k] != x,
        decreases n - idx,
    {
        if v[idx] == x {
            let ghost pre: Seq<usize> = v@;
            v.remove(idx);
            proof {
                assert forall|j: int|
                    occ(v@, j) == occ(old(v)@, j) - (if j == x {
                        1int
                    } else {
                        0
                    }) by {
                    lemma_occ_remove(pre, idx as int, j);
                }
                lemma_occ_remove(pre, idx as int, x as int);
                lemma_occ_bounds(v@, x as int);
                assert(occ(pre, x as int) > 0);
                pre.to_multiset_ensures();
                v@.to_multiset_ensures();
                assert(v@ =~= pre.subrange(0, idx as int) + pre.subrange(
                    idx as int + 1,
                    pre.len() as int,
                ));
                assert(pre =~= pre.subrange(0, idx as int) + seq![pre[idx as int]] + pre.subrange(
                    idx as int + 1,
                    pre.len() as int,
                ));
                vstd::seq_lib::lemma_multiset_commutative(
                    pre.subrange(0, idx as int),
                    pre.subrange(idx as int + 1, pre.len() as int),
                );
                vstd::seq_lib::lemma_multiset_commutative(
                    pre.subrange(0, idx as int) + seq![pre[idx as int]],
                    pre.subrange(idx as int + 1, pre.len() as int),
                );
                vstd::seq_lib::lemma_multiset_commutative(
                    pre.subrange(0, idx as int),
                    seq![pre[idx as int]],
                );
                assert(v@.to_multiset() == pre.to_multiset().remove(x)) by {
                    assert(seq![pre[idx as int]].to_multiset() =~= Multiset::<
                        usize,
                    >::empty().insert(x)) by {
                        seq![pre[idx as int]].to_multiset_ensures();
                        assert(seq![pre[idx as int]].drop_last() =~= Seq::<usize>::empty());
                    }
                    assert(pre.to_multiset() =~= v@.to_multiset().insert(x));
                    assert(pre.to_multiset().remove(x) =~= v@.to_multiset());
                }
            }
            return true;
        }
        idx = idx + 1;
    }
    proof {
        lemma_occ_take_all_misses(v@, x as int);
    }
    false
}

proof fn lemma_occ_take_all_misses(s: Seq<usize>, x: int)
    requires
        forall|k: int| 0 <= k < s.len() ==> s[k] != x,
    ensures
        occ(s, x) == 0,
    decreases s.len(),
{
    if s.len() > 0 {
        lemma_occ_take_all_misses(s.drop_last(), x);
    }
}

/// First unused slot of a handle table, if any.
fn first_free_slot<T>(list: &Vec<Option<T>>) -> (r: Option<usize>)
    ensures
        match r {
            Some(i) => i < list@.len() && list@[i as int] is None && forall|k: int|
                0 <= k < i ==> (#[trigger] list@[k]) is Some,
            None => forall|k: int| 0 <= k < list@.len() ==> (#[trigger] list@[k]) is Some,
        },
{
    let n = list.len();
    for i in 0..n
        invariant
            n == list@.len(),
            forall|k: int| 0 <= k < i ==> (#[trigger] list@[k]) is Some,
    {
        if list[i].is_none() {
            return Some(i);
        }
    }
    None
}


/// A lock shared by a process's tasks: at most one owner, FIFO handoff.
/// Under the blocking strategy a contender is suspended; under the spinning
/// strategy it stays ready and yields between retries, but is queued for
/// handoff all the same.
pub struct MutexState {
    pub blocking: bool,
    pub owner: Option<usize>,
    pub wait_queue: Vec<usize>,
}

/// A counting semaphore: a signed count and a FIFO wait list.  A negative
/// count records how many tasks are blocked on it.
pub struct SemState {
    pub count: i64,
    pub wait_queue: Vec<usize>,
}

/// A condition variable: a FIFO wait list only.
pub struct CondvarState {
    pub wait_queue: Vec<usize>,
}

/// The per-task held-semaphore lists: the detector's allocation view.
pub open spec fn sem_holds(tasks: Seq<Task>) -> Seq<Seq<usize>> {
    tasks.map_values(|t: Task| t.allocated_sem_id@)
}

/// The per-task requested-semaphore lists: the detector's need view.
pub open spec fn sem_applies(tasks: Seq<Task>) -> Seq<Seq<usize>> {
    tasks.map_values(|t: Task| t.apply_sem_id@)
}

/// The per-task held-lock lists.
pub open spec fn mutex_holds(tasks: Seq<Task>) -> Seq<Seq<usize>> {
    tasks.map_values(|t: Task| t.allocated_mutex_id@)
}

/// The per-task requested-lock lists.
pub open spec fn mutex_applies(tasks: Seq<Task>) -> Seq<Seq<usize>> {
    tasks.map_values(|t: Task| t.apply_mutex_id@)
}

/// A task's ledger only references ids inside the handle tables.
pub open spec fn task_ids_wf(t: Task, nm: int, ns: int) -> bool {
    &&& ids_lt(t.apply_mutex_id@, nm)
    &&& ids_lt(t.allocated_mutex_id@, nm)
    &&& ids_lt(t.apply_sem_id@, ns)
    &&& ids_lt(t.allocated_sem_id@, ns)
}

/// A lock slot is sound: owner and waiters name existing tasks.
pub open spec fn mutex_slot_wf(slot: Option<MutexState>, n: int) -> bool {
    match slot {
        None => true,
        Some(mx) => {
            &&& match mx.owner {
                None => true,
                Some(o) => o < n,
            }
            &&& ids_lt(mx.wait_queue@, n)
        },
    }
}

/// A semaphore slot is sound: waiters name existing tasks, the wait list's
/// length mirrors a negative count, and the duplicated available counter
/// never diverges from the true count - it always equals the count plus the
/// units held across all tasks.
pub open spec fn sem_slot_wf(slot: Option<SemState>, n: int, avail: int, held: int) -> bool {
    match slot {
        None => held == 0,
        Some(sem) => {
            &&& ids_lt(sem.wait_queue@, n)
            &&& sem.wait_queue@.len() == if sem.count < 0 {
                -(sem.count as int)
            } else {
                0int
            }
            &&& avail == sem.count + held
        },
    }
}

/// A condition-variable slot is sound: waiters name existing tasks.
pub open spec fn condvar_slot_wf(slot: Option<CondvarState>, n: int) -> bool {
    match slot {
        None => true,
        Some(cv) => ids_lt(cv.wait_queue@, n),
    }
}

/// A process: its tasks, the three handle tables (a freed slot is reused
/// before the table grows), the per-semaphore available counter read by the
/// deadlock detector, and the detection flag (on when nonzero).
pub struct Process {
    pub tasks: Vec<Task>,
    pub mutex_list: Vec<Option<MutexState>>,
    pub semaphore_list: Vec<Option<SemState>>,
    pub semaphore_available: Vec<usize>,
    pub condvar_list: Vec<Option<CondvarState>>,
    pub need_deadlock: usize,
}

impl Process {
    /// Every ledger id points into the tables, every slot is sound, and the
    /// available counters balance the semaphore counts.
    pub open spec fn wf(self) -> bool {
        &&& self.semaphore_available@.len() == self.semaphore_list@.len()
        &&& forall|t: int|
            0 <= t < self.tasks@.len() ==> task_ids_wf(
                #[trigger] self.tasks@[t],
                self.mutex_list@.len() as int,
                self.semaphore_list@.len() as int,
            )
        &&& forall|m: int|
            0 <= m < self.mutex_list@.len() ==> mutex_slot_wf(
                #[trigger] self.mutex_list@[m],
                self.tasks@.len() as int,
            )
        &&& forall|j: int|
            0 <= j < self.semaphore_list@.len() ==> sem_slot_wf(
                #[trigger] self.semaphore_list@[j],
                self.tasks@.len() as int,
                self.semaphore_available@[j] as int,
                col_held(sem_holds(self.tasks@), self.tasks@.len() as int, j),
            )
        &&& forall|c: int|
            0 <= c < self.condvar_list@.len() ==> condvar_slot_wf(
                #[trigger] self.condvar_list@[c],
                self.tasks@.len() as int,
            )
    }

    /// A fresh process: no tasks, empty handle tables, detection off.
    pub fn new() -> (p: Process)
        ensures
            p.wf(),
            p.tasks@.len() == 0,
            p.mutex_list@.len() == 0,
            p.semaphore_list@.len() == 0,
            p.semaphore_available@.len() == 0,
            p.condvar_list@.len() == 0,
            p.need_deadlock == 0,
    {
        Process {
            tasks: Vec::new(),
            mutex_list: Vec::new(),
            semaphore_list: Vec::new(),
            semaphore_available: Vec::new(),
            condvar_list: Vec::new(),
            need_deadlock: 0,
        }
    }
}

/// The handle tables, counters and flag of `a` and `b` agree.
pub open spec fn same_handles(a: Process, b: Process) -> bool {
    &&& a.mutex_list@ == b.mutex_list@
    &&& a.semaphore_list@ == b.semaphore_list@
    &&& a.semaphore_available@ == b.semaphore_available@
    &&& a.condvar_list@ == b.condvar_list@
    &&& a.need_deadlock == b.need_deadlock
}

/// Two task lists with the same held-semaphore lists have the same detector
/// sums.
proof fn lemma_sem_holds_same(tasks: Seq<Task>, tasks2: Seq<Task>)
    requires
        tasks2.len() == tasks.len(),
        forall|t: int|
            0 <= t < tasks.len() ==> (#[trigger] tasks2[t]).allocated_sem_id@
                == tasks[t].allocated_sem_id@,
    ensures
        sem_holds(tasks2) == sem_holds(tasks),
{
    assert(sem_holds(tasks2) =~~= sem_holds(tasks));
}

/// Ids at or above every list's bound never occur, so their column sums are
/// zero.
proof fn lemma_col_held_high_zero(ls: Seq<Seq<usize>>, k: int, n: int, j: int)
    requires
        k <= ls.len(),
        forall|i: int| 0 <= i < ls.len() ==> ids_lt(#[trigger] ls[i], n),
        j >= n,
    ensures
        col_held(ls, k, j) == 0,
    decreases k,
{
    if k > 0 {
        lemma_col_held_high_zero(ls, k - 1, n, j);
        lemma_occ_high_zero(ls[k - 1], n, j);
    }
}

/// Create a task in this process, ready to run, and return its id.
pub fn spawn(p: &mut Process, priority: u64) -> (tid: usize)
    requires
        old(p).wf(),
        priority >= 1,
        old(p).tasks@.len() < usize::MAX,
    ensures
        final(p).wf(),
        tid == old(p).tasks@.len(),
        final(p).tasks@.len() == old(p).tasks@.len() + 1,
        forall|t: int| 0 <= t < old(p).tasks@.len() ==> final(p).tasks@[t] == old(p).tasks@[t],
        final(p).tasks@[tid as int].status is Ready,
        final(p).tasks@[tid as int].stride == 0,
        final(p).tasks@[tid as int].priority == priority,
        final(p).tasks@[tid as int].apply_mutex_id@.len() == 0,
        final(p).tasks@[tid as int].allocated_mutex_id@.len() == 0,
        final(p).tasks@[tid as int].apply_sem_id@.len() == 0,
        final(p).tasks@[tid as int].allocated_sem_id@.len() == 0,
        same_handles(*final(p), *old(p)),
{
    let t = Task::new(priority);
    let tid = p.tasks.len();
    p.tasks.push(t);
    proof {
        let n = old(p).tasks@.len() as int;
        assert(sem_holds(p.tasks@) =~~= sem_holds(old(p).tasks@).push(Seq::<usize>::empty()));
        assert forall|j: int|
            0 <= j < p.semaphore_list@.len() implies sem_slot_wf(
            #[trigger] p.semaphore_list@[j],
            p.tasks@.len() as int,
            p.semaphore_available@[j] as int,
            col_held(sem_holds(p.tasks@), p.tasks@.len() as int, j),
        ) by {
            lemma_col_held_push(sem_holds(old(p).tasks@), Seq::<usize>::empty(), n, j);
            assert(col_held(sem_holds(p.tasks@), n + 1, j) == col_held(
                sem_holds(old(p).tasks@),
                n,
                j,
            ) + occ(Seq::<usize>::empty(), j));
            assert(sem_slot_wf(
                old(p).semaphore_list@[j],
                n,
                old(p).semaphore_available@[j] as int,
                col_held(sem_holds(old(p).tasks@), n, j),
            ));
        }
    }
    tid
}

/// The current task gives up the processor: it becomes ready again, to be
/// re-enqueued by the dispatcher.
pub fn sys_yield(p: &mut Process, tid: usize) -> (r: isize)
    requires
        old(p).wf(),
        tid < old(p).tasks@.len(),
    ensures
        final(p).wf(),
        r == 0,
        final(p).tasks@ == old(p).tasks@.update(
            tid as int,
            (Task { status: TaskStatus::Ready, ..old(p).tasks@[tid as int] }),
        ),
        same_handles(*final(p), *old(p)),
{
    p.tasks[tid].status = TaskStatus::Ready;
    proof {
        lemma_sem_holds_same(old(p).tasks@, p.tasks@);
    }
    0
}

/// The current task exits: it becomes a zombie and is never scheduled again.
/// Releasing its resources is the exiting task's responsibility, not
/// automatic.
pub fn sys_exit(p: &mut Process, tid: usize) -> (r: isize)
    requires
        old(p).wf(),
        tid < old(p).tasks@.len(),
    ensures
        final(p).wf(),
        r == 0,
        final(p).tasks@ == old(p).tasks@.update(
            tid as int,
            (Task { status: TaskStatus::Zombie, ..old(p).tasks@[tid as int] }),
        ),
        same_handles(*final(p), *old(p)),
{
    p.tasks[tid].status = TaskStatus::Zombie;
    proof {
        lemma_sem_holds_same(old(p).tasks@, p.tasks@);
    }
    0
}

/// The current task sleeps: it blocks until an external timer, armed for the
/// returned instant `now_ms + ms`, re-enqueues it.
pub fn sys_sleep(p: &mut Process, tid: usize, now_ms: usize, ms: usize) -> (expire_ms: usize)
    requires
        old(p).wf(),
        tid < old(p).tasks@.len(),
        now_ms + ms <= usize::MAX,
    ensures
        final(p).wf(),
        expire_ms == now_ms + ms,
        final(p).tasks@ == old(p).tasks@.update(
            tid as int,
            (Task { status: TaskStatus::Blocked, ..old(p).tasks@[tid as int] }),
        ),
        same_handles(*final(p), *old(p)),
{
    p.tasks[tid].status = TaskStatus::Blocked;
    proof {
        lemma_sem_holds_same(old(p).tasks@, p.tasks@);
    }
    now_ms + ms
}

/// Switch deadlock detection for this process; nonzero enables it.
pub fn sys_enable_deadlock_detect(p: &mut Process, enabled: usize) -> (r: isize)
    requires
        old(p).wf(),
    ensures
        final(p).wf(),
        r == 0,
        final(p).need_deadlock == enabled,
        final(p).tasks@ == old(p).tasks@,
        final(p).mutex_list@ == old(p).mutex_list@,
        final(p).semaphore_list@ == old(p).semaphore_list@,
        final(p).semaphore_available@ == old(p).semaphore_available@,
        final(p).condvar_list@ == old(p).condvar_list@,
{
    p.need_deadlock = enabled;
    0
}


/// Handle `id` names a live lock.
pub open spec fn valid_mutex(p: Process, id: int) -> bool {
    0 <= id < p.mutex_list@.len() && p.mutex_list@[id] is Some
}

/// Handle `id` names a live semaphore.
pub open spec fn valid_sem(p: Process, id: int) -> bool {
    0 <= id < p.semaphore_list@.len() && p.semaphore_list@[id] is Some
}

/// Handle `id` names a live condition variable.
pub open spec fn valid_condvar(p: Process, id: int) -> bool {
    0 <= id < p.condvar_list@.len() && p.condvar_list@[id] is Some
}

/// `b` is `a` with at most its status changed.
pub open spec fn same_but_status(a: Task, b: Task) -> bool {
    &&& b.stride == a.stride
    &&& b.priority == a.priority
    &&& b.apply_mutex_id@ == a.apply_mutex_id@
    &&& b.allocated_mutex_id@ == a.allocated_mutex_id@
    &&& b.apply_sem_id@ == a.apply_sem_id@
    &&& b.allocated_sem_id@ == a.allocated_sem_id@
}

/// `b` is `a` with one held unit of semaphore `id` dropped from its ledger
/// (nothing dropped when it held none); status aside, all else is unchanged.
pub open spec fn task_released_sem(a: Task, b: Task, id: usize) -> bool {
    &&& b.stride == a.stride
    &&& b.priority == a.priority
    &&& b.apply_mutex_id@ == a.apply_mutex_id@
    &&& b.allocated_mutex_id@ == a.allocated_mutex_id@
    &&& b.apply_sem_id@ == a.apply_sem_id@
    &&& forall|j: int|
        #[trigger] occ(b.allocated_sem_id@, j) == occ(a.allocated_sem_id@, j) - (if occ(
            a.allocated_sem_id@,
            id as int,
        ) > 0 && j == id {
            1int
        } else {
            0
        })
    &&& (occ(a.allocated_sem_id@, id as int) > 0 ==> b.allocated_sem_id@.to_multiset()
        == a.allocated_sem_id@.to_multiset().remove(id))
    &&& (occ(a.allocated_sem_id@, id as int) == 0 ==> b.allocated_sem_id@ == a.allocated_sem_id@)
}

/// The fresh lock a create call installs.
pub open spec fn fresh_mutex(slot: Option<MutexState>, blocking: bool) -> bool {
    match slot {
        Some(mx) => mx.blocking == blocking && mx.owner is None && mx.wait_queue@.len() == 0,
        None => false,
    }
}

/// The fresh semaphore a create call installs.
pub open spec fn fresh_sem(slot: Option<SemState>, res_count: usize) -> bool {
    match slot {
        Some(sem) => sem.count == res_count as i64 && sem.wait_queue@.len() == 0,
        None => false,
    }
}

/// Create a lock, spinning or blocking, reusing the first free table slot
/// before growing the table, and return its handle id.
pub fn sys_mutex_create(p: &mut Process, blocking: bool) -> (r: isize)
    requires
        old(p).wf(),
        old(p).mutex_list@.len() < isize::MAX,
    ensures
        final(p).wf(),
        r >= 0,
        final(p).tasks@ == old(p).tasks@,
        final(p).semaphore_list@ == old(p).semaphore_list@,
        final(p).semaphore_available@ == old(p).semaphore_available@,
        final(p).condvar_list@ == old(p).condvar_list@,
        final(p).need_deadlock == old(p).need_deadlock,
        ({
            let id = r as int;
            &&& 0 <= id <= old(p).mutex_list@.len()
            &&& (id < old(p).mutex_list@.len() ==> old(p).mutex_list@[id] is None && forall|k: int|
                0 <= k < id ==> (#[trigger] old(p).mutex_list@[k]) is Some)
            &&& (id == old(p).mutex_list@.len() ==> forall|k: int|
                0 <= k < id ==> (#[trigger] old(p).mutex_list@[k]) is Some)
            &&& final(p).mutex_list@.len() == if id < old(p).mutex_list@.len() {
                old(p).mutex_list@.len() as int
            } else {
                old(p).mutex_list@.len() as int + 1
            }
            &&& forall|k: int|
                0 <= k < old(p).mutex_list@.len() && k != id ==> final(p).mutex_list@[k] == old(p).mutex_list@[k]
            &&& fresh_mutex(final(p).mutex_list@[id], blocking)
        }),
{
    let fresh = MutexState { blocking, owner: None, wait_queue: Vec::new() };
    match first_free_slot(&p.mutex_list) {
        Some(id) => {
            p.mutex_list.set(id, Some(fresh));
            id as isize
        },
        None => {
            let id = p.mutex_list.len();
            p.mutex_list.push(Some(fresh));
            id as isize
        },
    }
}

/// Create a counting semaphore with `res_count` initial units, reusing the
/// first free table slot before growing the table, and return its handle id.
/// The available counter of the slot starts at the same count.
pub fn sys_semaphore_create(p: &mut Process, res_count: usize) -> (r: isize)
    requires
        old(p).wf(),
        old(p).semaphore_list@.len() < isize::MAX,
        res_count <= i64::MAX as usize,
    ensures
        final(p).wf(),
        r >= 0,
        final(p).tasks@ == old(p).tasks@,
        final(p).mutex_list@ == old(p).mutex_list@,
        final(p).condvar_list@ == old(p).condvar_list@,
        final(p).need_deadlock == old(p).need_deadlock,
        ({
            let id = r as int;
            &&& 0 <= id <= old(p).semaphore_list@.len()
            &&& (id < old(p).semaphore_list@.len() ==> old(p).semaphore_list@[id] is None
                && forall|k: int|
                0 <= k < id ==> (#[trigger] old(p).semaphore_list@[k]) is Some)
            &&& (id == old(p).semaphore_list@.len() ==> forall|k: int|
                0 <= k < id ==> (#[trigger] old(p).semaphore_list@[k]) is Some)
            &&& final(p).semaphore_list@.len() == if id < old(p).semaphore_list@.len() {
                old(p).semaphore_list@.len() as int
            } else {
                old(p).semaphore_list@.len() as int + 1
            }
            &&& final(p).semaphore_available@.len() == final(p).semaphore_list@.len()
            &&& forall|k: int|
                0 <= k < old(p).semaphore_list@.len() && k != id ==> final(p).semaphore_list@[k]
                    == old(p).semaphore_list@[k]
            &&& forall|k: int|
                0 <= k < old(p).semaphore_list@.len() && k != id
                    ==> final(p).semaphore_available@[k] == old(p).semaphore_available@[k]
            &&& fresh_sem(final(p).semaphore_list@[id], res_count)
            &&& final(p).semaphore_available@[id] == res_count
        }),
{
    let fresh = SemState { count: res_count as i64, wait_queue: Vec::new() };
    match first_free_slot(&p.semaphore_list) {
        Some(id) => {
            p.semaphore_list.set(id, Some(fresh));
            p.semaphore_available.set(id, res_count);
            proof {
                assert forall|j: int|
                    0 <= j < p.semaphore_list@.len() implies sem_slot_wf(
                    #[trigger] p.semaphore_list@[j],
                    p.tasks@.len() as int,
                    p.semaphore_available@[j] as int,
                    col_held(sem_holds(p.tasks@), p.tasks@.len() as int, j),
                ) by {
                    assert(sem_slot_wf(
                        old(p).semaphore_list@[j],
                        old(p).tasks@.len() as int,
                        old(p).semaphore_available@[j] as int,
                        col_held(sem_holds(old(p).tasks@), old(p).tasks@.len() as int, j),
                    ));
                }
            }
            id as isize
        },
        None => {
            let id = p.semaphore_list.len();
            p.semaphore_list.push(Some(fresh));
            p.semaphore_available.push(res_count);
            proof {
                let n = p.tasks@.len() as int;
                assert forall|j: int|
                    0 <= j < p.semaphore_list@.len() implies sem_slot_wf(
                    #[trigger] p.semaphore_list@[j],
                    n,
                    p.semaphore_available@[j] as int,
                    col_held(sem_holds(p.tasks@), n, j),
                ) by {
                    if j < id {
                        assert(sem_slot_wf(
                            old(p).semaphore_list@[j],
                            n,
                            old(p).semaphore_available@[j] as int,
                            col_held(sem_holds(old(p).tasks@), n, j),
                        ));
                    } else {
                        assert forall|i: int|
                            0 <= i < sem_holds(p.tasks@).len() implies ids_lt(
                            #[trigger] sem_holds(p.tasks@)[i],
                            id as int,
                        ) by {
                            assert(task_ids_wf(
                                p.tasks@[i],
                                p.mutex_list@.len() as int,
                                old(p).semaphore_list@.len() as int,
                            ));
                        }
                        lemma_col_held_high_zero(sem_holds(p.tasks@), n, id as int, j);
                    }
                }
                assert forall|t: int|
                    0 <= t < p.tasks@.len() implies task_ids_wf(
                    #[trigger] p.tasks@[t],
                    p.mutex_list@.len() as int,
                    p.semaphore_list@.len() as int,
                ) by {
                    assert(task_ids_wf(
                        p.tasks@[t],
                        p.mutex_list@.len() as int,
                        old(p).semaphore_list@.len() as int,
                    ));
                }
            }
            id as isize
        },
    }
}

/// Create a condition variable, reusing the first free table slot before
/// growing the table, and return its handle id.
pub fn sys_condvar_create(p: &mut Process) -> (r: isize)
    requires
        old(p).wf(),
        old(p).condvar_list@.len() < isize::MAX,
    ensures
        final(p).wf(),
        r >= 0,
        final(p).tasks@ == old(p).tasks@,
        final(p).mutex_list@ == old(p).mutex_list@,
        final(p).semaphore_list@ == old(p).semaphore_list@,
        final(p).semaphore_available@ == old(p).semaphore_available@,
        final(p).need_deadlock == old(p).need_deadlock,
        ({
            let id = r as int;
            &&& 0 <= id <= old(p).condvar_list@.len()
            &&& (id < old(p).condvar_list@.len() ==> old(p).condvar_list@[id] is None && forall|k: int|
                0 <= k < id ==> (#[trigger] old(p).condvar_list@[k]) is Some)
            &&& (id == old(p).condvar_list@.len() ==> forall|k: int|
                0 <= k < id ==> (#[trigger] old(p).condvar_list@[k]) is Some)
            &&& final(p).condvar_list@.len() == if id < old(p).condvar_list@.len() {
                old(p).condvar_list@.len() as int
            } else {
                old(p).condvar_list@.len() as int + 1
            }
            &&& forall|k: int|
                0 <= k < old(p).condvar_list@.len() && k != id ==> final(p).condvar_list@[k]
                    == old(p).condvar_list@[k]
            &&& final(p).condvar_list@[id] is Some
            &&& final(p).condvar_list@[id].unwrap().wait_queue@.len() == 0
        }),
{
    let fresh = CondvarState { wait_queue: Vec::new() };
    match first_free_slot(&p.condvar_list) {
        Some(id) => {
            p.condvar_list.set(id, Some(fresh));
            id as isize
        },
        None => {
            let id = p.condvar_list.len();
            p.condvar_list.push(Some(fresh));
            id as isize
        },
    }
}


/// Release one semaphore unit.  One held unit of `sem_id` leaves the
/// caller's ledger; a task that held none contributes a produced unit to the
/// available counter instead, keeping it balanced with the count.  The count
/// rises by one, and when it was negative the head waiter is woken.
pub fn sys_semaphore_up(p: &mut Process, tid: usize, sem_id: usize) -> (r: isize)
    requires
        old(p).wf(),
        tid < old(p).tasks@.len(),
        valid_sem(*old(p), sem_id as int) ==> old(p).semaphore_list@[sem_id as int].unwrap().count
            < i64::MAX && old(p).semaphore_available@[sem_id as int] < usize::MAX,
    ensures
        final(p).wf(),
        r == 0 || r == -1,
        (r == -1) <==> !valid_sem(*old(p), sem_id as int),
        r == -1 ==> *final(p) == *old(p),
        r == 0 ==> ({
            let n = old(p).tasks@.len() as int;
            let os = old(p).semaphore_list@[sem_id as int].unwrap();
            let held0 = occ(old(p).tasks@[tid as int].allocated_sem_id@, sem_id as int);
            &&& final(p).tasks@.len() == n
            &&& task_released_sem(old(p).tasks@[tid as int], final(p).tasks@[tid as int], sem_id)
            &&& forall|t: int|
                0 <= t < n && t != tid && !(os.count < 0 && t == os.wait_queue@[0]) ==> final(p).tasks@[t] == old(p).tasks@[t]
            &&& (os.count < 0 ==> final(p).tasks@[os.wait_queue@[0] as int].status is Ready)
            &&& (os.count < 0 && os.wait_queue@[0] != tid ==> same_but_status(
                old(p).tasks@[os.wait_queue@[0] as int],
                final(p).tasks@[os.wait_queue@[0] as int],
            ))
            &&& (!(os.count < 0 && os.wait_queue@[0] == tid) ==> final(p).tasks@[tid as int].status
                == old(p).tasks@[tid as int].status)
            &&& final(p).mutex_list@ == old(p).mutex_list@
            &&& final(p).condvar_list@ == old(p).condvar_list@
            &&& final(p).need_deadlock == old(p).need_deadlock
            &&& final(p).semaphore_list@.len() == old(p).semaphore_list@.len()
            &&& forall|k: int|
                0 <= k < old(p).semaphore_list@.len() && k != sem_id ==> final(p).semaphore_list@[k] == old(p).semaphore_list@[k]
            &&& final(p).semaphore_list@[sem_id as int] is Some
            &&& ({
                let ns = final(p).semaphore_list@[sem_id as int].unwrap();
                &&& ns.count == os.count + 1
                &&& (os.count < 0 ==> ns.wait_queue@ == os.wait_queue@.subrange(
                    1,
                    os.wait_queue@.len() as int,
                ))
                &&& (os.count >= 0 ==> ns.wait_queue@ == os.wait_queue@)
            })
            &&& (held0 > 0 ==> final(p).semaphore_available@ == old(p).semaphore_available@)
            &&& (held0 == 0 ==> final(p).semaphore_available@ == old(p).semaphore_available@.update(
                sem_id as int,
                ((old(p).semaphore_available@[sem_id as int] + 1) as usize),
            ))
        }),
{
    if sem_id >= p.semaphore_list.len() {
        return -1;
    }
    if p.semaphore_list[sem_id].is_none() {
        return -1;
    }
    let found = remove_first(&mut p.tasks[tid].allocated_sem_id, sem_id);
    if !found {
        let a: usize = p.semaphore_available[sem_id];
        p.semaphore_available.set(sem_id, a + 1);
    }
    let mut woke: Option<usize> = None;
    match &mut p.semaphore_list[sem_id] {
        Some(sem) => {
            let c: i64 = sem.count;
            sem.count = c + 1;
            if c < 0 {
                proof {
                    assert(sem.wait_queue@.len() > 0);
                }
                let w = sem.wait_queue.remove(0);
                woke = Some(w);
            }
        },
        None => {
            proof {
                assert(false);
            }
        },
    }
    if let Some(w) = woke {
        proof {
            assert(w < p.tasks@.len());
        }
        p.tasks[w].status = TaskStatus::Ready;
    }
    proof {
        let n = old(p).tasks@.len() as int;
        let hold0 = sem_holds(old(p).tasks@);
        let hold1 = sem_holds(p.tasks@);
        assert(hold1 =~~= hold0.update(tid as int, p.tasks@[tid as int].allocated_sem_id@));
        assert forall|j: int|
            0 <= j < p.semaphore_list@.len() implies col_held(hold1, n, j) == col_held(hold0, n, j)
                - (if found && j == sem_id {
                1int
            } else {
                0
            }) by {
            lemma_col_held_update(hold0, tid as int, p.tasks@[tid as int].allocated_sem_id@, n, j);
        }
        assert forall|t: int|
            0 <= t < n implies task_ids_wf(
            #[trigger] p.tasks@[t],
            p.mutex_list@.len() as int,
            p.semaphore_list@.len() as int,
        ) by {
            assert(task_ids_wf(
                old(p).tasks@[t],
                p.mutex_list@.len() as int,
                p.semaphore_list@.len() as int,
            ));
            if t == tid {
                if found {
                    let k = choose|k: int|
                        0 <= k < old(p).tasks@[tid as int].allocated_sem_id@.len() && old(p).tasks@[tid as int].allocated_sem_id@[k] == sem_id && p.tasks@[tid as int].allocated_sem_id@
                            == #[trigger] old(p).tasks@[tid as int].allocated_sem_id@.remove(k);
                    old(p).tasks@[tid as int].allocated_sem_id@.remove_ensures(k);
                }
            }
        }
        assert forall|j: int|
            0 <= j < p.semaphore_list@.len() implies sem_slot_wf(
            #[trigger] p.semaphore_list@[j],
            n,
            p.semaphore_available@[j] as int,
            col_held(hold1, n, j),
        ) by {
            assert(sem_slot_wf(
                old(p).semaphore_list@[j],
                n,
                old(p).semaphore_available@[j] as int,
                col_held(hold0, n, j),
            ));
            if j == sem_id {
                let os = old(p).semaphore_list@[sem_id as int].unwrap();
                if os.count < 0 {
                    assert(p.semaphore_list@[j].unwrap().wait_queue@ == os.wait_queue@.subrange(
                        1,
                        os.wait_queue@.len() as int,
                    ));
                    assert(ids_lt(p.semaphore_list@[j].unwrap().wait_queue@, n)) by {
                        assert forall|k: int|
                            0 <= k < p.semaphore_list@[j].unwrap().wait_queue@.len() implies (
                        #[trigger] p.semaphore_list@[j].unwrap().wait_queue@[k]) < n by {
                            assert(p.semaphore_list@[j].unwrap().wait_queue@[k] == os.wait_queue@[k
                                + 1]);
                        }
                    }
                }
            }
        }
    }
    0
}

/// Release a lock.  The lock id leaves the caller's held ledger (when
/// present); ownership is handed directly to the head waiter, which becomes
/// ready, or the lock becomes free when nobody waits.
pub fn sys_mutex_unlock(p: &mut Process, tid: usize, mutex_id: usize) -> (r: isize)
    requires
        old(p).wf(),
        tid < old(p).tasks@.len(),
    ensures
        final(p).wf(),
        r == 0 || r == -1,
        (r == -1) <==> !valid_mutex(*old(p), mutex_id as int),
        r == -1 ==> *final(p) == *old(p),
        r == 0 ==> ({
            let n = old(p).tasks@.len() as int;
            let om = old(p).mutex_list@[mutex_id as int].unwrap();
            let waking = om.wait_queue@.len() > 0;
            &&& final(p).tasks@.len() == n
            &&& final(p).semaphore_list@ == old(p).semaphore_list@
            &&& final(p).semaphore_available@ == old(p).semaphore_available@
            &&& final(p).condvar_list@ == old(p).condvar_list@
            &&& final(p).need_deadlock == old(p).need_deadlock
            &&& final(p).mutex_list@.len() == old(p).mutex_list@.len()
            &&& forall|k: int|
                0 <= k < old(p).mutex_list@.len() && k != mutex_id ==> final(p).mutex_list@[k]
                    == old(p).mutex_list@[k]
            &&& final(p).mutex_list@[mutex_id as int] is Some
            &&& ({
                let nm = final(p).mutex_list@[mutex_id as int].unwrap();
                &&& nm.blocking == om.blocking
                &&& (waking ==> nm.owner == Some(om.wait_queue@[0]) && nm.wait_queue@
                    == om.wait_queue@.subrange(1, om.wait_queue@.len() as int))
                &&& (!waking ==> nm.owner is None && nm.wait_queue@ == om.wait_queue@)
            })
            &&& (waking ==> final(p).tasks@[om.wait_queue@[0] as int].status is Ready)
            &&& (waking && om.wait_queue@[0] != tid ==> same_but_status(
                old(p).tasks@[om.wait_queue@[0] as int],
                final(p).tasks@[om.wait_queue@[0] as int],
            ))
            &&& (!(waking && om.wait_queue@[0] == tid) ==> final(p).tasks@[tid as int].status
                == old(p).tasks@[tid as int].status)
            &&& ({
                let a = old(p).tasks@[tid as int];
                let b = final(p).tasks@[tid as int];
                &&& b.stride == a.stride
                &&& b.priority == a.priority
                &&& b.apply_mutex_id@ == a.apply_mutex_id@
                &&& b.apply_sem_id@ == a.apply_sem_id@
                &&& b.allocated_sem_id@ == a.allocated_sem_id@
                &&& (occ(a.allocated_mutex_id@, mutex_id as int) > 0
                    ==> b.allocated_mutex_id@.to_multiset()
                    == a.allocated_mutex_id@.to_multiset().remove(mutex_id))
                &&& (occ(a.allocated_mutex_id@, mutex_id as int) == 0 ==> b.allocated_mutex_id@
                    == a.allocated_mutex_id@)
            })
            &&& forall|t: int|
                0 <= t < n && t != tid && !(waking && t == om.wait_queue@[0]) ==> final(p).tasks@[t]
                    == old(p).tasks@[t]
        }),
{
    if mutex_id >= p.mutex_list.len() {
        return -1;
    }
    if p.mutex_list[mutex_id].is_none() {
        return -1;
    }
    let _found = remove_first(&mut p.tasks[tid].allocated_mutex_id, mutex_id);
    let mut woke: Option<usize> = None;
    match &mut p.mutex_list[mutex_id] {
        Some(mx) => {
            if mx.wait_queue.len() > 0 {
                let w = mx.wait_queue.remove(0);
                mx.owner = Some(w);
                woke = Some(w);
            } else {
                mx.owner = None;
            }
        },
        None => {
            proof {
                assert(false);
            }
        },
    }
    if let Some(w) = woke {
        proof {
            assert(w < p.tasks@.len());
        }
        p.tasks[w].status = TaskStatus::Ready;
    }
    proof {
        let n = old(p).tasks@.len() as int;
        lemma_sem_holds_same(old(p).tasks@, p.tasks@);
        assert forall|t: int|
            0 <= t < n implies task_ids_wf(
            #[trigger] p.tasks@[t],
            p.mutex_list@.len() as int,
            p.semaphore_list@.len() as int,
        ) by {
            assert(task_ids_wf(
                old(p).tasks@[t],
                p.mutex_list@.len() as int,
                p.semaphore_list@.len() as int,
            ));
            if t == tid && _found {
                let k = choose|k: int|
                    0 <= k < old(p).tasks@[tid as int].allocated_mutex_id@.len() && old(p).tasks@[tid as int].allocated_mutex_id@[k] == mutex_id
                        && p.tasks@[tid as int].allocated_mutex_id@ == #[trigger] old(p).tasks@[tid as int].allocated_mutex_id@.remove(k);
                old(p).tasks@[tid as int].allocated_mutex_id@.remove_ensures(k);
            }
        }
        assert forall|m: int|
            0 <= m < p.mutex_list@.len() implies mutex_slot_wf(#[trigger] p.mutex_list@[m], n) by {
            assert(mutex_slot_wf(old(p).mutex_list@[m], n));
            if m == mutex_id {
                let om = old(p).mutex_list@[mutex_id as int].unwrap();
                if om.wait_queue@.len() > 0 {
                    let nq = p.mutex_list@[m].unwrap().wait_queue@;
                    assert forall|k: int| 0 <= k < nq.len() implies (#[trigger] nq[k]) < n by {
                        assert(nq[k] == om.wait_queue@[k + 1]);
                    }
                }
            }
        }
    }
    0
}

/// Wake the head waiter of a condition variable, if any.
pub fn sys_condvar_signal(p: &mut Process, condvar_id: usize) -> (r: isize)
    requires
        old(p).wf(),
    ensures
        final(p).wf(),
        r == 0 || r == -1,
        (r == -1) <==> !valid_condvar(*old(p), condvar_id as int),
        r == -1 ==> *final(p) == *old(p),
        r == 0 ==> ({
            let n = old(p).tasks@.len() as int;
            let oc = old(p).condvar_list@[condvar_id as int].unwrap();
            let waking = oc.wait_queue@.len() > 0;
            &&& final(p).mutex_list@ == old(p).mutex_list@
            &&& final(p).semaphore_list@ == old(p).semaphore_list@
            &&& final(p).semaphore_available@ == old(p).semaphore_available@
            &&& final(p).need_deadlock == old(p).need_deadlock
            &&& final(p).condvar_list@.len() == old(p).condvar_list@.len()
            &&& forall|k: int|
                0 <= k < old(p).condvar_list@.len() && k != condvar_id ==> final(p).condvar_list@[k] == old(p).condvar_list@[k]
            &&& final(p).condvar_list@[condvar_id as int] is Some
            &&& (waking ==> final(p).condvar_list@[condvar_id as int].unwrap().wait_queue@
                == oc.wait_queue@.subrange(1, oc.wait_queue@.len() as int))
            &&& (!waking ==> final(p).condvar_list@[condvar_id as int].unwrap().wait_queue@
                == oc.wait_queue@)
            &&& final(p).tasks@.len() == n
            &&& (waking ==> final(p).tasks@[oc.wait_queue@[0] as int].status is Ready
                && same_but_status(
                old(p).tasks@[oc.wait_queue@[0] as int],
                final(p).tasks@[oc.wait_queue@[0] as int],
            ))
            &&& forall|t: int|
                0 <= t < n && !(waking && t == oc.wait_queue@[0]) ==> final(p).tasks@[t] == old(p).tasks@[t]
        }),
{
    if condvar_id >= p.condvar_list.len() {
        return -1;
    }
    if p.condvar_list[condvar_id].is_none() {
        return -1;
    }
    let mut woke: Option<usize> = None;
    match &mut p.condvar_list[condvar_id] {
        Some(cv) => {
            if cv.wait_queue.len() > 0 {
                let w = cv.wait_queue.remove(0);
                woke = Some(w);
            }
        },
        None => {
            proof {
                assert(false);
            }
        },
    }
    if let Some(w) = woke {
        proof {
            assert(w < p.tasks@.len());
        }
        p.tasks[w].status = TaskStatus::Ready;
    }
    proof {
        let n = old(p).tasks@.len() as int;
        lemma_sem_holds_same(old(p).tasks@, p.tasks@);
        assert forall|c: int|
            0 <= c < p.condvar_list@.len() implies condvar_slot_wf(
            #[trigger] p.condvar_list@[c],
            n,
        ) by {
            assert(condvar_slot_wf(old(p).condvar_list@[c], n));
            if c == condvar_id {
                let oc = old(p).condvar_list@[condvar_id as int].unwrap();
                if oc.wait_queue@.len() > 0 {
                    let nq = p.condvar_list@[c].unwrap().wait_queue@;
                    assert forall|k: int| 0 <= k < nq.len() implies (#[trigger] nq[k]) < n by {
                        assert(nq[k] == oc.wait_queue@[k + 1]);
                    }
                }
            }
        }
    }
    0
}

/// Wait on a condition variable: release the named lock (handing it to its
/// head waiter, if any), join the condition variable's wait list, and block.
/// On wakeup the caller does not reacquire the lock; reacquisition is the
/// caller's responsibility.  The release does not touch the ledger, exactly
/// as a direct release of the lock's flag would not.
pub fn sys_condvar_wait(p: &mut Process, tid: usize, condvar_id: usize, mutex_id: usize) -> (r: isize)
    requires
        old(p).wf(),
        tid < old(p).tasks@.len(),
    ensures
        final(p).wf(),
        r == 0 || r == -1,
        (r == -1) <==> !(valid_condvar(*old(p), condvar_id as int) && valid_mutex(
            *old(p),
            mutex_id as int,
        )),
        r == -1 ==> *final(p) == *old(p),
        r == 0 ==> ({
            let n = old(p).tasks@.len() as int;
            let om = old(p).mutex_list@[mutex_id as int].unwrap();
            let oc = old(p).condvar_list@[condvar_id as int].unwrap();
            let waking = om.wait_queue@.len() > 0;
            &&& final(p).semaphore_list@ == old(p).semaphore_list@
            &&& final(p).semaphore_available@ == old(p).semaphore_available@
            &&& final(p).need_deadlock == old(p).need_deadlock
            &&& final(p).mutex_list@.len() == old(p).mutex_list@.len()
            &&& forall|k: int|
                0 <= k < old(p).mutex_list@.len() && k != mutex_id ==> final(p).mutex_list@[k]
                    == old(p).mutex_list@[k]
            &&& final(p).mutex_list@[mutex_id as int] is Some
            &&& ({
                let nm = final(p).mutex_list@[mutex_id as int].unwrap();
                &&& nm.blocking == om.blocking
                &&& (waking ==> nm.owner == Some(om.wait_queue@[0]) && nm.wait_queue@
                    == om.wait_queue@.subrange(1, om.wait_queue@.len() as int))
                &&& (!waking ==> nm.owner is None && nm.wait_queue@ == om.wait_queue@)
            })
            &&& final(p).condvar_list@.len() == old(p).condvar_list@.len()
            &&& forall|k: int|
                0 <= k < old(p).condvar_list@.len() && k != condvar_id ==> final(p).condvar_list@[k] == old(p).condvar_list@[k]
            &&& final(p).condvar_list@[condvar_id as int] is Some
            &&& final(p).condvar_list@[condvar_id as int].unwrap().wait_queue@
                == oc.wait_queue@.push(tid)
            &&& final(p).tasks@.len() == n
            &&& final(p).tasks@[tid as int].status is Blocked
            &&& same_but_status(old(p).tasks@[tid as int], final(p).tasks@[tid as int])
            &&& (waking && om.wait_queue@[0] != tid ==> final(p).tasks@[om.wait_queue@[0] as int].status is Ready && same_but_status(
                old(p).tasks@[om.wait_queue@[0] as int],
                final(p).tasks@[om.wait_queue@[0] as int],
            ))
            &&& forall|t: int|
                0 <= t < n && t != tid && !(waking && t == om.wait_queue@[0]) ==> final(p).tasks@[t] == old(p).tasks@[t]
        }),
{
    if condvar_id >= p.condvar_list.len() {
        return -1;
    }
    if p.condvar_list[condvar_id].is_none() {
        return -1;
    }
    if mutex_id >= p.mutex_list.len() {
        return -1;
    }
    if p.mutex_list[mutex_id].is_none() {
        return -1;
    }
    let mut woke: Option<usize> = None;
    match &mut p.mutex_list[mutex_id] {
        Some(mx) => {
            if mx.wait_queue.len() > 0 {
                let w = mx.wait_queue.remove(0);
                mx.owner = Some(w);
                woke = Some(w);
            } else {
                mx.owner = None;
            }
        },
        None => {
            proof {
                assert(false);
            }
        },
    }
    if let Some(w) = woke {
        proof {
            assert(w < p.tasks@.len());
        }
        p.tasks[w].status = TaskStatus::Ready;
    }
    match &mut p.condvar_list[condvar_id] {
        Some(cv) => {
            cv.wait_queue.push(tid);
        },
        None => {
            proof {
                assert(false);
            }
        },
    }
    p.tasks[tid].status = TaskStatus::Blocked;
    proof {
        let n = old(p).tasks@.len() as int;
        lemma_sem_holds_same(old(p).tasks@, p.tasks@);
        assert forall|m: int|
            0 <= m < p.mutex_list@.len() implies mutex_slot_wf(#[trigger] p.mutex_list@[m], n) by {
            assert(mutex_slot_wf(old(p).mutex_list@[m], n));
            if m == mutex_id {
                let om = old(p).mutex_list@[mutex_id as int].unwrap();
                if om.wait_queue@.len() > 0 {
                    let nq = p.mutex_list@[m].unwrap().wait_queue@;
                    assert forall|k: int| 0 <= k < nq.len() implies (#[trigger] nq[k]) < n by {
                        assert(nq[k] == om.wait_queue@[k + 1]);
                    }
                }
            }
        }
        assert forall|c: int|
            0 <= c < p.condvar_list@.len() implies condvar_slot_wf(
            #[trigger] p.condvar_list@[c],
            n,
        ) by {
            assert(condvar_slot_wf(old(p).condvar_list@[c], n));
            if c == condvar_id {
                let oc = old(p).condvar_list@[condvar_id as int].unwrap();
                let nq = p.condvar_list@[c].unwrap().wait_queue@;
                assert forall|k: int| 0 <= k < nq.len() implies (#[trigger] nq[k]) < n by {
                    if k < oc.wait_queue@.len() {
                        assert(nq[k] == oc.wait_queue@[k]);
                    }
                }
            }
        }
    }
    0
}


/// The detector's count matrix: one row per task, one column per handle id,
/// counting how often each list holds each id.
pub open spec fn count_mat(ls: Seq<Seq<usize>>, m: nat) -> Seq<Seq<int>> {
    Seq::new(ls.len(), |i: int| Seq::new(m, |j: int| occ(ls[i], j)))
}

/// The count matrix with one extra request by `tid` for `id` recorded.
pub open spec fn count_mat_req(ls: Seq<Seq<usize>>, m: nat, tid: int, id: int) -> Seq<Seq<int>> {
    Seq::new(
        ls.len(),
        |i: int|
            Seq::new(
                m,
                |j: int|
                    occ(ls[i], j) + if i == tid && j == id {
                        1int
                    } else {
                        0
                    },
            ),
    )
}

/// The semaphores' free vector: each available counter less the units held
/// across all tasks - by the balance invariant, exactly each semaphore's
/// count.
pub open spec fn sem_work_vec(avail: Seq<usize>, holds: Seq<Seq<usize>>) -> Seq<int> {
    Seq::new(avail.len(), |j: int| avail[j] - col_held(holds, holds.len() as int, j))
}

/// The locks' free vector: one unit each, less the units held.
pub open spec fn mutex_work_vec(m: nat, holds: Seq<Seq<usize>>) -> Seq<int> {
    Seq::new(m, |j: int| 1 - col_held(holds, holds.len() as int, j))
}

/// The detector refuses `tid`'s request for one unit of semaphore `id`:
/// detection is on and granting would leave no safe completion order.
pub open spec fn sem_down_rejected(p: Process, tid: int, id: int) -> bool {
    p.need_deadlock != 0 && !banker_safe(
        sem_work_vec(p.semaphore_available@, sem_holds(p.tasks@)),
        count_mat_req(sem_applies(p.tasks@), p.semaphore_list@.len(), tid, id),
        count_mat(sem_holds(p.tasks@), p.semaphore_list@.len()),
    )
}

/// The detector refuses `tid`'s request for lock `id`.
pub open spec fn mutex_lock_rejected(p: Process, tid: int, id: int) -> bool {
    p.need_deadlock != 0 && !banker_safe(
        mutex_work_vec(p.mutex_list@.len(), mutex_holds(p.tasks@)),
        count_mat_req(mutex_applies(p.tasks@), p.mutex_list@.len(), tid, id),
        count_mat(mutex_holds(p.tasks@), p.mutex_list@.len()),
    )
}

/// Machine bound: the semaphore snapshot's counts fit the detector's
/// integers.
pub open spec fn sem_snapshot_fits(p: Process) -> bool {
    &&& forall|t: int|
        0 <= t < p.tasks@.len() ==> (#[trigger] p.tasks@[t]).apply_sem_id@.len() + 1 <= i32::MAX
    &&& forall|t: int|
        0 <= t < p.tasks@.len() ==> (#[trigger] p.tasks@[t]).allocated_sem_id@.len() <= i32::MAX
    &&& total_len(sem_holds(p.tasks@), p.tasks@.len() as int) <= i32::MAX
    &&& forall|j: int|
        0 <= j < p.semaphore_available@.len() ==> #[trigger] p.semaphore_available@[j] <= i32::MAX
}

/// Machine bound: the lock snapshot's counts fit the detector's integers.
pub open spec fn mutex_snapshot_fits(p: Process) -> bool {
    &&& forall|t: int|
        0 <= t < p.tasks@.len() ==> (#[trigger] p.tasks@[t]).apply_mutex_id@.len() + 1 <= i32::MAX
    &&& forall|t: int|
        0 <= t < p.tasks@.len() ==> (#[trigger] p.tasks@[t]).allocated_mutex_id@.len() <= i32::MAX
    &&& total_len(mutex_holds(p.tasks@), p.tasks@.len() as int) + 1 <= i32::MAX
}

/// A matrix whose column agrees with per-list counts sums to the same column
/// total.
proof fn lemma_col_sum_matches(a: Seq<Seq<int>>, ls: Seq<Seq<usize>>, k: int, j: int)
    requires
        k <= a.len(),
        k <= ls.len(),
        forall|i: int| 0 <= i < k ==> #[trigger] a[i][j] == occ(ls[i], j),
    ensures
        col_sum(a, k, j) == col_held(ls, k, j),
    decreases k,
{
    if k > 0 {
        lemma_col_sum_matches(a, ls, k - 1, j);
    }
}

/// A row of ones.
fn ones_row(m: usize) -> (row: Vec<i32>)
    ensures
        row@.len() == m,
        forall|j: int| 0 <= j < m ==> #[trigger] row@[j] == 1i32,
{
    let mut row: Vec<i32> = Vec::new();
    while row.len() < m
        invariant
            row@.len() <= m,
            forall|j: int| 0 <= j < row@.len() ==> #[trigger] row@[j] == 1i32,
        decreases m - row@.len(),
    {
        row.push(1);
    }
    row
}

/// Ask for one unit of semaphore `sem_id` for task `tid`, consulting the
/// deadlock detector first when detection is enabled.  An unsafe request is
/// refused with `WOULD_DEADLOCK` and withdrawn, leaving the process as it
/// was.  A granted request moves one unit into the caller's held ledger and
/// performs the real acquire: the count drops, and a non-positive count
/// before the drop blocks the caller on the semaphore's wait list.
pub fn sys_semaphore_down(p: &mut Process, tid: usize, sem_id: usize) -> (r: isize)
    requires
        old(p).wf(),
        tid < old(p).tasks@.len(),
        sem_snapshot_fits(*old(p)),
        valid_sem(*old(p), sem_id as int) ==> old(p).semaphore_list@[sem_id as int].unwrap().count
            > i64::MIN,
    ensures
        final(p).wf(),
        r == 0 || r == -1 || r == WOULD_DEADLOCK,
        (r == -1) <==> !valid_sem(*old(p), sem_id as int),
        (r == WOULD_DEADLOCK) <==> (valid_sem(*old(p), sem_id as int) && sem_down_rejected(
            *old(p),
            tid as int,
            sem_id as int,
        )),
        r == -1 ==> *final(p) == *old(p),
        r == WOULD_DEADLOCK ==> ({
            &&& same_handles(*final(p), *old(p))
            &&& final(p).tasks@.len() == old(p).tasks@.len()
            &&& forall|t: int|
                0 <= t < old(p).tasks@.len() && t != tid ==> final(p).tasks@[t] == old(p).tasks@[t]
            &&& ({
                let a = old(p).tasks@[tid as int];
                let b = final(p).tasks@[tid as int];
                &&& b.status == a.status
                &&& b.stride == a.stride
                &&& b.priority == a.priority
                &&& b.apply_mutex_id@ == a.apply_mutex_id@
                &&& b.allocated_mutex_id@ == a.allocated_mutex_id@
                &&& b.allocated_sem_id@ == a.allocated_sem_id@
                &&& b.apply_sem_id@.to_multiset() == a.apply_sem_id@.to_multiset()
                &&& forall|j: int| #[trigger] occ(b.apply_sem_id@, j) == occ(a.apply_sem_id@, j)
            })
        }),
        r == 0 ==> ({
            let n = old(p).tasks@.len() as int;
            let os = old(p).semaphore_list@[sem_id as int].unwrap();
            let blocked = os.count <= 0;
            &&& final(p).tasks@.len() == n
            &&& forall|t: int| 0 <= t < n && t != tid ==> final(p).tasks@[t] == old(p).tasks@[t]
            &&& ({
                let a = old(p).tasks@[tid as int];
                let b = final(p).tasks@[tid as int];
                &&& b.stride == a.stride
                &&& b.priority == a.priority
                &&& b.apply_mutex_id@ == a.apply_mutex_id@
                &&& b.allocated_mutex_id@ == a.allocated_mutex_id@
                &&& b.apply_sem_id@.to_multiset() == a.apply_sem_id@.to_multiset()
                &&& forall|j: int| #[trigger] occ(b.apply_sem_id@, j) == occ(a.apply_sem_id@, j)
                &&& b.allocated_sem_id@ == a.allocated_sem_id@.push(sem_id)
                &&& b.status == if blocked {
                    TaskStatus::Blocked
                } else {
                    a.status
                }
            })
            &&& final(p).mutex_list@ == old(p).mutex_list@
            &&& final(p).condvar_list@ == old(p).condvar_list@
            &&& final(p).need_deadlock == old(p).need_deadlock
            &&& final(p).semaphore_available@ == old(p).semaphore_available@
            &&& final(p).semaphore_list@.len() == old(p).semaphore_list@.len()
            &&& forall|k: int|
                0 <= k < old(p).semaphore_list@.len() && k != sem_id ==> final(p).semaphore_list@[k] == old(p).semaphore_list@[k]
            &&& final(p).semaphore_list@[sem_id as int] is Some
            &&& ({
                let ns = final(p).semaphore_list@[sem_id as int].unwrap();
                &&& ns.count == os.count - 1
                &&& (blocked ==> ns.wait_queue@ == os.wait_queue@.push(tid))
                &&& (!blocked ==> ns.wait_queue@ == os.wait_queue@)
            })
        }),
{
    if sem_id >= p.semaphore_list.len() {
        return -1;
    }
    if p.semaphore_list[sem_id].is_none() {
        return -1;
    }
    let n = p.tasks.len();
    let m = p.semaphore_list.len();
    // record the intent
    p.tasks[tid].apply_sem_id.push(sem_id);
    proof {
        lemma_sem_holds_same(old(p).tasks@, p.tasks@);
        lemma_occ_push(old(p).tasks@[tid as int].apply_sem_id@, sem_id, sem_id as int);
        lemma_occ_bounds(old(p).tasks@[tid as int].apply_sem_id@, sem_id as int);
    }
    // snapshot the ledger
    let mut work: Vec<i32> = Vec::new();
    for j in 0..m
        invariant
            m == p.semaphore_available@.len(),
            sem_snapshot_fits(*old(p)),
            p.semaphore_available@ == old(p).semaphore_available@,
            work@.len() == j,
            forall|jj: int|
                0 <= jj < j ==> #[trigger] work@[jj] as int == p.semaphore_available@[jj] as int,
    {
        let a: usize = p.semaphore_available[j];
        work.push(a as i32);
    }
    let mut need: Vec<Vec<i32>> = Vec::new();
    let mut alloc: Vec<Vec<i32>> = Vec::new();
    for i in 0..n
        invariant
            n == p.tasks@.len(),
            m == p.semaphore_list@.len(),
            m == p.semaphore_available@.len(),
            p.wf(),
            sem_snapshot_fits(*old(p)),
            old(p).tasks@.len() == n,
            forall|t: int|
                0 <= t < n && t != tid ==> #[trigger] p.tasks@[t] == old(p).tasks@[t],
            p.tasks@[tid as int].apply_sem_id@.len() == old(p).tasks@[tid as int].apply_sem_id@.len()
                + 1,
            p.tasks@[tid as int].allocated_sem_id@ == old(p).tasks@[tid as int].allocated_sem_id@,
            p.semaphore_available@ == old(p).semaphore_available@,
            sem_holds(p.tasks@) == sem_holds(old(p).tasks@),
            need@.len() == i,
            alloc@.len() == i,
            work@.len() == m,
            forall|ii: int| 0 <= ii < i ==> (#[trigger] need@[ii])@.len() == m,
            forall|ii: int| 0 <= ii < i ==> (#[trigger] alloc@[ii])@.len() == m,
            forall|ii: int, j: int|
                0 <= ii < i && 0 <= j < m ==> #[trigger] ints(need@[ii]@)[j] == occ(
                    p.tasks@[ii].apply_sem_id@,
                    j,
                ),
            forall|ii: int, j: int|
                0 <= ii < i && 0 <= j < m ==> #[trigger] ints(alloc@[ii]@)[j] == occ(
                    p.tasks@[ii].allocated_sem_id@,
                    j,
                ),
            forall|j: int|
                0 <= j < m ==> #[trigger] work@[j] as int == p.semaphore_available@[j] - col_held(
                    sem_holds(p.tasks@),
                    i as int,
                    j,
                ),
    {
        proof {
            assert(task_ids_wf(
                p.tasks@[i as int],
                p.mutex_list@.len() as int,
                p.semaphore_list@.len() as int,
            ));
            if i != tid {
                assert(p.tasks@[i as int].apply_sem_id@.len() <= i32::MAX) by {
                    assert(old(p).tasks@[i as int].apply_sem_id@.len() + 1 <= i32::MAX);
                }
            }
        }
        let nrow = count_row(&p.tasks[i].apply_sem_id, m);
        let arow = count_row(&p.tasks[i].allocated_sem_id, m);
        proof {
            let holds = sem_holds(p.tasks@);
            assert(holds[i as int] == p.tasks@[i as int].allocated_sem_id@);
            lemma_total_len_nonneg(holds, n as int);
            assert forall|j: int|
                0 <= j < m implies i32::MIN <= work@[j] as int - #[trigger] arow@[j] as int
                    <= i32::MAX by {
                assert(arow@[j] as int == ints(arow@)[j]);
                assert(ints(arow@)[j] == occ(holds[i as int], j));
                lemma_col_held_nonneg(holds, i as int, j);
                lemma_col_held_le_total(holds, i as int + 1, j);
                assert(col_held(holds, i as int + 1, j) == col_held(holds, i as int, j) + occ(
                    holds[i as int],
                    j,
                ));
                assert(total_len(holds, i as int + 1) <= total_len(holds, n as int));
                lemma_occ_bounds(holds[i as int], j);
            }
        }
        subtract_row(&mut work, &arow);
        need.push(nrow);
        alloc.push(arow);
        proof {
            assert forall|j: int|
                0 <= j < m implies #[trigger] work@[j] as int == p.semaphore_available@[j]
                    - col_held(sem_holds(p.tasks@), i as int + 1, j) by {
                assert(ints(arow@)[j] == occ(sem_holds(p.tasks@)[i as int], j));
                assert(ints(work@)[j] == work@[j] as int);
            }
        }
    }
    // decide
    let ghost work0: Seq<int> = ints(work@);
    let ghost needs: Seq<Seq<int>> = mat(need@);
    let ghost allocs: Seq<Seq<int>> = mat(alloc@);
    proof {
        assert(work0 =~= sem_work_vec(old(p).semaphore_available@, sem_holds(old(p).tasks@)));
        assert(needs =~~= count_mat_req(
            sem_applies(old(p).tasks@),
            m as nat,
            tid as int,
            sem_id as int,
        )) by {
            assert forall|ii: int, j: int|
                0 <= ii < n && 0 <= j < m implies needs[ii][j] == occ(
                    sem_applies(old(p).tasks@)[ii],
                    j,
                ) + (if ii == tid && j == sem_id {
                    1int
                } else {
                    0
                }) by {
                if ii == tid {
                    lemma_occ_push(old(p).tasks@[tid as int].apply_sem_id@, sem_id, j);
                }
            }
        }
        assert(allocs =~~= count_mat(sem_holds(old(p).tasks@), m as nat));
        assert(mat_dims(needs, n as int, m as int));
        assert(mat_dims(allocs, n as int, m as int));
        assert(mat_nonneg(allocs, n as int, m as int)) by {
            assert forall|ii: int, j: int|
                0 <= ii < n && 0 <= j < m implies 0 <= #[trigger] allocs[ii][j] by {
                lemma_occ_bounds(sem_holds(old(p).tasks@)[ii], j);
            }
        }
        assert forall|j: int|
            0 <= j < m implies work0[j] + col_sum(allocs, n as int, j) <= i32::MAX by {
            lemma_col_sum_matches(allocs, sem_holds(old(p).tasks@), n as int, j);
        }
    }
    let granted = if p.need_deadlock == 0 {
        true
    } else {
        check(n, m, &mut work, &need, &alloc)
    };
    proof {
        assert(granted == (old(p).need_deadlock == 0 || banker_safe(work0, needs, allocs)));
        assert(granted == !sem_down_rejected(*old(p), tid as int, sem_id as int));
    }
    if granted {
        // move the id from requested to held, then do the real acquire
        let found = remove_first(&mut p.tasks[tid].apply_sem_id, sem_id);
        proof {
            assert(found);
        }
        p.tasks[tid].allocated_sem_id.push(sem_id);
        proof {
            old(p).tasks@[tid as int].allocated_sem_id@.to_multiset_ensures();
            old(p).tasks@[tid as int].apply_sem_id@.to_multiset_ensures();
            assert(p.tasks@[tid as int].apply_sem_id@.to_multiset() =~= old(p).tasks@[tid as int].apply_sem_id@.to_multiset());
            assert forall|j: int| #[trigger] occ(p.tasks@[tid as int].apply_sem_id@, j) == occ(
                old(p).tasks@[tid as int].apply_sem_id@,
                j,
            ) by {
                lemma_occ_push(old(p).tasks@[tid as int].apply_sem_id@, sem_id, j);
            }
        }
        let mut block = false;
        match &mut p.semaphore_list[sem_id] {
            Some(sem) => {
                let c: i64 = sem.count;
                sem.count = c - 1;
                if c <= 0 {
                    sem.wait_queue.push(tid);
                    block = true;
                }
            },
            None => {
                proof {
                    assert(false);
                }
            },
        }
        if block {
            p.tasks[tid].status = TaskStatus::Blocked;
        }
        proof {
            let nn = old(p).tasks@.len() as int;
            let hold0 = sem_holds(old(p).tasks@);
            let hold1 = sem_holds(p.tasks@);
            assert(hold1 =~~= hold0.update(tid as int, p.tasks@[tid as int].allocated_sem_id@));
            assert forall|j: int|
                0 <= j < p.semaphore_list@.len() implies col_held(hold1, nn, j) == col_held(
                hold0,
                nn,
                j,
            ) + (if j == sem_id {
                1int
            } else {
                0
            }) by {
                lemma_col_held_update(
                    hold0,
                    tid as int,
                    p.tasks@[tid as int].allocated_sem_id@,
                    nn,
                    j,
                );
                lemma_occ_push(old(p).tasks@[tid as int].allocated_sem_id@, sem_id, j);
            }
            assert forall|t: int|
                0 <= t < nn implies task_ids_wf(
                #[trigger] p.tasks@[t],
                p.mutex_list@.len() as int,
                p.semaphore_list@.len() as int,
            ) by {
                assert(task_ids_wf(
                    old(p).tasks@[t],
                    p.mutex_list@.len() as int,
                    p.semaphore_list@.len() as int,
                ));
                if t == tid {
                    let a0 = old(p).tasks@[tid as int].apply_sem_id@.push(sem_id);
                    let k = choose|k: int|
                        0 <= k < a0.len() && a0[k] == sem_id && p.tasks@[tid as int].apply_sem_id@
                            == #[trigger] a0.remove(k);
                    a0.remove_ensures(k);
                    assert forall|kk: int|
                        0 <= kk < p.tasks@[tid as int].apply_sem_id@.len() implies (
                    #[trigger] p.tasks@[tid as int].apply_sem_id@[kk]) < p.semaphore_list@.len() by {
                        if kk < k {
                            assert(p.tasks@[tid as int].apply_sem_id@[kk] == a0[kk]);
                        } else {
                            assert(p.tasks@[tid as int].apply_sem_id@[kk] == a0[kk + 1]);
                        }
                        assert(ids_lt(
                            old(p).tasks@[tid as int].apply_sem_id@,
                            p.semaphore_list@.len() as int,
                        ));
                    }
                }
            }
            assert forall|j: int|
                0 <= j < p.semaphore_list@.len() implies sem_slot_wf(
                #[trigger] p.semaphore_list@[j],
                nn,
                p.semaphore_available@[j] as int,
                col_held(hold1, nn, j),
            ) by {
                assert(sem_slot_wf(
                    old(p).semaphore_list@[j],
                    nn,
                    old(p).semaphore_available@[j] as int,
                    col_held(hold0, nn, j),
                ));
            }
        }
        0
    } else {
        let found = remove_first(&mut p.tasks[tid].apply_sem_id, sem_id);
        proof {
            assert(found);
            old(p).tasks@[tid as int].apply_sem_id@.to_multiset_ensures();
            assert(p.tasks@[tid as int].apply_sem_id@.to_multiset() =~= old(p).tasks@[tid as int].apply_sem_id@.to_multiset());
            assert forall|j: int| #[trigger] occ(p.tasks@[tid as int].apply_sem_id@, j) == occ(
                old(p).tasks@[tid as int].apply_sem_id@,
                j,
            ) by {
                lemma_occ_push(old(p).tasks@[tid as int].apply_sem_id@, sem_id, j);
            }
            lemma_sem_holds_same(old(p).tasks@, p.tasks@);
            let nn = old(p).tasks@.len() as int;
            assert forall|t: int|
                0 <= t < nn implies task_ids_wf(
                #[trigger] p.tasks@[t],
                p.mutex_list@.len() as int,
                p.semaphore_list@.len() as int,
            ) by {
                assert(task_ids_wf(
                    old(p).tasks@[t],
                    p.mutex_list@.len() as int,
                    p.semaphore_list@.len() as int,
                ));
                if t == tid {
                    let a0 = old(p).tasks@[tid as int].apply_sem_id@.push(sem_id);
                    let k = choose|k: int|
                        0 <= k < a0.len() && a0[k] == sem_id && p.tasks@[tid as int].apply_sem_id@
                            == #[trigger] a0.remove(k);
                    a0.remove_ensures(k);
                    assert forall|kk: int|
                        0 <= kk < p.tasks@[tid as int].apply_sem_id@.len() implies (
                    #[trigger] p.tasks@[tid as int].apply_sem_id@[kk]) < p.semaphore_list@.len() by {
                        if kk < k {
                            assert(p.tasks@[tid as int].apply_sem_id@[kk] == a0[kk]);
                        } else {
                            assert(p.tasks@[tid as int].apply_sem_id@[kk] == a0[kk + 1]);
                        }
                        assert(ids_lt(
                            old(p).tasks@[tid as int].apply_sem_id@,
                            p.semaphore_list@.len() as int,
                        ));
                    }
                }
            }
        }
        WOULD_DEADLOCK
    }
}


/// Ask for lock `mutex_id` for task `tid`, consulting the deadlock detector
/// first when detection is enabled.  An unsafe request is refused with
/// `WOULD_DEADLOCK` and withdrawn, leaving the process as it was.  A granted
/// request moves the id into the caller's held ledger and performs the real
/// acquire: a free lock is owned at once; a busy one queues the caller for
/// handoff, suspending it under the blocking strategy (a spinning caller
/// stays ready and yields between retries).
pub fn sys_mutex_lock(p: &mut Process, tid: usize, mutex_id: usize) -> (r: isize)
    requires
        old(p).wf(),
        tid < old(p).tasks@.len(),
        mutex_snapshot_fits(*old(p)),
    ensures
        final(p).wf(),
        r == 0 || r == -1 || r == WOULD_DEADLOCK,
        (r == -1) <==> !valid_mutex(*old(p), mutex_id as int),
        (r == WOULD_DEADLOCK) <==> (valid_mutex(*old(p), mutex_id as int) && mutex_lock_rejected(
            *old(p),
            tid as int,
            mutex_id as int,
        )),
        r == -1 ==> *final(p) == *old(p),
        r == WOULD_DEADLOCK ==> ({
            &&& same_handles(*final(p), *old(p))
            &&& final(p).tasks@.len() == old(p).tasks@.len()
            &&& forall|t: int|
                0 <= t < old(p).tasks@.len() && t != tid ==> final(p).tasks@[t] == old(p).tasks@[t]
            &&& ({
                let a = old(p).tasks@[tid as int];
                let b = final(p).tasks@[tid as int];
                &&& b.status == a.status
                &&& b.stride == a.stride
                &&& b.priority == a.priority
                &&& b.apply_sem_id@ == a.apply_sem_id@
                &&& b.allocated_sem_id@ == a.allocated_sem_id@
                &&& b.allocated_mutex_id@ == a.allocated_mutex_id@
                &&& b.apply_mutex_id@.to_multiset() == a.apply_mutex_id@.to_multiset()
                &&& forall|j: int| #[trigger] occ(b.apply_mutex_id@, j) == occ(a.apply_mutex_id@, j)
            })
        }),
        r == 0 ==> ({
            let n = old(p).tasks@.len() as int;
            let om = old(p).mutex_list@[mutex_id as int].unwrap();
            let contended = om.owner is Some;
            &&& final(p).tasks@.len() == n
            &&& forall|t: int| 0 <= t < n && t != tid ==> final(p).tasks@[t] == old(p).tasks@[t]
            &&& ({
                let a = old(p).tasks@[tid as int];
                let b = final(p).tasks@[tid as int];
                &&& b.stride == a.stride
                &&& b.priority == a.priority
                &&& b.apply_sem_id@ == a.apply_sem_id@
                &&& b.allocated_sem_id@ == a.allocated_sem_id@
                &&& b.apply_mutex_id@.to_multiset() == a.apply_mutex_id@.to_multiset()
                &&& forall|j: int| #[trigger] occ(b.apply_mutex_id@, j) == occ(a.apply_mutex_id@, j)
                &&& b.allocated_mutex_id@ == a.allocated_mutex_id@.push(mutex_id)
                &&& b.status == if contended && om.blocking {
                    TaskStatus::Blocked
                } else {
                    a.status
                }
            })
            &&& final(p).semaphore_list@ == old(p).semaphore_list@
            &&& final(p).semaphore_available@ == old(p).semaphore_available@
            &&& final(p).condvar_list@ == old(p).condvar_list@
            &&& final(p).need_deadlock == old(p).need_deadlock
            &&& final(p).mutex_list@.len() == old(p).mutex_list@.len()
            &&& forall|k: int|
                0 <= k < old(p).mutex_list@.len() && k != mutex_id ==> final(p).mutex_list@[k]
                    == old(p).mutex_list@[k]
            &&& final(p).mutex_list@[mutex_id as int] is Some
            &&& ({
                let nm = final(p).mutex_list@[mutex_id as int].unwrap();
                &&& nm.blocking == om.blocking
                &&& (!contended ==> nm.owner == Some(tid) && nm.wait_queue@ == om.wait_queue@)
                &&& (contended ==> nm.owner == om.owner && nm.wait_queue@ == om.wait_queue@.push(
                    tid,
                ))
            })
        }),
{
    if mutex_id >= p.mutex_list.len() {
        return -1;
    }
    if p.mutex_list[mutex_id].is_none() {
        return -1;
    }
    let n = p.tasks.len();
    let m = p.mutex_list.len();
    // record the intent
    p.tasks[tid].apply_mutex_id.push(mutex_id);
    proof {
        lemma_sem_holds_same(old(p).tasks@, p.tasks@);
        lemma_occ_push(old(p).tasks@[tid as int].apply_mutex_id@, mutex_id, mutex_id as int);
        lemma_occ_bounds(old(p).tasks@[tid as int].apply_mutex_id@, mutex_id as int);
        assert(mutex_holds(p.tasks@) =~~= mutex_holds(old(p).tasks@));
    }
    // snapshot the ledger: every lock is one unit
    let mut work: Vec<i32> = ones_row(m);
    let mut need: Vec<Vec<i32>> = Vec::new();
    let mut alloc: Vec<Vec<i32>> = Vec::new();
    proof {
        assert forall|j: int| 0 <= j < m implies #[trigger] work@[j] as int == 1 - col_held(
            mutex_holds(p.tasks@),
            0,
            j,
        ) by {}
    }
    for i in 0..n
        invariant
            n == p.tasks@.len(),
            m == p.mutex_list@.len(),
            p.wf(),
            mutex_snapshot_fits(*old(p)),
            old(p).tasks@.len() == n,
            forall|t: int| 0 <= t < n && t != tid ==> #[trigger] p.tasks@[t] == old(p).tasks@[t],
            p.tasks@[tid as int].apply_mutex_id@.len() == old(
                p,
            ).tasks@[tid as int].apply_mutex_id@.len() + 1,
            p.tasks@[tid as int].allocated_mutex_id@ == old(
                p,
            ).tasks@[tid as int].allocated_mutex_id@,
            mutex_holds(p.tasks@) == mutex_holds(old(p).tasks@),
            need@.len() == i,
            alloc@.len() == i,
            work@.len() == m,
            forall|ii: int| 0 <= ii < i ==> (#[trigger] need@[ii])@.len() == m,
            forall|ii: int| 0 <= ii < i ==> (#[trigger] alloc@[ii])@.len() == m,
            forall|ii: int, j: int|
                0 <= ii < i && 0 <= j < m ==> #[trigger] ints(need@[ii]@)[j] == occ(
                    p.tasks@[ii].apply_mutex_id@,
                    j,
                ),
            forall|ii: int, j: int|
                0 <= ii < i && 0 <= j < m ==> #[trigger] ints(alloc@[ii]@)[j] == occ(
                    p.tasks@[ii].allocated_mutex_id@,
                    j,
                ),
            forall|j: int|
                0 <= j < m ==> #[trigger] work@[j] as int == 1 - col_held(
                    mutex_holds(p.tasks@),
                    i as int,
                    j,
                ),
    {
        proof {
            assert(task_ids_wf(
                p.tasks@[i as int],
                p.mutex_list@.len() as int,
                p.semaphore_list@.len() as int,
            ));
            if i != tid {
                assert(p.tasks@[i as int].apply_mutex_id@.len() <= i32::MAX) by {
                    assert(old(p).tasks@[i as int].apply_mutex_id@.len() + 1 <= i32::MAX);
                }
            }
        }
        let nrow = count_row(&p.tasks[i].apply_mutex_id, m);
        let arow = count_row(&p.tasks[i].allocated_mutex_id, m);
        proof {
            let holds = mutex_holds(p.tasks@);
            assert(holds[i as int] == p.tasks@[i as int].allocated_mutex_id@);
            lemma_total_len_nonneg(holds, n as int);
            assert forall|j: int|
                0 <= j < m implies i32::MIN <= work@[j] as int - #[trigger] arow@[j] as int
                    <= i32::MAX by {
                assert(arow@[j] as int == ints(arow@)[j]);
                assert(ints(arow@)[j] == occ(holds[i as int], j));
                lemma_col_held_nonneg(holds, i as int, j);
                lemma_col_held_le_total(holds, i as int + 1, j);
                assert(col_held(holds, i as int + 1, j) == col_held(holds, i as int, j) + occ(
                    holds[i as int],
                    j,
                ));
                assert(total_len(holds, i as int + 1) <= total_len(holds, n as int));
                lemma_occ_bounds(holds[i as int], j);
            }
        }
        subtract_row(&mut work, &arow);
        need.push(nrow);
        alloc.push(arow);
        proof {
            assert forall|j: int|
                0 <= j < m implies #[trigger] work@[j] as int == 1 - col_held(
                    mutex_holds(p.tasks@),
                    i as int + 1,
                    j,
                ) by {
                assert(ints(arow@)[j] == occ(mutex_holds(p.tasks@)[i as int], j));
                assert(ints(work@)[j] == work@[j] as int);
            }
        }
    }
    // decide
    let ghost work0: Seq<int> = ints(work@);
    let ghost needs: Seq<Seq<int>> = mat(need@);
    let ghost allocs: Seq<Seq<int>> = mat(alloc@);
    proof {
        assert(work0 =~= mutex_work_vec(m as nat, mutex_holds(old(p).tasks@)));
        assert(needs =~~= count_mat_req(
            mutex_applies(old(p).tasks@),
            m as nat,
            tid as int,
            mutex_id as int,
        )) by {
            assert forall|ii: int, j: int|
                0 <= ii < n && 0 <= j < m implies needs[ii][j] == occ(
                    mutex_applies(old(p).tasks@)[ii],
                    j,
                ) + (if ii == tid && j == mutex_id {
                    1int
                } else {
                    0
                }) by {
                if ii == tid {
                    lemma_occ_push(old(p).tasks@[tid as int].apply_mutex_id@, mutex_id, j);
                }
            }
        }
        assert(allocs =~~= count_mat(mutex_holds(old(p).tasks@), m as nat));
        assert(mat_dims(needs, n as int, m as int));
        assert(mat_dims(allocs, n as int, m as int));
        assert(mat_nonneg(allocs, n as int, m as int)) by {
            assert forall|ii: int, j: int|
                0 <= ii < n && 0 <= j < m implies 0 <= #[trigger] allocs[ii][j] by {
                lemma_occ_bounds(mutex_holds(old(p).tasks@)[ii], j);
            }
        }
        assert forall|j: int|
            0 <= j < m implies work0[j] + col_sum(allocs, n as int, j) <= i32::MAX by {
            lemma_col_sum_matches(allocs, mutex_holds(old(p).tasks@), n as int, j);
        }
    }
    let granted = if p.need_deadlock == 0 {
        true
    } else {
        check(n, m, &mut work, &need, &alloc)
    };
    proof {
        assert(granted == (old(p).need_deadlock == 0 || banker_safe(work0, needs, allocs)));
        assert(granted == !mutex_lock_rejected(*old(p), tid as int, mutex_id as int));
    }
    if granted {
        // move the id from requested to held, then do the real acquire
        let found = remove_first(&mut p.tasks[tid].apply_mutex_id, mutex_id);
        proof {
            assert(found);
        }
        p.tasks[tid].allocated_mutex_id.push(mutex_id);
        proof {
            old(p).tasks@[tid as int].apply_mutex_id@.to_multiset_ensures();
            assert(p.tasks@[tid as int].apply_mutex_id@.to_multiset() =~= old(
                p,
            ).tasks@[tid as int].apply_mutex_id@.to_multiset());
            assert forall|j: int| #[trigger] occ(p.tasks@[tid as int].apply_mutex_id@, j) == occ(
                old(p).tasks@[tid as int].apply_mutex_id@,
                j,
            ) by {
                lemma_occ_push(old(p).tasks@[tid as int].apply_mutex_id@, mutex_id, j);
            }
        }
        let mut block = false;
        match &mut p.mutex_list[mutex_id] {
            Some(mx) => {
                if mx.owner.is_none() {
                    mx.owner = Some(tid);
                } else {
                    mx.wait_queue.push(tid);
                    if mx.blocking {
                        block = true;
                    }
                }
            },
            None => {
                proof {
                    assert(false);
                }
            },
        }
        if block {
            p.tasks[tid].status = TaskStatus::Blocked;
        }
        proof {
            let nn = old(p).tasks@.len() as int;
            lemma_sem_holds_same(old(p).tasks@, p.tasks@);
            assert forall|t: int|
                0 <= t < nn implies task_ids_wf(
                #[trigger] p.tasks@[t],
                p.mutex_list@.len() as int,
                p.semaphore_list@.len() as int,
            ) by {
                assert(task_ids_wf(
                    old(p).tasks@[t],
                    p.mutex_list@.len() as int,
                    p.semaphore_list@.len() as int,
                ));
                if t == tid {
                    let a0 = old(p).tasks@[tid as int].apply_mutex_id@.push(mutex_id);
                    let k = choose|k: int|
                        0 <= k < a0.len() && a0[k] == mutex_id
                            && p.tasks@[tid as int].apply_mutex_id@ == #[trigger] a0.remove(k);
                    a0.remove_ensures(k);
                    assert forall|kk: int|
                        0 <= kk < p.tasks@[tid as int].apply_mutex_id@.len() implies (
                    #[trigger] p.tasks@[tid as int].apply_mutex_id@[kk]) < p.mutex_list@.len() by {
                        if kk < k {
                            assert(p.tasks@[tid as int].apply_mutex_id@[kk] == a0[kk]);
                        } else {
                            assert(p.tasks@[tid as int].apply_mutex_id@[kk] == a0[kk + 1]);
                        }
                        assert(ids_lt(
                            old(p).tasks@[tid as int].apply_mutex_id@,
                            p.mutex_list@.len() as int,
                        ));
                    }
                }
            }
            assert forall|mm: int|
                0 <= mm < p.mutex_list@.len() implies mutex_slot_wf(
                #[trigger] p.mutex_list@[mm],
                nn,
            ) by {
                assert(mutex_slot_wf(old(p).mutex_list@[mm], nn));
                if mm == mutex_id {
                    let om = old(p).mutex_list@[mutex_id as int].unwrap();
                    let nm = p.mutex_list@[mm].unwrap();
                    if om.owner is Some {
                        assert forall|k: int|
                            0 <= k < nm.wait_queue@.len() implies (#[trigger] nm.wait_queue@[k])
                                < nn by {
                            if k < om.wait_queue@.len() {
                                assert(nm.wait_queue@[k] == om.wait_queue@[k]);
                            }
                        }
                    }
                }
            }
        }
        0
    } else {
        let found = remove_first(&mut p.tasks[tid].apply_mutex_id, mutex_id);
        proof {
            assert(found);
            old(p).tasks@[tid as int].apply_mutex_id@.to_multiset_ensures();
            assert(p.tasks@[tid as int].apply_mutex_id@.to_multiset() =~= old(
                p,
            ).tasks@[tid as int].apply_mutex_id@.to_multiset());
            assert forall|j: int| #[trigger] occ(p.tasks@[tid as int].apply_mutex_id@, j) == occ(
                old(p).tasks@[tid as int].apply_mutex_id@,
                j,
            ) by {
                lemma_occ_push(old(p).tasks@[tid as int].apply_mutex_id@, mutex_id, j);
            }
            lemma_sem_holds_same(old(p).tasks@, p.tasks@);
            let nn = old(p).tasks@.len() as int;
            assert forall|t: int|
                0 <= t < nn implies task_ids_wf(
                #[trigger] p.tasks@[t],
                p.mutex_list@.len() as int,
                p.semaphore_list@.len() as int,
            ) by {
                assert(task_ids_wf(
                    old(p).tasks@[t],
                    p.mutex_list@.len() as int,
                    p.semaphore_list@.len() as int,
                ));
                if t == tid {
                    let a0 = old(p).tasks@[tid as int].apply_mutex_id@.push(mutex_id);
                    let k = choose|k: int|
                        0 <= k < a0.len() && a0[k] == mutex_id
                            && p.tasks@[tid as int].apply_mutex_id@ == #[trigger] a0.remove(k);
                    a0.remove_ensures(k);
                    assert forall|kk: int|
                        0 <= kk < p.tasks@[tid as int].apply_mutex_id@.len() implies (
                    #[trigger] p.tasks@[tid as int].apply_mutex_id@[kk]) < p.mutex_list@.len() by {
                        if kk < k {
                            assert(p.tasks@[tid as int].apply_mutex_id@[kk] == a0[kk]);
                        } else {
                            assert(p.tasks@[tid as int].apply_mutex_id@[kk] == a0[kk + 1]);
                        }
                        assert(ids_lt(
                            old(p).tasks@[tid as int].apply_mutex_id@,
                            p.mutex_list@.len() as int,
                        ));
                    }
                }
            }
        }
        WOULD_DEADLOCK
    }
}


/// Task `t` holds lock `m`: it is the owner its table slot records.
pub open spec fn holds_lock(p: Process, t: usize, m: int) -> bool {
    valid_mutex(p, m) && p.mutex_list@[m].unwrap().owner == Some(t)
}

/// Lock mutual exclusion: at most one task holds a given lock at any
/// instant - two holders of the same lock are the same task.  Each slot
/// records a single owner, and ownership changes only through an uncontended
/// `sys_mutex_lock` or the direct handoff in `sys_mutex_unlock` and
/// `sys_condvar_wait`, whose contracts pin every owner transition.
pub proof fn lemma_lock_mutual_exclusion(p: Process, t1: usize, t2: usize, m: int)
    requires
        holds_lock(p, t1, m),
        holds_lock(p, t2, m),
    ensures
        t1 == t2,
{
}

/// A down call blocks its caller exactly when the count before the drop is
/// not positive, as `sys_semaphore_down` ensures.
pub open spec fn down_blocks(count: int) -> bool {
    count <= 0
}

/// The count after `k` down calls, each dropping it by one, as
/// `sys_semaphore_down` ensures.
pub open spec fn count_after_downs(c: int, k: nat) -> int {
    c - k
}

/// A run of `k` consecutive down calls from count `c` in which none blocks.
pub open spec fn downs_block_free(c: int, k: nat) -> bool
    decreases k,
{
    k == 0 || (!down_blocks(c) && downs_block_free(c - 1, (k - 1) as nat))
}

proof fn lemma_downs_ok(c: int, k: nat)
    requires
        c >= k,
    ensures
        downs_block_free(c, k),
    decreases k,
{
    if k > 0 {
        lemma_downs_ok(c - 1, (k - 1) as nat);
    }
}

/// Semaphore counting: from a non-negative count `c0`, `n` up calls raise
/// the count to `c0 + n` (each adds one, by `sys_semaphore_up`'s contract)
/// and `n` subsequent down calls never block.  On a semaphore created with
/// `n` units, an `(n + 1)`-th down finds count zero and blocks, until a
/// matching up, whose contract wakes the head waiter exactly when the count
/// was negative.
pub proof fn lemma_semaphore_counting(c0: int, n: nat)
    requires
        c0 >= 0,
    ensures
        downs_block_free(c0 + n, n),
        down_blocks(count_after_downs(n as int, n)),
{
    lemma_downs_ok(c0 + n, n);
}

/// With deadlock detection disabled, no acquisition is ever refused with the
/// would-deadlock error: a constructed cyclic acquire sequence is accepted
/// (and may hang by design); both refusal predicates demand the flag.
pub proof fn lemma_detection_disabled_accepts(p: Process, tid: int, id: int)
    requires
        p.need_deadlock == 0,
    ensures
        !sem_down_rejected(p, tid, id),
        !mutex_lock_rejected(p, tid, id),
{
}

} // verus!
