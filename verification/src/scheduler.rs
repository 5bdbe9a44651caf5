//! The ready queue and stride scheduling.
//!
//! `fetch` removes and returns the id of the ready task with the numerically
//! smallest stride (the earliest such entry on ties) and charges it one
//! dispatch: its stride grows by `BIGSTRIDE / priority`.  Entries whose task
//! is not ready are skipped, not removed; removal and re-insertion are the
//! caller's responsibility.

use vstd::prelude::*;

use crate::task::Task;
use crate::task::TaskStatus;

verus! {

/// Stride charged to a task of priority one for a single dispatch.
pub const BIGSTRIDE: u64 = 0x10_0000;

/// The stride after one dispatch: grown by `BIGSTRIDE / priority`, capped at
/// the top of the counter.
pub open spec fn stride_bump(stride: u64, priority: u64) -> u64
    recommends
        priority >= 1,
{
    if stride + BIGSTRIDE as int / priority as int <= u64::MAX {
        (stride + BIGSTRIDE as int / priority as int) as u64
    } else {
        u64::MAX
    }
}

/// A task's stride never decreases: one dispatch charge keeps or raises it.
pub proof fn lemma_stride_bump_monotone(stride: u64, priority: u64)
    requires
        priority >= 1,
    ensures
        stride_bump(stride, priority) >= stride,
{
}

/// Queue position `i` names a task that exists and is ready.
pub open spec fn ready_at(tasks: Seq<Task>, q: Seq<usize>, i: int) -> bool {
    &&& 0 <= i < q.len()
    &&& q[i] < tasks.len()
    &&& tasks[q[i] as int].status is Ready
}

/// Queue position `i` is the scheduler's pick: a ready entry of minimal
/// stride, and the earliest such entry.
pub open spec fn is_sched_pick(tasks: Seq<Task>, q: Seq<usize>, i: int) -> bool {
    &&& ready_at(tasks, q, i)
    &&& forall|k: int|
        #[trigger] ready_at(tasks, q, k) ==> tasks[q[i] as int].stride <= tasks[q[k] as int].stride
    &&& forall|k: int|
        0 <= k < i && #[trigger] ready_at(tasks, q, k) ==> tasks[q[i] as int].stride < tasks[q[k] as int].stride
}

/// The pick is unique when it exists.
pub proof fn lemma_sched_pick_unique(tasks: Seq<Task>, q: Seq<usize>, i1: int, i2: int)
    requires
        is_sched_pick(tasks, q, i1),
        is_sched_pick(tasks, q, i2),
    ensures
        i1 == i2,
{
    if i1 < i2 {
        assert(ready_at(tasks, q, i1));
    } else if i2 < i1 {
        assert(ready_at(tasks, q, i2));
    }
}

/// The ready queue, holding task ids; insertion order is preserved.
pub struct TaskManager {
    ready_queue: Vec<usize>,
}

impl View for TaskManager {
    type V = Seq<usize>;

    closed spec fn view(&self) -> Seq<usize> {
        self.ready_queue@
    }
}

impl TaskManager {
    /// An empty ready queue.
    pub fn new() -> (s: Self)
        ensures
            s@ =~= Seq::<usize>::empty(),
    {
        TaskManager { ready_queue: Vec::new() }
    }

    /// Enqueue a task id at the back.
    pub fn add(&mut self, tid: usize)
        ensures
            final(self)@ == old(self)@.push(tid),
    {
        self.ready_queue.push(tid);
    }

    /// Remove and return the id of the first ready task of minimal stride,
    /// charging it one dispatch, or return nothing when no queued task is
    /// ready.  Only the picked task's stride changes; the rest of the queue
    /// keeps its order.
    pub fn fetch(&mut self, tasks: &mut Vec<Task>) -> (r: Option<usize>)
        requires
            forall|i: int| 0 <= i < old(self)@.len() ==> #[trigger] old(self)@[i] < old(tasks)@.len(),
            forall|t: int| 0 <= t < old(tasks)@.len() ==> (#[trigger] old(tasks)@[t]).wf(),
        ensures
            match r {
                None => {
                    &&& final(self)@ == old(self)@
                    &&& final(tasks)@ == old(tasks)@
                    &&& forall|i: int| !is_sched_pick(old(tasks)@, old(self)@, i)
                },
                Some(tid) => exists|i: int|
                    {
                        &&& #[trigger] is_sched_pick(old(tasks)@, old(self)@, i)
                        &&& old(self)@[i] == tid
                        &&& final(self)@ == old(self)@.remove(i)
                        &&& final(tasks)@ == old(tasks)@.update(
                            tid as int,
                            (Task {
                                stride: stride_bump(
                                    old(tasks)@[tid as int].stride,
                                    old(tasks)@[tid as int].priority,
                                ),
                                ..old(tasks)@[tid as int]
                            }),
                        )
                    },
            },
    {
        let n = self.ready_queue.len();
        let mut best: Option<usize> = None;
        for idx in 0..n
            invariant
                n == self.ready_queue@.len(),
                forall|i: int| 0 <= i < self@.len() ==> #[trigger] self@[i] < tasks@.len(),
                match best {
                    None => forall|k: int| 0 <= k < idx ==> !ready_at(tasks@, self.ready_queue@, k),
                    Some(b) => {
                        &&& b < idx
                        &&& ready_at(tasks@, self.ready_queue@, b as int)
                        &&& forall|k: int|
                            0 <= k < idx && #[trigger] ready_at(tasks@, self.ready_queue@, k)
                                ==> tasks@[self.ready_queue@[b as int] as int].stride
                                <= tasks@[self.ready_queue@[k] as int].stride
                        &&& forall|k: int|
                            0 <= k < b && #[trigger] ready_at(tasks@, self.ready_queue@, k)
                                ==> tasks@[self.ready_queue@[b as int] as int].stride
                                < tasks@[self.ready_queue@[k] as int].stride
                    },
                },
        {
            assert(self@[idx as int] < tasks@.len());
            let tid = self.ready_queue[idx];
            if tasks[tid].status == TaskStatus::Ready {
                assert(ready_at(tasks@, self.ready_queue@, idx as int));
                match best {
                    None => {
                        best = Some(idx);
                    },
                    Some(b) => {
                        assert(self@[b as int] < tasks@.len());
                        let bt = self.ready_queue[b];
                        if tasks[bt].stride > tasks[tid].stride {
                            best = Some(idx);
                        }
                    },
                }
            }
        }
        match best {
            None => {
                assert forall|i: int| !is_sched_pick(tasks@, self.ready_queue@, i) by {
                    if 0 <= i < self.ready_queue@.len() {
                        assert(!ready_at(tasks@, self.ready_queue@, i));
                    }
                }
                None
            },
            Some(b) => {
                proof {
                    assert(is_sched_pick(tasks@, self.ready_queue@, b as int));
                    assert(self@[b as int] < tasks@.len());
                }
                let tid = self.ready_queue[b];
                proof {
                    assert(tasks@[tid as int].wf());
                }
                let cur: u64 = tasks[tid].stride;
                let inc: u64 = BIGSTRIDE / tasks[tid].priority;
                let ns: u64 = if cur <= u64::MAX - inc {
                    cur + inc
                } else {
                    u64::MAX
                };
                proof {
                    assert(ns == stride_bump(cur, old(tasks)@[tid as int].priority));
                }
                tasks[tid].stride = ns;
                self.ready_queue.remove(b);
                proof {
                    assert(tasks@ == old(tasks)@.update(
                        tid as int,
                        (Task { stride: stride_bump(old(tasks)@[tid as int].stride, old(tasks)@[tid as int].priority), ..old(tasks)@[tid as int] }),
                    ));
                    assert(self@ == old(self)@.remove(b as int));
                    assert(is_sched_pick(old(tasks)@, old(self)@, b as int));
                }
                Some(tid)
            },
        }
    }
}

/// Dispatches of one task among the first `k` steps of a trace; a `true`
/// entry is a dispatch of the first task, a `false` entry one of the second.
pub open spec fn dispatch_count(t: Seq<bool>, who: bool, k: int) -> int
    decreases k,
{
    if k <= 0 {
        0
    } else {
        dispatch_count(t, who, k - 1) + if t[k - 1] == who {
            1int
        } else {
            0
        }
    }
}

/// A trace of fetch/add cycles over two always-ready tasks with equal initial
/// stride: each step dispatches a task whose accrued stride (dispatch count
/// times per-dispatch increment) is minimal, as `fetch` picks it.
pub open spec fn stride_trace(t: Seq<bool>, inc1: int, inc2: int) -> bool {
    forall|k: int|
        0 <= k < t.len() ==> if #[trigger] t[k] {
            dispatch_count(t, true, k) * inc1 <= dispatch_count(t, false, k) * inc2
        } else {
            dispatch_count(t, false, k) * inc2 <= dispatch_count(t, true, k) * inc1
        }
}

/// Stride fairness: over any run of fetch/add cycles on two always-ready
/// tasks, the accrued strides stay within one increment of each other, so the
/// dispatch counts are inversely proportional to the per-dispatch increments
/// `BIGSTRIDE / priority` - a task with a larger priority value is dispatched
/// proportionally more often.  (The trace model adds increments exactly; it
/// describes `fetch` as long as no stride reaches the counter's cap.)
pub proof fn lemma_stride_fairness(t: Seq<bool>, inc1: int, inc2: int, k: int)
    requires
        1 <= inc1,
        1 <= inc2,
        stride_trace(t, inc1, inc2),
        0 <= k <= t.len(),
    ensures
        -inc2 <= dispatch_count(t, true, k) * inc1 - dispatch_count(t, false, k) * inc2,
        dispatch_count(t, true, k) * inc1 - dispatch_count(t, false, k) * inc2 <= inc1,
    decreases k,
{
    if k > 0 {
        lemma_stride_fairness(t, inc1, inc2, k - 1);
        let c1 = dispatch_count(t, true, k - 1);
        let c2 = dispatch_count(t, false, k - 1);
        if t[k - 1] {
            assert(c1 * inc1 <= c2 * inc2);
            assert((c1 + 1) * inc1 == c1 * inc1 + inc1) by (nonlinear_arith);
        } else {
            assert(c2 * inc2 <= c1 * inc1);
            assert((c2 + 1) * inc2 == c2 * inc2 + inc2) by (nonlinear_arith);
        }
    }
}

} // verus!
