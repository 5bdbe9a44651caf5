//! Tasks (threads) as the unit of scheduling, and the small records some
//! syscalls report to user space.

use vstd::prelude::*;

verus! {

/// Life-cycle state of a task: it is created `Ready`, alternates between
/// `Ready`, `Running` and `Blocked`, and ends as `Zombie`.
#[derive(Clone, Copy, Debug, PartialEq, Eq, Structural)]
pub enum TaskStatus {
    Ready,
    Running,
    Blocked,
    Zombie,
}

/// A task control block: scheduling state plus the per-task resource ledger
/// read by the deadlock detector.  The requested and held multisets are kept
/// as lists of handle ids; an id occurs once per requested or held unit.
pub struct Task {
    pub status: TaskStatus,
    /// Monotonically non-decreasing virtual time used by stride scheduling.
    pub stride: u64,
    /// Scheduling weight divisor; always at least one.
    pub priority: u64,
    /// Requested locks, one id per outstanding unit.
    pub apply_mutex_id: Vec<usize>,
    /// Held locks, one id per unit.
    pub allocated_mutex_id: Vec<usize>,
    /// Requested semaphore units, one id per outstanding unit.
    pub apply_sem_id: Vec<usize>,
    /// Held semaphore units, one id per unit.
    pub allocated_sem_id: Vec<usize>,
}

impl Task {
    /// A schedulable task has a positive priority.
    pub open spec fn wf(self) -> bool {
        self.priority >= 1
    }

    /// A fresh task: ready, with zero stride and an empty ledger.
    pub fn new(priority: u64) -> (t: Task)
        requires
            priority >= 1,
        ensures
            t.status is Ready,
            t.stride == 0,
            t.priority == priority,
            t.apply_mutex_id@.len() == 0,
            t.allocated_mutex_id@.len() == 0,
            t.apply_sem_id@.len() == 0,
            t.allocated_sem_id@.len() == 0,
            t.wf(),
    {
        Task {
            status: TaskStatus::Ready,
            stride: 0,
            priority,
            apply_mutex_id: Vec::new(),
            allocated_mutex_id: Vec::new(),
            apply_sem_id: Vec::new(),
            allocated_sem_id: Vec::new(),
        }
    }
}

/// A wall-clock instant, seconds and microseconds, as reported to user space.
#[derive(Clone, Copy, Debug, PartialEq, Eq, Structural)]
pub struct TimeVal {
    pub sec: usize,
    pub usec: usize,
}

impl TimeVal {
    /// Split a count of microseconds into whole seconds and the remainder.
    pub fn from_us(us: usize) -> (t: TimeVal)
        ensures
            t.sec == us / 1_000_000,
            t.usec == us % 1_000_000,
            t.sec * 1_000_000 + t.usec == us,
    {
        proof {
            vstd::arithmetic::div_mod::lemma_fundamental_div_mod(us as int, 1_000_000int);
        }
        TimeVal { sec: us / 1_000_000, usec: us % 1_000_000 }
    }
}

/// What a task reports about itself: its status, how often it made each
/// syscall, and how long it has run, in milliseconds.
pub struct TaskInfo {
    pub status: TaskStatus,
    pub syscall_times: Vec<u32>,
    pub time: usize,
}

impl TaskInfo {
    /// A report for a running task that has made no syscalls yet; one counter
    /// per possible syscall number.
    pub fn new(num_syscalls: usize, time: usize) -> (info: TaskInfo)
        ensures
            info.status is Running,
            info.syscall_times@.len() == num_syscalls,
            forall|i: int| 0 <= i < num_syscalls ==> info.syscall_times@[i] == 0,
            info.time == time,
    {
        let mut counters: Vec<u32> = Vec::new();
        while counters.len() < num_syscalls
            invariant
                counters@.len() <= num_syscalls,
                forall|i: int| 0 <= i < counters@.len() ==> counters@[i] == 0,
            decreases num_syscalls - counters@.len(),
        {
            counters.push(0);
        }
        TaskInfo { status: TaskStatus::Running, syscall_times: counters, time }
    }

    /// Count one more use of the given syscall number, saturating at the
    /// counter's width.
    pub fn record_syscall(&mut self, syscall_id: usize)
        requires
            syscall_id < old(self).syscall_times@.len(),
        ensures
            final(self).syscall_times@.len() == old(self).syscall_times@.len(),
            final(self).syscall_times@[syscall_id as int] == if old(self).syscall_times@[syscall_id as int] == u32::MAX {
                u32::MAX
            } else {
                (old(self).syscall_times@[syscall_id as int] + 1) as u32
            },
            forall|i: int|
                0 <= i < old(self).syscall_times@.len() && i != syscall_id
                    ==> final(self).syscall_times@[i] == old(self).syscall_times@[i],
            final(self).status == old(self).status,
            final(self).time == old(self).time,
    {
        let cur: u32 = self.syscall_times[syscall_id];
        if cur < u32::MAX {
            self.syscall_times.set(syscall_id, cur + 1);
        }
    }
}

} // verus!
