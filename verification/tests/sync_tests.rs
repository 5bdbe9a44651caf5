use oscore::sync::spawn;
use oscore::sync::sys_condvar_create;
use oscore::sync::sys_condvar_signal;
use oscore::sync::sys_condvar_wait;
use oscore::sync::sys_enable_deadlock_detect;
use oscore::sync::sys_exit;
use oscore::sync::sys_mutex_create;
use oscore::sync::sys_mutex_lock;
use oscore::sync::sys_mutex_unlock;
use oscore::sync::sys_semaphore_create;
use oscore::sync::sys_semaphore_down;
use oscore::sync::sys_semaphore_up;
use oscore::sync::sys_sleep;
use oscore::sync::sys_yield;
use oscore::sync::Process;
use oscore::sync::WOULD_DEADLOCK;
use oscore::task::TaskStatus;

fn owner_of(p: &Process, mutex_id: usize) -> Option<usize> {
    match &p.mutex_list[mutex_id] {
        Some(mx) => mx.owner,
        None => panic!("no such lock"),
    }
}

fn sem_count(p: &Process, sem_id: usize) -> i64 {
    match &p.semaphore_list[sem_id] {
        Some(sem) => sem.count,
        None => panic!("no such semaphore"),
    }
}

#[test]
fn handle_ids_count_up_from_zero() {
    let mut p = Process::new();
    assert_eq!(sys_mutex_create(&mut p, true), 0);
    assert_eq!(sys_mutex_create(&mut p, false), 1);
    assert_eq!(sys_semaphore_create(&mut p, 3), 0);
    assert_eq!(sys_semaphore_create(&mut p, 0), 1);
    assert_eq!(sys_condvar_create(&mut p), 0);
    assert_eq!(p.semaphore_available[0], 3);
    assert_eq!(sem_count(&p, 0), 3);
}

#[test]
fn unknown_handles_are_refused() {
    let mut p = Process::new();
    let t0 = spawn(&mut p, 1);
    assert_eq!(sys_mutex_lock(&mut p, t0, 7), -1);
    assert_eq!(sys_mutex_unlock(&mut p, t0, 7), -1);
    assert_eq!(sys_semaphore_up(&mut p, t0, 7), -1);
    assert_eq!(sys_semaphore_down(&mut p, t0, 7), -1);
    assert_eq!(sys_condvar_signal(&mut p, 7), -1);
    assert_eq!(sys_condvar_wait(&mut p, t0, 7, 0), -1);
}

#[test]
fn lock_mutual_exclusion_across_interleaved_acquires() {
    let mut p = Process::new();
    let t0 = spawn(&mut p, 1);
    let t1 = spawn(&mut p, 1);
    let m = sys_mutex_create(&mut p, true) as usize;
    assert_eq!(sys_mutex_lock(&mut p, t0, m), 0);
    assert_eq!(owner_of(&p, m), Some(t0));
    // contender is queued and suspended; the owner does not change
    assert_eq!(sys_mutex_lock(&mut p, t1, m), 0);
    assert_eq!(owner_of(&p, m), Some(t0));
    assert_eq!(p.tasks[t1].status, TaskStatus::Blocked);
    // release hands the lock directly to the head waiter and readies it
    assert_eq!(sys_mutex_unlock(&mut p, t0, m), 0);
    assert_eq!(owner_of(&p, m), Some(t1));
    assert_eq!(p.tasks[t1].status, TaskStatus::Ready);
    // final release with no waiters frees the lock
    assert_eq!(sys_mutex_unlock(&mut p, t1, m), 0);
    assert_eq!(owner_of(&p, m), None);
}

#[test]
fn spinning_contender_stays_ready() {
    let mut p = Process::new();
    let t0 = spawn(&mut p, 1);
    let t1 = spawn(&mut p, 1);
    let m = sys_mutex_create(&mut p, false) as usize;
    assert_eq!(sys_mutex_lock(&mut p, t0, m), 0);
    assert_eq!(sys_mutex_lock(&mut p, t1, m), 0);
    assert_eq!(p.tasks[t1].status, TaskStatus::Ready);
    assert_eq!(owner_of(&p, m), Some(t0));
}

#[test]
fn semaphore_n_ups_then_n_downs_never_block() {
    let mut p = Process::new();
    let t0 = spawn(&mut p, 1);
    let s = sys_semaphore_create(&mut p, 0) as usize;
    for _ in 0..3 {
        assert_eq!(sys_semaphore_up(&mut p, t0, s), 0);
    }
    assert_eq!(sem_count(&p, s), 3);
    for _ in 0..3 {
        assert_eq!(sys_semaphore_down(&mut p, t0, s), 0);
        assert_eq!(p.tasks[t0].status, TaskStatus::Ready);
    }
    assert_eq!(sem_count(&p, s), 0);
}

#[test]
fn extra_down_blocks_until_matching_up() {
    let mut p = Process::new();
    let t0 = spawn(&mut p, 1);
    let t1 = spawn(&mut p, 1);
    let s = sys_semaphore_create(&mut p, 2) as usize;
    assert_eq!(sys_semaphore_down(&mut p, t0, s), 0);
    assert_eq!(sys_semaphore_down(&mut p, t0, s), 0);
    assert_eq!(p.tasks[t0].status, TaskStatus::Ready);
    // the third down on a 2-initialized semaphore blocks
    assert_eq!(sys_semaphore_down(&mut p, t0, s), 0);
    assert_eq!(p.tasks[t0].status, TaskStatus::Blocked);
    assert_eq!(sem_count(&p, s), -1);
    // a matching up wakes the head waiter
    assert_eq!(sys_semaphore_up(&mut p, t1, s), 0);
    assert_eq!(p.tasks[t0].status, TaskStatus::Ready);
    assert_eq!(sem_count(&p, s), 0);
}

#[test]
fn available_counter_follows_count_and_holds() {
    let mut p = Process::new();
    let t0 = spawn(&mut p, 1);
    let t1 = spawn(&mut p, 1);
    let s = sys_semaphore_create(&mut p, 2) as usize;
    assert_eq!(p.semaphore_available[s], 2);
    // a down moves one unit into the holder's ledger; available is unchanged
    assert_eq!(sys_semaphore_down(&mut p, t0, s), 0);
    assert_eq!(p.semaphore_available[s], 2);
    assert_eq!(sem_count(&p, s), 1);
    // an up by the holder returns the unit; available is unchanged
    assert_eq!(sys_semaphore_up(&mut p, t0, s), 0);
    assert_eq!(p.semaphore_available[s], 2);
    assert_eq!(sem_count(&p, s), 2);
    // an up by a task holding nothing produces a unit; available grows
    assert_eq!(sys_semaphore_up(&mut p, t1, s), 0);
    assert_eq!(p.semaphore_available[s], 3);
    assert_eq!(sem_count(&p, s), 3);
}

#[test]
fn cyclic_locks_accepted_with_detection_off_rejected_with_it_on() {
    // detection off: the cyclic acquire sequence is accepted and both tasks
    // end up suspended (the hang is by design)
    let mut p = Process::new();
    let t0 = spawn(&mut p, 1);
    let t1 = spawn(&mut p, 1);
    let m0 = sys_mutex_create(&mut p, true) as usize;
    let m1 = sys_mutex_create(&mut p, true) as usize;
    assert_eq!(sys_mutex_lock(&mut p, t0, m0), 0);
    assert_eq!(sys_mutex_lock(&mut p, t1, m1), 0);
    assert_eq!(sys_mutex_lock(&mut p, t0, m1), 0);
    assert_eq!(sys_mutex_lock(&mut p, t1, m0), 0);
    assert_eq!(p.tasks[t0].status, TaskStatus::Blocked);
    assert_eq!(p.tasks[t1].status, TaskStatus::Blocked);

    // detection on: the same sequence is rejected at the conflicting acquire
    let mut q = Process::new();
    let u0 = spawn(&mut q, 1);
    let u1 = spawn(&mut q, 1);
    let k0 = sys_mutex_create(&mut q, true) as usize;
    let k1 = sys_mutex_create(&mut q, true) as usize;
    assert_eq!(sys_enable_deadlock_detect(&mut q, 1), 0);
    assert_eq!(sys_mutex_lock(&mut q, u0, k0), 0);
    assert_eq!(sys_mutex_lock(&mut q, u1, k1), 0);
    assert_eq!(sys_mutex_lock(&mut q, u0, k1), 0);
    let refused = sys_mutex_lock(&mut q, u1, k0);
    assert_eq!(refused, WOULD_DEADLOCK);
    assert_eq!(refused, -0xdead);
    // the refused requester is left exactly as before: ready, holding only k1
    assert_eq!(q.tasks[u1].status, TaskStatus::Ready);
    assert_eq!(q.tasks[u1].apply_mutex_id.len(), 0);
    assert_eq!(q.tasks[u1].allocated_mutex_id, vec![k1]);
}

#[test]
fn cyclic_semaphores_rejected_with_detection_on() {
    let mut p = Process::new();
    let t0 = spawn(&mut p, 1);
    let t1 = spawn(&mut p, 1);
    let s0 = sys_semaphore_create(&mut p, 1) as usize;
    let s1 = sys_semaphore_create(&mut p, 1) as usize;
    assert_eq!(sys_enable_deadlock_detect(&mut p, 1), 0);
    assert_eq!(sys_semaphore_down(&mut p, t0, s0), 0);
    assert_eq!(sys_semaphore_down(&mut p, t1, s1), 0);
    assert_eq!(sys_semaphore_down(&mut p, t0, s1), 0);
    assert_eq!(p.tasks[t0].status, TaskStatus::Blocked);
    assert_eq!(sys_semaphore_down(&mut p, t1, s0), WOULD_DEADLOCK);
    assert_eq!(p.tasks[t1].status, TaskStatus::Ready);
    assert_eq!(p.tasks[t1].apply_sem_id.len(), 0);
}

#[test]
fn condvar_wait_releases_lock_and_signal_wakes() {
    let mut p = Process::new();
    let t0 = spawn(&mut p, 1);
    let m = sys_mutex_create(&mut p, true) as usize;
    let c = sys_condvar_create(&mut p) as usize;
    assert_eq!(sys_mutex_lock(&mut p, t0, m), 0);
    assert_eq!(owner_of(&p, m), Some(t0));
    // wait releases the lock and blocks the caller
    assert_eq!(sys_condvar_wait(&mut p, t0, c, m), 0);
    assert_eq!(owner_of(&p, m), None);
    assert_eq!(p.tasks[t0].status, TaskStatus::Blocked);
    // signal readies the waiter; it does not reacquire the lock
    assert_eq!(sys_condvar_signal(&mut p, c), 0);
    assert_eq!(p.tasks[t0].status, TaskStatus::Ready);
    assert_eq!(owner_of(&p, m), None);
    // a signal with nobody waiting is a no-op
    assert_eq!(sys_condvar_signal(&mut p, c), 0);
}

#[test]
fn yield_sleep_and_exit_change_only_the_status() {
    let mut p = Process::new();
    let t0 = spawn(&mut p, 1);
    assert_eq!(sys_yield(&mut p, t0), 0);
    assert_eq!(p.tasks[t0].status, TaskStatus::Ready);
    assert_eq!(sys_sleep(&mut p, t0, 500, 250), 750);
    assert_eq!(p.tasks[t0].status, TaskStatus::Blocked);
    assert_eq!(sys_exit(&mut p, t0), 0);
    assert_eq!(p.tasks[t0].status, TaskStatus::Zombie);
}

#[test]
fn freed_request_can_be_retried_after_release() {
    // a would-deadlock refusal leaves the state retryable: once the holder
    // releases, the same request succeeds
    let mut p = Process::new();
    let t0 = spawn(&mut p, 1);
    let t1 = spawn(&mut p, 1);
    let m0 = sys_mutex_create(&mut p, true) as usize;
    let m1 = sys_mutex_create(&mut p, true) as usize;
    assert_eq!(sys_enable_deadlock_detect(&mut p, 1), 0);
    assert_eq!(sys_mutex_lock(&mut p, t0, m0), 0);
    assert_eq!(sys_mutex_lock(&mut p, t1, m1), 0);
    assert_eq!(sys_mutex_lock(&mut p, t0, m1), 0);
    assert_eq!(sys_mutex_lock(&mut p, t1, m0), WOULD_DEADLOCK);
    // t1 gives up its lock instead; t0 is handed it and the system drains
    assert_eq!(sys_mutex_unlock(&mut p, t1, m1), 0);
    assert_eq!(owner_of(&p, m1), Some(t0));
    assert_eq!(p.tasks[t0].status, TaskStatus::Ready);
}
