use oscore::scheduler::BIGSTRIDE;
use oscore::scheduler::TaskManager;
use oscore::sync::spawn;
use oscore::sync::Process;
use oscore::task::TaskStatus;

#[test]
fn fetch_on_empty_queue_returns_none() {
    let mut tm = TaskManager::new();
    let mut p = Process::new();
    assert_eq!(tm.fetch(&mut p.tasks), None);
}

#[test]
fn fetch_picks_smallest_stride_and_charges_it() {
    let mut p = Process::new();
    let t0 = spawn(&mut p, 2);
    let t1 = spawn(&mut p, 4);
    p.tasks[t1].stride = 5;
    let mut tm = TaskManager::new();
    tm.add(t0);
    tm.add(t1);
    // t0 has stride 0 < 5, so it is picked and charged BIGSTRIDE / 2.
    assert_eq!(tm.fetch(&mut p.tasks), Some(t0));
    assert_eq!(p.tasks[t0].stride, BIGSTRIDE / 2);
    assert_eq!(p.tasks[t1].stride, 5);
    assert_eq!(tm.fetch(&mut p.tasks), Some(t1));
    assert_eq!(p.tasks[t1].stride, 5 + BIGSTRIDE / 4);
}

#[test]
fn fetch_breaks_ties_by_queue_order() {
    let mut p = Process::new();
    let t0 = spawn(&mut p, 1);
    let t1 = spawn(&mut p, 1);
    let mut tm = TaskManager::new();
    tm.add(t1);
    tm.add(t0);
    // equal strides: the earlier queue entry wins
    assert_eq!(tm.fetch(&mut p.tasks), Some(t1));
}

#[test]
fn fetch_skips_tasks_that_are_not_ready() {
    let mut p = Process::new();
    let t0 = spawn(&mut p, 1);
    let t1 = spawn(&mut p, 1);
    p.tasks[t0].status = TaskStatus::Blocked;
    let mut tm = TaskManager::new();
    tm.add(t0);
    tm.add(t1);
    assert_eq!(tm.fetch(&mut p.tasks), Some(t1));
    // only the non-ready entry is left: nothing to dispatch, entry kept
    assert_eq!(tm.fetch(&mut p.tasks), None);
    p.tasks[t0].status = TaskStatus::Ready;
    assert_eq!(tm.fetch(&mut p.tasks), Some(t0));
}

#[test]
fn stride_dispatch_counts_match_inverse_priorities() {
    // priorities 2 and 4 with equal initial stride: the priority-4 task
    // accrues stride half as fast and must be dispatched about twice as often
    let mut p = Process::new();
    let t0 = spawn(&mut p, 2);
    let t1 = spawn(&mut p, 4);
    let mut tm = TaskManager::new();
    tm.add(t0);
    tm.add(t1);
    let mut c0: u64 = 0;
    let mut c1: u64 = 0;
    for _ in 0..300 {
        let tid = tm.fetch(&mut p.tasks).expect("both tasks stay ready");
        if tid == t0 {
            c0 += 1;
        } else {
            c1 += 1;
        }
        tm.add(tid);
    }
    assert_eq!(c0 + c1, 300);
    // accrued strides stay within one increment of each other
    let inc0 = (BIGSTRIDE / 2) as i128;
    let inc1 = (BIGSTRIDE / 4) as i128;
    let gap = c0 as i128 * inc0 - c1 as i128 * inc1;
    assert!(-inc1 <= gap && gap <= inc0);
    // dispatch-count ratio is 1:2 within tolerance
    assert!(c1 as i128 >= 2 * c0 as i128 - 2);
    assert!(c1 as i128 <= 2 * c0 as i128 + 2);
}
