use oscore::banker::check;

#[test]
fn check_accepts_instance_with_safe_order() {
    // three tasks, two resource kinds, one safe completion order: 0, 1, 2
    let mut work: Vec<i32> = vec![1, 1];
    let need: Vec<Vec<i32>> = vec![vec![1, 0], vec![0, 1], vec![1, 1]];
    let allocation: Vec<Vec<i32>> = vec![vec![0, 1], vec![1, 0], vec![0, 0]];
    assert_eq!(check(3, 2, &mut work, &need, &allocation), true);
}

#[test]
fn check_rejects_cyclic_wait() {
    // two tasks each hold what the other needs and nothing is free
    let mut work: Vec<i32> = vec![0, 0];
    let need: Vec<Vec<i32>> = vec![vec![0, 1], vec![1, 0], vec![0, 0]];
    let allocation: Vec<Vec<i32>> = vec![vec![1, 0], vec![0, 1], vec![0, 0]];
    assert_eq!(check(3, 2, &mut work, &need, &allocation), false);
}

#[test]
fn check_with_no_tasks_is_safe() {
    let mut work: Vec<i32> = vec![3, 4];
    let need: Vec<Vec<i32>> = Vec::new();
    let allocation: Vec<Vec<i32>> = Vec::new();
    assert_eq!(check(0, 2, &mut work, &need, &allocation), true);
}

#[test]
fn check_needs_cascade_of_releases() {
    // only task 1 can finish first; its allocation then frees task 0
    let mut work: Vec<i32> = vec![0, 1];
    let need: Vec<Vec<i32>> = vec![vec![2, 0], vec![0, 1]];
    let allocation: Vec<Vec<i32>> = vec![vec![0, 0], vec![2, 0]];
    assert_eq!(check(2, 2, &mut work, &need, &allocation), true);
}

#[test]
fn check_rejects_when_need_exceeds_everything() {
    let mut work: Vec<i32> = vec![1];
    let need: Vec<Vec<i32>> = vec![vec![3]];
    let allocation: Vec<Vec<i32>> = vec![vec![1]];
    assert_eq!(check(1, 1, &mut work, &need, &allocation), false);
}
