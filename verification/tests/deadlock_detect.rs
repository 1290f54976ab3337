use rcore_os::deadlock_detect::{DeadLockDetectContext, DeadLockDetectContextInner};

fn ctx(available: Vec<usize>, allocation: Vec<Vec<usize>>, need: Vec<Vec<usize>>) -> DeadLockDetectContextInner {
    DeadLockDetectContextInner { available, allocation, need }
}

#[test]
fn new_context_is_deadlock_free() {
    let c = DeadLockDetectContextInner::new();
    assert_eq!(c.available.len(), 0);
    assert_eq!(c.allocation, vec![Vec::<usize>::new()]);
    assert_eq!(c.need, vec![Vec::<usize>::new()]);
    assert!(c.detect_deadlock());
}

#[test]
fn new_process_context_is_disabled() {
    let c = DeadLockDetectContext::new();
    assert!(!c.enable);
    assert_eq!(c.mutex_inner.allocation.len(), 1);
    assert_eq!(c.semaphore_inner.need.len(), 1);
}

#[test]
fn textbook_state_is_safe() {
    // totals (7, 2, 6); with these holdings nothing is left unallocated
    let c = ctx(
        vec![7, 2, 6],
        vec![vec![0, 1, 0], vec![2, 0, 0], vec![3, 0, 3], vec![2, 1, 1], vec![0, 0, 2]],
        vec![vec![0, 0, 0], vec![2, 0, 2], vec![0, 0, 0], vec![1, 0, 0], vec![0, 0, 2]],
    );
    assert!(c.detect_deadlock());
}

#[test]
fn textbook_state_with_one_more_request_deadlocks() {
    let c = ctx(
        vec![7, 2, 6],
        vec![vec![0, 1, 0], vec![2, 0, 0], vec![3, 0, 3], vec![2, 1, 1], vec![0, 0, 2]],
        vec![vec![0, 0, 0], vec![2, 0, 2], vec![0, 0, 1], vec![1, 0, 0], vec![0, 0, 2]],
    );
    assert!(!c.detect_deadlock());
}

#[test]
fn crossed_mutexes_deadlock() {
    let c = ctx(vec![1, 1], vec![vec![1, 0], vec![0, 1]], vec![vec![0, 1], vec![1, 0]]);
    assert!(!c.detect_deadlock());
}

#[test]
fn waiting_for_a_free_mutex_is_safe() {
    let c = ctx(vec![1, 1], vec![vec![1, 0], vec![0, 0]], vec![vec![0, 1], vec![1, 0]]);
    assert!(c.detect_deadlock());
}

#[test]
fn order_of_finishing_is_found_out_of_index_order() {
    // thread 0 can only run after thread 2 gives back its unit
    let c = ctx(vec![1], vec![vec![0], vec![0], vec![1]], vec![vec![1], vec![1], vec![0]]);
    assert!(c.detect_deadlock());
}

#[test]
fn add_need_and_grant_touch_one_entry() {
    let mut c = ctx(vec![2, 3], vec![vec![0, 0], vec![1, 0]], vec![vec![0, 0], vec![0, 2]]);
    c.add_need(1, 1);
    assert_eq!(c.need, vec![vec![0, 0], vec![0, 3]]);
    assert_eq!(c.allocation, vec![vec![0, 0], vec![1, 0]]);
    c.grant(1, 1);
    assert_eq!(c.need, vec![vec![0, 0], vec![0, 0]]);
    assert_eq!(c.allocation, vec![vec![0, 0], vec![1, 1]]);
    assert_eq!(c.available, vec![2, 3]);
}

#[test]
fn renumbering_threads_keeps_the_verdict() {
    let a = ctx(vec![1], vec![vec![0], vec![0], vec![1]], vec![vec![1], vec![1], vec![0]]);
    let b = ctx(vec![1], vec![vec![1], vec![0], vec![0]], vec![vec![0], vec![1], vec![1]]);
    assert_eq!(a.detect_deadlock(), b.detect_deadlock());
    let c = ctx(vec![1, 1], vec![vec![1, 0], vec![0, 1]], vec![vec![0, 1], vec![1, 0]]);
    let d = ctx(vec![1, 1], vec![vec![0, 1], vec![1, 0]], vec![vec![1, 0], vec![0, 1]]);
    assert_eq!(c.detect_deadlock(), d.detect_deadlock());
}
