use rcore_os::deadlock_detect::DeadLockDetectContextInner;
use rcore_os::mutex::{LockStep, Mutex, MutexBlocking, MutexSpin};
use rcore_os::semaphore::Semaphore;

fn matrices(threads: usize, resources: usize) -> DeadLockDetectContextInner {
    DeadLockDetectContextInner {
        available: vec![1; resources],
        allocation: vec![vec![0; resources]; threads],
        need: vec![vec![0; resources]; threads],
    }
}

#[test]
fn semaphore_blocks_when_empty_and_wakes_in_order() {
    let mut ctx = matrices(3, 1);
    let mut s: Semaphore<&str> = Semaphore::new(1);
    assert_eq!(s.inner.count, 1);
    assert!(!s.down("a", 0, 0, &mut ctx));
    assert_eq!(ctx.allocation[0][0], 1);
    assert!(s.down("b", 1, 0, &mut ctx));
    assert!(s.down("c", 2, 0, &mut ctx));
    assert_eq!(s.inner.count, -2);
    assert_eq!(ctx.need[1][0], 1);
    assert_eq!(ctx.need[2][0], 1);
    assert_eq!(s.inner.wait_queue.len(), 2);
    assert_eq!(s.up(), Some("b"));
    assert_eq!(s.up(), Some("c"));
    assert_eq!(s.up(), None);
    assert_eq!(s.inner.count, 1);
}

#[test]
fn semaphore_up_without_waiters_only_counts() {
    let mut s: Semaphore<u32> = Semaphore::new(0);
    assert_eq!(s.up(), None);
    assert_eq!(s.inner.count, 1);
}

#[test]
fn blocking_mutex_hands_over_to_first_waiter() {
    let mut ctx = matrices(3, 1);
    let mut m: MutexBlocking<u32> = MutexBlocking::new();
    assert_eq!(m.lock(10, 0, 0, &mut ctx), LockStep::Acquired);
    assert_eq!(ctx.allocation[0][0], 1);
    assert_eq!(m.lock(11, 1, 0, &mut ctx), LockStep::Blocked);
    assert_eq!(m.lock(12, 2, 0, &mut ctx), LockStep::Blocked);
    assert_eq!(ctx.need[1][0], 1);
    assert_eq!(m.unlock(), Some(11));
    assert!(m.inner.locked);
    assert_eq!(m.unlock(), Some(12));
    assert_eq!(m.unlock(), None);
    assert!(!m.inner.locked);
}

#[test]
fn spin_mutex_makes_second_locker_retry() {
    let mut ctx = matrices(2, 1);
    let mut m = MutexSpin::new();
    assert_eq!(Mutex::<u32>::lock(&mut m, 0, 0, 0, &mut ctx), LockStep::Acquired);
    assert_eq!(ctx.need[0][0], 0);
    assert_eq!(ctx.allocation[0][0], 1);
    assert_eq!(Mutex::<u32>::lock(&mut m, 1, 1, 0, &mut ctx), LockStep::Busy);
    assert_eq!(ctx.need[1][0], 1);
    assert_eq!(m.try_acquire(1, 0, &mut ctx), LockStep::Busy);
    assert_eq!(ctx.need[1][0], 1);
    assert_eq!(Mutex::<u32>::unlock(&mut m), None);
    assert!(!m.locked);
    assert_eq!(m.try_acquire(1, 0, &mut ctx), LockStep::Acquired);
    assert_eq!(ctx.need[1][0], 0);
    assert_eq!(ctx.allocation[1][0], 1);
}
