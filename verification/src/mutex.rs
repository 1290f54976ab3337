//! Mutexes: a spinning one and a blocking one with a FIFO queue of waiters.
//!
//! A mutex decides; the kernel acts.  `lock` says whether the caller now holds
//! the mutex, must block (it has joined the queue), or must yield and try
//! again; `unlock` names the waiter, if any, that the mutex is handed to.
//! Each step also records in the process's mutex matrices what the calling
//! thread waits for or has been granted.
use vstd::prelude::*;
use std::collections::VecDeque;
use crate::deadlock_detect::DeadLockDetectContextInner;

verus! {

/// What a lock attempt tells the caller to do.
#[derive(PartialEq, Eq, Structural, Clone, Copy, Debug)]
pub enum LockStep {
    /// The caller holds the mutex.
    Acquired,
    /// The caller has joined the wait queue and must block until woken.
    Blocked,
    /// The mutex is taken: the caller must yield and try again.
    Busy,
}

/// The matrices after thread `t` starts to wait for one more unit of `r`.
pub open spec fn waits_for_one_more(before: DeadLockDetectContextInner, after: DeadLockDetectContextInner, t: int, r: int) -> bool {
    &&& after.avail() == before.avail()
    &&& after.held() == before.held()
    &&& after.needs() == before.needs().update(t, before.needs()[t].update(r, (before.needs()[t][r] + 1) as usize))
}

/// The matrices after thread `t` is granted one unit of `r`.
pub open spec fn granted_one(before: DeadLockDetectContextInner, after: DeadLockDetectContextInner, t: int, r: int) -> bool {
    &&& after.avail() == before.avail()
    &&& after.needs() == before.needs().update(t, before.needs()[t].update(r, 0usize))
    &&& after.held() == before.held().update(t, before.held()[t].update(r, (before.held()[t][r] + 1) as usize))
}

/// A mutex taken by thread `tid` (running as `task`) with id `mutex_id`.
pub trait Mutex<T>: Sized {
    /// The mutex is held.
    spec fn is_locked(&self) -> bool;

    /// What `lock` needs of the matrices of the calling thread.
    spec fn lock_fits(&self, ctx: DeadLockDetectContextInner, tid: int, mutex_id: int) -> bool;

    /// `unlock` may be called.
    spec fn may_unlock(&self) -> bool;

    /// The task that `unlock` hands the mutex to, if any.
    spec fn next_owner(&self) -> Option<T>;

    /// One lock attempt.  On `Acquired` the thread no longer waits for the
    /// mutex and holds it once more; otherwise it is recorded as waiting.
    fn lock(&mut self, task: T, tid: usize, mutex_id: usize, ctx: &mut DeadLockDetectContextInner) -> (step: LockStep)
        requires
            old(self).lock_fits(*old(ctx), tid as int, mutex_id as int),
        ensures
            step == LockStep::Acquired ==> final(self).is_locked()
                && granted_one(*old(ctx), *final(ctx), tid as int, mutex_id as int),
            step != LockStep::Acquired ==> old(self).is_locked()
                && waits_for_one_more(*old(ctx), *final(ctx), tid as int, mutex_id as int),
    ;

    /// Releases the mutex.  When a waiter is returned, the mutex passes to it
    /// and stays held; otherwise it is free.
    fn unlock(&mut self) -> (woken: Option<T>)
        requires
            old(self).may_unlock(),
        ensures
            woken == old(self).next_owner(),
            woken.is_some() <==> final(self).is_locked(),
    ;
}

/// A mutex that makes waiting threads yield and retry.
pub struct MutexSpin {
    pub locked: bool,
}

impl MutexSpin {
    /// A free mutex.
    pub fn new() -> (m: Self)
        ensures
            !m.locked,
    {
        MutexSpin { locked: false }
    }

    /// A retry after `lock` answered `Busy`: takes the mutex if it is free.
    /// The thread's waiting entry was already counted by `lock`.
    pub fn try_acquire(&mut self, tid: usize, mutex_id: usize, ctx: &mut DeadLockDetectContextInner) -> (step: LockStep)
        requires
            !old(self).locked ==> old(ctx).has_need_entry(tid as int, mutex_id as int)
                && old(ctx).has_held_entry(tid as int, mutex_id as int)
                && old(ctx).held()[tid as int][mutex_id as int] < usize::MAX,
        ensures
            final(self).locked,
            step == LockStep::Acquired || step == LockStep::Busy,
            step == LockStep::Acquired <==> !old(self).locked,
            step == LockStep::Acquired ==> granted_one(*old(ctx), *final(ctx), tid as int, mutex_id as int),
            step == LockStep::Busy ==> *final(ctx) == *old(ctx),
    {
        if self.locked {
            LockStep::Busy
        } else {
            ctx.grant(tid, mutex_id);
            self.locked = true;
            LockStep::Acquired
        }
    }
}

impl<T> Mutex<T> for MutexSpin {
    open spec fn is_locked(&self) -> bool {
        self.locked
    }

    open spec fn lock_fits(&self, ctx: DeadLockDetectContextInner, tid: int, mutex_id: int) -> bool {
        &&& ctx.has_need_entry(tid, mutex_id)
        &&& ctx.needs()[tid][mutex_id] < usize::MAX
        &&& !self.locked ==> ctx.has_held_entry(tid, mutex_id) && ctx.held()[tid][mutex_id] < usize::MAX
    }

    open spec fn may_unlock(&self) -> bool {
        true
    }

    open spec fn next_owner(&self) -> Option<T> {
        None
    }

    /// Counts the thread as waiting, then makes one attempt.
    fn lock(&mut self, task: T, tid: usize, mutex_id: usize, ctx: &mut DeadLockDetectContextInner) -> (step: LockStep)
        ensures
            final(self).locked,
            step == LockStep::Acquired || step == LockStep::Busy,
            step == LockStep::Acquired <==> !old(self).locked,
    {
        ctx.add_need(tid, mutex_id);
        let ghost mid = *ctx;
        let step = self.try_acquire(tid, mutex_id, ctx);
        proof {
            if step == LockStep::Acquired {
                assert(ctx.needs()[tid as int] =~= old(ctx).needs()[tid as int].update(mutex_id as int, 0usize));
                assert(ctx.needs() =~= old(ctx).needs().update(
                    tid as int,
                    old(ctx).needs()[tid as int].update(mutex_id as int, 0usize),
                ));
            }
        }
        step
    }

    /// Frees the mutex; no task is ever handed over.
    fn unlock(&mut self) -> (woken: Option<T>)
    {
        self.locked = false;
        None
    }
}

/// What a blocking mutex is: whether it is held, and its waiting tasks.
pub struct MutexState<T> {
    pub locked: bool,
    pub waiters: Seq<T>,
}

/// Only a held mutex has waiters.
pub open spec fn mutex_wf<T>(s: MutexState<T>) -> bool {
    !s.locked ==> s.waiters.len() == 0
}

/// `lock` by `task`: a held mutex queues the task, a free one is taken.
pub open spec fn lock_step<T>(s: MutexState<T>, task: T) -> (MutexState<T>, LockStep) {
    if s.locked {
        (MutexState { locked: true, waiters: s.waiters.push(task) }, LockStep::Blocked)
    } else {
        (MutexState { locked: true, waiters: s.waiters }, LockStep::Acquired)
    }
}

/// `unlock`: the first waiter, if any, gets the mutex; otherwise it is free.
pub open spec fn unlock_step<T>(s: MutexState<T>) -> (MutexState<T>, Option<T>) {
    if s.waiters.len() > 0 {
        (MutexState { locked: true, waiters: s.waiters.drop_first() }, Some(s.waiters[0]))
    } else {
        (MutexState { locked: false, waiters: s.waiters }, None)
    }
}

/// `lock` and `unlock` keep waiters only on a held mutex.
pub proof fn lemma_mutex_steps_keep_wf<T>(s: MutexState<T>, task: T)
    requires
        mutex_wf(s),
    ensures
        mutex_wf(lock_step(s, task).0),
        mutex_wf(unlock_step(s).0),
{
}

/// Locking a held mutex always queues the caller behind every task already
/// waiting, however many there are: the caller blocks, the mutex stays
/// held, and the queue grows by exactly the caller, at its end.
pub proof fn lemma_mutex_lock_queues_caller<T>(s: MutexState<T>, task: T)
    requires
        s.locked,
    ensures
        lock_step(s, task).1 == LockStep::Blocked,
        lock_step(s, task).0.locked,
        lock_step(s, task).0.waiters.len() == s.waiters.len() + 1,
        lock_step(s, task).0.waiters.last() == task,
        forall|i: int| 0 <= i < s.waiters.len() ==> lock_step(s, task).0.waiters[i] == s.waiters[i],
{
}

/// The next `unlock` after a task has queued on a held mutex serves the
/// queue's first task, and the newly queued task stays at the end: waiters
/// are served first come, first served.
pub proof fn lemma_mutex_fifo<T>(s: MutexState<T>, task: T)
    requires
        s.locked,
        s.waiters.len() > 0,
    ensures
        unlock_step(lock_step(s, task).0).1 == Some(s.waiters[0]),
        unlock_step(lock_step(s, task).0).0.locked,
        unlock_step(lock_step(s, task).0).0.waiters.len() == s.waiters.len(),
        unlock_step(lock_step(s, task).0).0.waiters.last() == task,
{
}

/// `unlock` alone keeps the mutex from being free while a task waits: it
/// hands over to a waiter, or frees the mutex only when none waits.
pub proof fn lemma_mutex_unlock_keeps_wf<T>(s: MutexState<T>)
    ensures
        mutex_wf(unlock_step(s).0),
{
}

/// Taking a free mutex and releasing it leaves it free, waking no one.
pub proof fn lemma_mutex_lock_then_unlock<T>(s: MutexState<T>, task: T)
    requires
        mutex_wf(s),
        !s.locked,
    ensures
        lock_step(s, task).1 == LockStep::Acquired,
        unlock_step(lock_step(s, task).0) == (s, None::<T>),
{
}

/// A task that blocks on a held mutex with no other waiter gets the mutex
/// at the next `unlock`, which leaves it held and without waiters.
pub proof fn lemma_mutex_handover<T>(s: MutexState<T>, task: T)
    requires
        s.locked,
        s.waiters.len() == 0,
    ensures
        lock_step(s, task).1 == LockStep::Blocked,
        unlock_step(lock_step(s, task).0) == (MutexState { locked: true, waiters: Seq::<T>::empty() }, Some(task)),
{
    let s1 = lock_step(s, task).0;
    assert(s1.waiters =~= seq![task]);
    assert(s1.waiters.drop_first() =~= Seq::<T>::empty());
}

impl<T> View for MutexBlocking<T> {
    type V = MutexState<T>;

    open spec fn view(&self) -> MutexState<T> {
        MutexState { locked: self.inner.locked, waiters: self.inner.wait_queue@ }
    }
}

/// The state of a blocking mutex.
pub struct MutexBlockingInner<T> {
    pub locked: bool,
    /// Blocked tasks, first blocked first.
    pub wait_queue: VecDeque<T>,
}

/// A mutex that puts waiting tasks to sleep in a FIFO queue.
pub struct MutexBlocking<T> {
    pub inner: MutexBlockingInner<T>,
}

impl<T> MutexBlocking<T> {
    pub open spec fn waiters(&self) -> Seq<T> {
        self.inner.wait_queue@
    }

    /// Only a held mutex has waiters.
    pub open spec fn wf(&self) -> bool {
        mutex_wf(self@)
    }

    /// A free mutex without waiters.
    pub fn new() -> (m: Self)
        ensures
            !m.inner.locked,
            m.waiters() == Seq::<T>::empty(),
            m.wf(),
    {
        MutexBlocking { inner: MutexBlockingInner { locked: false, wait_queue: VecDeque::new() } }
    }
}

impl<T> Mutex<T> for MutexBlocking<T> {
    open spec fn is_locked(&self) -> bool {
        self.inner.locked
    }

    open spec fn lock_fits(&self, ctx: DeadLockDetectContextInner, tid: int, mutex_id: int) -> bool {
        &&& ctx.has_need_entry(tid, mutex_id)
        &&& self.inner.locked ==> ctx.needs()[tid][mutex_id] < usize::MAX
        &&& !self.inner.locked ==> ctx.has_held_entry(tid, mutex_id) && ctx.held()[tid][mutex_id] < usize::MAX
    }

    open spec fn may_unlock(&self) -> bool {
        self.inner.locked
    }

    open spec fn next_owner(&self) -> Option<T> {
        if self.waiters().len() > 0 {
            Some(self.waiters()[0])
        } else {
            None
        }
    }

    /// A held mutex queues the task, which must block; a free one is taken.
    fn lock(&mut self, task: T, tid: usize, mutex_id: usize, ctx: &mut DeadLockDetectContextInner) -> (step: LockStep)
        ensures
            (final(self)@, step) == lock_step(old(self)@, task),
            old(self).wf() ==> final(self).wf(),
    {
        if self.inner.locked {
            self.inner.wait_queue.push_back(task);
            ctx.add_need(tid, mutex_id);
            LockStep::Blocked
        } else {
            ctx.grant(tid, mutex_id);
            self.inner.locked = true;
            LockStep::Acquired
        }
    }

    /// Hands the mutex to the first waiter, or frees it when none waits.
    fn unlock(&mut self) -> (woken: Option<T>)
        ensures
            (final(self)@, woken) == unlock_step(old(self)@),
            final(self).wf(),
    {
        let woken = self.inner.wait_queue.pop_front();
        match woken {
            Some(t) => {
                proof {
                    assert(self.waiters() =~= old(self).waiters().drop_first());
                }
                Some(t)
            },
            None => {
                self.inner.locked = false;
                None
            },
        }
    }
}

} // verus!
