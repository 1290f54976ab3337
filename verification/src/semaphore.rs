//! Counting semaphore with a FIFO queue of blocked tasks.
//!
//! The semaphore decides; the kernel acts: `down` says whether the calling
//! task must block, `up` names the task to wake.  Every decision also records,
//! in the process's semaphore matrices, what the calling thread waits for or
//! has been granted.
use vstd::prelude::*;
use std::collections::VecDeque;
use crate::deadlock_detect::DeadLockDetectContextInner;

verus! {

/// The counter and the queue of tasks blocked in `down`.
pub struct SemaphoreInner<T> {
    /// Units left; when negative, minus the number of blocked tasks.
    pub count: isize,
    /// Blocked tasks, first blocked first.
    pub wait_queue: VecDeque<T>,
}

/// A counting semaphore.
pub struct Semaphore<T> {
    pub inner: SemaphoreInner<T>,
}

/// What a semaphore is: its count and its queue of waiting tasks.
pub struct SemState<T> {
    pub count: int,
    pub waiters: Seq<T>,
}

/// Tasks wait exactly when the count is negative, and then there are
/// minus-count of them.
pub open spec fn sem_wf<T>(s: SemState<T>) -> bool {
    &&& s.count >= 0 ==> s.waiters.len() == 0
    &&& s.count < 0 ==> s.waiters.len() == -s.count
}

/// `up`: one unit back; when the count is still not positive, the first
/// waiter, if any, is woken.
pub open spec fn up_step<T>(s: SemState<T>) -> (SemState<T>, Option<T>) {
    let count = s.count + 1;
    if count <= 0 && s.waiters.len() > 0 {
        (SemState { count, waiters: s.waiters.drop_first() }, Some(s.waiters[0]))
    } else {
        (SemState { count, waiters: s.waiters }, None)
    }
}

/// `down` by `task`: one unit taken; when none was left the task joins the
/// queue and blocks.
pub open spec fn down_step<T>(s: SemState<T>, task: T) -> (SemState<T>, bool) {
    let count = s.count - 1;
    if count < 0 {
        (SemState { count, waiters: s.waiters.push(task) }, true)
    } else {
        (SemState { count, waiters: s.waiters }, false)
    }
}

/// `up` and `down` keep the count and the queue in agreement.
pub proof fn lemma_sem_steps_keep_wf<T>(s: SemState<T>, task: T)
    requires
        sem_wf(s),
    ensures
        sem_wf(up_step(s).0),
        sem_wf(down_step(s, task).0),
        up_step(s).1.is_some() <==> up_step(s).0.count <= 0,
{
}

/// An `up` undoes a `down` when no other task waits: the state comes back,
/// and if the `down` blocked, the `up` wakes that very task.
pub proof fn lemma_sem_down_then_up<T>(s: SemState<T>, task: T)
    requires
        sem_wf(s),
        s.waiters.len() == 0,
    ensures
        up_step(down_step(s, task).0).0 == s,
        down_step(s, task).1 ==> up_step(down_step(s, task).0).1 == Some(task),
        !down_step(s, task).1 ==> up_step(down_step(s, task).0).1.is_none(),
{
    let (s1, b) = down_step(s, task);
    if b {
        assert(s1.waiters =~= seq![task]);
        assert(s1.waiters.drop_first() =~= s.waiters);
    }
}

/// An `up` undoes a `down` that did not block: with at least one unit
/// left, `down` then `up` gives back the count and the queue and wakes no
/// one, whatever the queue holds.
pub proof fn lemma_sem_nonblocking_down_then_up<T>(s: SemState<T>, task: T)
    requires
        s.count >= 1,
    ensures
        !down_step(s, task).1,
        up_step(down_step(s, task).0) == (s, None::<T>),
{
}

/// `down` queues the caller exactly when the count goes negative, and keeps
/// the number of waiters equal to minus the count when it is negative.
pub proof fn lemma_sem_down_keeps_waiter_count<T>(s: SemState<T>, task: T)
    requires
        sem_wf(s),
    ensures
        down_step(s, task).1 <==> down_step(s, task).0.count < 0,
        sem_wf(down_step(s, task).0),
{
}

/// Waiters are woken in the order they blocked: after `task` blocks behind
/// the tasks already waiting, each `up` wakes the first of those that are
/// still waiting, and `task` comes after all of them.
pub proof fn lemma_sem_fifo<T>(s: SemState<T>, task: T)
    requires
        sem_wf(s),
        down_step(s, task).1,
    ensures
        down_step(s, task).0.waiters == s.waiters.push(task),
        s.waiters.len() > 0 ==> up_step(down_step(s, task).0).1 == Some(s.waiters[0]),
        s.waiters.len() > 0 ==> up_step(down_step(s, task).0).0.waiters == s.waiters.drop_first().push(task),
{
    let s1 = down_step(s, task).0;
    if s.waiters.len() > 0 {
        assert(s1.waiters.drop_first() =~= s.waiters.drop_first().push(task));
    }
}

impl<T> View for Semaphore<T> {
    type V = SemState<T>;

    open spec fn view(&self) -> SemState<T> {
        SemState { count: self.inner.count as int, waiters: self.inner.wait_queue@ }
    }
}

impl<T> Semaphore<T> {
    pub open spec fn count(&self) -> int {
        self.inner.count as int
    }

    pub open spec fn waiters(&self) -> Seq<T> {
        self.inner.wait_queue@
    }

    /// The count and the queue agree.
    pub open spec fn wf(&self) -> bool {
        sem_wf(self@)
    }

    /// A semaphore with `res_count` units and no waiter.
    pub fn new(res_count: usize) -> (sem: Self)
        ensures
            sem.inner.count == res_count as isize,
            sem.waiters() == Seq::<T>::empty(),
            res_count <= isize::MAX ==> sem.wf(),
    {
        Semaphore { inner: SemaphoreInner { count: res_count as isize, wait_queue: VecDeque::new() } }
    }

    /// Gives one unit back.  When the count is still not positive afterwards,
    /// the first blocked task, if any, leaves the queue and is returned to be
    /// woken.
    pub fn up(&mut self) -> (woken: Option<T>)
        requires
            old(self).count() < isize::MAX,
        ensures
            (final(self)@, woken) == up_step(old(self)@),
            old(self).wf() ==> final(self).wf(),
    {
        self.inner.count = self.inner.count + 1;
        if self.inner.count <= 0 {
            let r = self.inner.wait_queue.pop_front();
            proof {
                if old(self).waiters().len() > 0 {
                    assert(self.waiters() =~= old(self).waiters().drop_first());
                }
            }
            r
        } else {
            None
        }
    }

    /// Takes one unit for thread `tid`, running as `task`.  When no unit is
    /// left the task joins the queue, the thread is recorded as waiting for
    /// semaphore `sem_id`, and `true` says that it must block.  Otherwise the
    /// thread is recorded as holding one more unit and no longer waiting.
    pub fn down(&mut self, task: T, tid: usize, sem_id: usize, ctx: &mut DeadLockDetectContextInner) -> (blocked: bool)
        requires
            old(self).count() > isize::MIN,
            old(ctx).has_need_entry(tid as int, sem_id as int),
            old(self).count() - 1 < 0 ==> old(ctx).needs()[tid as int][sem_id as int] < usize::MAX,
            old(self).count() - 1 >= 0 ==> old(ctx).has_held_entry(tid as int, sem_id as int)
                && old(ctx).held()[tid as int][sem_id as int] < usize::MAX,
        ensures
            (final(self)@, blocked) == down_step(old(self)@, task),
            old(self).wf() ==> final(self).wf(),
            blocked ==> {
                &&& final(ctx).avail() == old(ctx).avail()
                &&& final(ctx).held() == old(ctx).held()
                &&& final(ctx).needs() == old(ctx).needs().update(
                    tid as int,
                    old(ctx).needs()[tid as int].update(
                        sem_id as int,
                        (old(ctx).needs()[tid as int][sem_id as int] + 1) as usize,
                    ),
                )
            },
            !blocked ==> {
                &&& final(ctx).avail() == old(ctx).avail()
                &&& final(ctx).needs() == old(ctx).needs().update(
                    tid as int,
                    old(ctx).needs()[tid as int].update(sem_id as int, 0usize),
                )
                &&& final(ctx).held() == old(ctx).held().update(
                    tid as int,
                    old(ctx).held()[tid as int].update(
                        sem_id as int,
                        (old(ctx).held()[tid as int][sem_id as int] + 1) as usize,
                    ),
                )
            },
    {
        self.inner.count = self.inner.count - 1;
        if self.inner.count < 0 {
            self.inner.wait_queue.push_back(task);
            ctx.add_need(tid, sem_id);
            true
        } else {
            ctx.grant(tid, sem_id);
            false
        }
    }
}

} // verus!
