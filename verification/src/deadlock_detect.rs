//! Deadlock detection with the banker's safety test.
//!
//! A context keeps, per kind of resource (mutexes, semaphores), the amount of
//! each resource that is still available, and for every thread the amount it
//! holds (`allocation`) and the amount it waits for (`need`).  The state is
//! free of deadlock when the threads can be ordered so that each one, in turn,
//! can be served from what is unallocated plus what the threads before it give
//! back when they finish: a *safe sequence*.
use vstd::prelude::*;
use vstd::set_lib::{set_int_range, lemma_int_range, lemma_len_subset, lemma_subset_equality};

verus! {

/// What the threads listed in `order` hold of resource `j`, added up.
pub open spec fn released(holdings: Seq<Seq<usize>>, order: Seq<int>, j: int) -> int
    decreases order.len(),
{
    if order.len() == 0 {
        0
    } else {
        released(holdings, order.drop_last(), j) + holdings[order.last()][j]
    }
}

/// The threads `0 .. n` in increasing order.
pub open spec fn thread_range(n: int) -> Seq<int> {
    Seq::new(n as nat, |i: int| i)
}

proof fn lemma_released_nonneg(holdings: Seq<Seq<usize>>, s: Seq<int>, j: int)
    ensures
        released(holdings, s, j) >= 0,
    decreases s.len(),
{
    if s.len() > 0 {
        lemma_released_nonneg(holdings, s.drop_last(), j);
    }
}

proof fn lemma_released_remove(holdings: Seq<Seq<usize>>, t: Seq<int>, p: int, j: int)
    requires
        0 <= p < t.len(),
    ensures
        released(holdings, t, j) == released(holdings, t.remove(p), j) + holdings[t[p]][j],
    decreases t.len(),
{
    if p == t.len() - 1 {
        assert(t.remove(p) =~= t.drop_last());
    } else {
        let rest = t.drop_last();
        lemma_released_remove(holdings, rest, p, j);
        assert(t.remove(p).drop_last() =~= rest.remove(p));
        assert(t.remove(p).last() == t.last());
    }
}

proof fn lemma_released_subset(holdings: Seq<Seq<usize>>, s: Seq<int>, t: Seq<int>, j: int)
    requires
        s.no_duplicates(),
        t.no_duplicates(),
        forall|k: int| 0 <= k < s.len() ==> t.contains(#[trigger] s[k]),
    ensures
        released(holdings, s, j) <= released(holdings, t, j),
    decreases s.len(),
{
    if s.len() == 0 {
        lemma_released_nonneg(holdings, t, j);
    } else {
        let x = s.last();
        assert(t.contains(s[s.len() - 1]));
        let p = choose|p: int| 0 <= p < t.len() && t[p] == x;
        let t2 = t.remove(p);
        let s2 = s.drop_last();
        lemma_released_remove(holdings, t, p, j);
        assert forall|a: int, b: int| 0 <= a < t2.len() && 0 <= b < t2.len() && a != b implies t2[a]
            != t2[b] by {
            let ia = if a < p { a } else { a + 1 };
            let ib = if b < p { b } else { b + 1 };
            assert(t2[a] == t[ia]);
            assert(t2[b] == t[ib]);
        }
        assert forall|k: int| 0 <= k < s2.len() implies t2.contains(#[trigger] s2[k]) by {
            let y = s2[k];
            assert(y == s[k]);
            assert(t.contains(s[k]));
            assert(y != x);
            let q = choose|q: int| 0 <= q < t.len() && t[q] == y;
            assert(q != p);
            if q < p {
                assert(t2[q] == y);
            } else {
                assert(t2[q - 1] == y);
            }
        }
        lemma_released_subset(holdings, s2, t2, j);
    }
}

proof fn lemma_thread_range_contains(n: int, x: int)
    requires
        0 <= x < n,
    ensures
        thread_range(n).contains(x),
{
    assert(thread_range(n)[x] == x);
}

proof fn lemma_thread_range_no_duplicates(n: int)
    requires
        0 <= n,
    ensures
        thread_range(n).no_duplicates(),
{
}

proof fn lemma_thread_range_step(n: int)
    requires
        0 <= n,
    ensures
        thread_range(n + 1).drop_last() =~= thread_range(n),
        thread_range(n + 1).last() == n,
{
}

/// A duplicate-free list of threads below `n` has at most `n` entries.
proof fn lemma_len_bound(order: Seq<int>, n: int)
    requires
        0 <= n,
        order.no_duplicates(),
        forall|k: int| 0 <= k < order.len() ==> 0 <= #[trigger] order[k] < n,
    ensures
        order.len() <= n,
{
    order.unique_seq_to_set();
    lemma_int_range(0, n);
    assert(order.to_set().subset_of(set_int_range(0, n)));
    lemma_len_subset(order.to_set(), set_int_range(0, n));
}

/// The first position of `sigma`, from `k` on, whose thread is not in `order`.
proof fn lemma_first_missing(sigma: Seq<int>, order: Seq<int>, k: int, t: int) -> (r: int)
    requires
        0 <= k <= t < sigma.len(),
        !order.contains(sigma[t]),
        forall|a: int| 0 <= a < k ==> order.contains(#[trigger] sigma[a]),
    ensures
        k <= r <= t,
        !order.contains(sigma[r]),
        forall|a: int| 0 <= a < r ==> order.contains(#[trigger] sigma[a]),
    decreases t - k,
{
    if !order.contains(sigma[k]) {
        k
    } else {
        lemma_first_missing(sigma, order, k + 1, t)
    }
}

/// The resource matrices of one kind of resource (mutexes or semaphores).
pub struct DeadLockDetectContextInner {
    /// Units of each resource that the kernel has.
    pub available: Vec<usize>,
    /// `allocation[t][r]`: units of resource `r` that thread `t` holds.
    pub allocation: Vec<Vec<usize>>,
    /// `need[t][r]`: units of resource `r` that thread `t` waits for.
    pub need: Vec<Vec<usize>>,
}

impl DeadLockDetectContextInner {
    pub open spec fn avail(&self) -> Seq<usize> {
        self.available@
    }

    pub open spec fn held(&self) -> Seq<Seq<usize>> {
        Seq::new(self.allocation@.len(), |i: int| self.allocation@[i]@)
    }

    pub open spec fn needs(&self) -> Seq<Seq<usize>> {
        Seq::new(self.need@.len(), |i: int| self.need@[i]@)
    }

    /// Number of threads: the rows of `allocation`.
    pub open spec fn threads(&self) -> int {
        self.allocation@.len() as int
    }

    /// Number of resources: the entries of `available`.
    pub open spec fn resources(&self) -> int {
        self.available@.len() as int
    }

    /// Units of resource `j` held by all threads together.
    pub open spec fn total_allocated(&self, j: int) -> int {
        released(self.held(), thread_range(self.threads()), j)
    }

    /// Units of resource `j` that no thread holds.
    pub open spec fn unallocated(&self, j: int) -> int {
        self.avail()[j] - self.total_allocated(j)
    }

    /// Thread `i` can be served once the threads in `done` have finished and
    /// given back what they hold.
    pub open spec fn can_finish_after(&self, i: int, done: Seq<int>) -> bool {
        forall|j: int|
            0 <= j < self.resources() ==> #[trigger] self.needs()[i][j] <= self.unallocated(j)
                + released(self.held(), done, j)
    }

    /// `order` lists every thread exactly once, and each can be served after
    /// the ones before it.
    pub open spec fn is_safe_sequence(&self, order: Seq<int>) -> bool {
        &&& order.no_duplicates()
        &&& forall|k: int| 0 <= k < order.len() ==> 0 <= #[trigger] order[k] < self.threads()
        &&& forall|i: int| 0 <= i < self.threads() ==> #[trigger] order.contains(i)
        &&& forall|k: int|
            0 <= k < order.len() ==> self.can_finish_after(#[trigger] order[k], order.take(k))
    }

    /// The state has a safe sequence.
    pub open spec fn deadlock_free(&self) -> bool {
        exists|order: Seq<int>| self.is_safe_sequence(order)
    }

    /// Every row is long enough for every resource, and every thread has a
    /// row of `need`.
    pub open spec fn well_shaped(&self) -> bool {
        &&& self.need@.len() >= self.allocation@.len()
        &&& forall|i: int|
            0 <= i < self.threads() ==> (#[trigger] self.allocation@[i])@.len() >= self.resources()
                && self.need@[i]@.len() >= self.resources()
    }

    /// No resource is handed out beyond what is available.
    pub open spec fn within_available(&self) -> bool {
        forall|j: int| 0 <= j < self.resources() ==> #[trigger] self.total_allocated(j) <= self.avail()[j]
    }

    /// A context with no resource and a single thread that holds and waits
    /// for nothing.
    pub fn new() -> (ctx: Self)
        ensures
            ctx.available@.len() == 0,
            ctx.allocation@.len() == 1,
            ctx.allocation@[0]@.len() == 0,
            ctx.need@.len() == 1,
            ctx.need@[0]@.len() == 0,
    {
        let mut allocation: Vec<Vec<usize>> = Vec::new();
        allocation.push(Vec::new());
        let mut need: Vec<Vec<usize>> = Vec::new();
        need.push(Vec::new());
        DeadLockDetectContextInner { available: Vec::new(), allocation, need }
    }

    /// Thread `t` has an entry for resource `r` in `need`.
    pub open spec fn has_need_entry(&self, t: int, r: int) -> bool {
        0 <= t < self.needs().len() && 0 <= r < self.needs()[t].len()
    }

    /// Thread `t` has an entry for resource `r` in `allocation`.
    pub open spec fn has_held_entry(&self, t: int, r: int) -> bool {
        0 <= t < self.held().len() && 0 <= r < self.held()[t].len()
    }

    /// Thread `t` starts to wait for one more unit of resource `r`.
    pub fn add_need(&mut self, t: usize, r: usize)
        requires
            old(self).has_need_entry(t as int, r as int),
            old(self).needs()[t as int][r as int] < usize::MAX,
        ensures
            final(self).avail() == old(self).avail(),
            final(self).held() == old(self).held(),
            final(self).needs() == old(self).needs().update(
                t as int,
                old(self).needs()[t as int].update(r as int, (old(self).needs()[t as int][r as int] + 1) as usize),
            ),
    {
        let mut row: Vec<usize> = Vec::new();
        std::mem::swap(&mut row, &mut self.need[t]);
        let v = row[r] + 1;
        row.set(r, v);
        std::mem::swap(&mut row, &mut self.need[t]);
        assert(self.needs() =~= old(self).needs().update(
            t as int,
            old(self).needs()[t as int].update(r as int, v),
        ));
        assert(self.held() =~= old(self).held());
    }

    /// Thread `t` is granted one unit of resource `r`: it no longer waits for
    /// `r` and holds one unit more of it.
    pub fn grant(&mut self, t: usize, r: usize)
        requires
            old(self).has_need_entry(t as int, r as int),
            old(self).has_held_entry(t as int, r as int),
            old(self).held()[t as int][r as int] < usize::MAX,
        ensures
            final(self).avail() == old(self).avail(),
            final(self).needs() == old(self).needs().update(
                t as int,
                old(self).needs()[t as int].update(r as int, 0usize),
            ),
            final(self).held() == old(self).held().update(
                t as int,
                old(self).held()[t as int].update(r as int, (old(self).held()[t as int][r as int] + 1) as usize),
            ),
    {
        let mut row: Vec<usize> = Vec::new();
        std::mem::swap(&mut row, &mut self.need[t]);
        row.set(r, 0);
        std::mem::swap(&mut row, &mut self.need[t]);
        let mut held_row: Vec<usize> = Vec::new();
        std::mem::swap(&mut held_row, &mut self.allocation[t]);
        let v = held_row[r] + 1;
        held_row.set(r, v);
        std::mem::swap(&mut held_row, &mut self.allocation[t]);
        assert(self.needs() =~= old(self).needs().update(
            t as int,
            old(self).needs()[t as int].update(r as int, 0usize),
        ));
        assert(self.held() =~= old(self).held().update(
            t as int,
            old(self).held()[t as int].update(r as int, v),
        ));
    }

    /// When some thread is missing from `order` and no missing thread can be
    /// served after the threads of `order`, the state has no safe sequence.
    proof fn lemma_stuck_is_unsafe(&self, order: Seq<int>, u: int)
        requires
            order.no_duplicates(),
            forall|k: int| 0 <= k < order.len() ==> 0 <= #[trigger] order[k] < self.threads(),
            forall|i: int|
                0 <= i < self.threads() && !order.contains(i) ==> !#[trigger] self.can_finish_after(
                    i,
                    order,
                ),
            0 <= u < self.threads(),
            !order.contains(u),
        ensures
            !self.deadlock_free(),
    {
        assert forall|sigma: Seq<int>| !self.is_safe_sequence(sigma) by {
            if self.is_safe_sequence(sigma) {
                assert(sigma.contains(u));
                let t = choose|t: int| 0 <= t < sigma.len() && sigma[t] == u;
                let r = lemma_first_missing(sigma, order, 0, t);
                let done = sigma.take(r);
                assert forall|a: int, b: int|
                    0 <= a < done.len() && 0 <= b < done.len() && a != b implies done[a]
                    != done[b] by {
                    assert(done[a] == sigma[a]);
                    assert(done[b] == sigma[b]);
                }
                assert forall|k: int| 0 <= k < done.len() implies order.contains(#[trigger] done[k]) by {
                    assert(done[k] == sigma[k]);
                }
                let v = sigma[r];
                assert(self.can_finish_after(sigma[r], sigma.take(r)));
                assert forall|j: int| 0 <= j < self.resources() implies #[trigger] self.needs()[v][j]
                    <= self.unallocated(j) + released(self.held(), order, j) by {
                    lemma_released_subset(self.held(), done, order, j);
                }
                assert(self.can_finish_after(v, order));
                assert(0 <= v < self.threads());
            }
        }
    }

    /// Runs the banker's safety test.  Returns `true` exactly when the state
    /// has a safe sequence, that is, when it is free of deadlock.
    pub fn detect_deadlock(&self) -> (safe: bool)
        requires
            self.well_shaped(),
            self.within_available(),
        ensures
            safe == self.deadlock_free(),
    {
        let n = self.allocation.len();
        let m = self.available.len();
        let mut work = self.available.clone();
        let mut finish = vec![false; n];
        proof {
            assert(work@ =~= self.available@);
            lemma_thread_range_no_duplicates(n as int);
        }

        let mut i: usize = 0;
        while i < n
            invariant
                0 <= i <= n,
                n == self.allocation@.len(),
                m == self.available@.len(),
                work@.len() == m,
                self.well_shaped(),
                self.within_available(),
                forall|j: int|
                    0 <= j < m ==> #[trigger] work@[j] == self.avail()[j] - released(
                        self.held(),
                        thread_range(i as int),
                        j,
                    ),
            decreases n - i,
        {
            let mut j: usize = 0;
            while j < m
                invariant
                    0 <= i < n,
                    0 <= j <= m,
                    n == self.allocation@.len(),
                    m == self.available@.len(),
                    work@.len() == m,
                    self.well_shaped(),
                    self.within_available(),
                    forall|jj: int|
                        0 <= jj < j ==> #[trigger] work@[jj] == self.avail()[jj] - released(
                            self.held(),
                            thread_range(i + 1),
                            jj,
                        ),
                    forall|jj: int|
                        j <= jj < m ==> #[trigger] work@[jj] == self.avail()[jj] - released(
                            self.held(),
                            thread_range(i as int),
                            jj,
                        ),
                decreases m - j,
            {
                proof {
                    lemma_thread_range_step(i as int);
                    lemma_thread_range_no_duplicates(i + 1);
                    lemma_thread_range_no_duplicates(n as int);
                    assert forall|k: int| 0 <= k < thread_range(i + 1).len() implies thread_range(
                        n as int,
                    ).contains(#[trigger] thread_range(i + 1)[k]) by {
                        lemma_thread_range_contains(n as int, k);
                    }
                    lemma_released_subset(self.held(), thread_range(i + 1), thread_range(n as int), j as int);
                    assert(self.total_allocated(j as int) <= self.avail()[j as int]);
                    assert(self.held()[i as int] == self.allocation@[i as int]@);
                }
                let a = self.allocation[i][j];
                let w = work[j] - a;
                work.set(j, w);
                j = j + 1;
            }
            i = i + 1;
        }

        let ghost mut order: Seq<int> = Seq::empty();
        let mut progress = true;
        proof {
            assert(thread_range(n as int) =~= thread_range(i as int));
        }
        while progress
            invariant
                n == self.allocation@.len(),
                m == self.available@.len(),
                work@.len() == m,
                finish@.len() == n,
                self.well_shaped(),
                self.within_available(),
                order.no_duplicates(),
                forall|k: int| 0 <= k < order.len() ==> 0 <= #[trigger] order[k] < n,
                forall|t: int| 0 <= t < n ==> (#[trigger] finish@[t] <==> order.contains(t)),
                forall|j: int|
                    0 <= j < m ==> #[trigger] work@[j] == self.unallocated(j) + released(
                        self.held(),
                        order,
                        j,
                    ),
                forall|k: int|
                    0 <= k < order.len() ==> self.can_finish_after(#[trigger] order[k], order.take(k)),
                !progress ==> forall|t: int|
                    0 <= t < n && !order.contains(t) ==> !#[trigger] self.can_finish_after(t, order),
            decreases n - order.len() + (if progress { 1int } else { 0int }),
        {
            proof {
                lemma_len_bound(order, n as int);
            }
            let ghost start_len = order.len();
            progress = false;
            let mut i: usize = 0;
            while i < n
                invariant
                    0 <= i <= n,
                    n == self.allocation@.len(),
                    m == self.available@.len(),
                    work@.len() == m,
                    finish@.len() == n,
                    self.well_shaped(),
                    self.within_available(),
                    order.no_duplicates(),
                    forall|k: int| 0 <= k < order.len() ==> 0 <= #[trigger] order[k] < n,
                    forall|t: int| 0 <= t < n ==> (#[trigger] finish@[t] <==> order.contains(t)),
                    forall|j: int|
                        0 <= j < m ==> #[trigger] work@[j] == self.unallocated(j) + released(
                            self.held(),
                            order,
                            j,
                        ),
                    forall|k: int|
                        0 <= k < order.len() ==> self.can_finish_after(
                            #[trigger] order[k],
                            order.take(k),
                        ),
                    start_len <= n,
                    progress ==> order.len() > start_len,
                    !progress ==> order.len() == start_len,
                    !progress ==> forall|t: int|
                        0 <= t < i && !order.contains(t) ==> !#[trigger] self.can_finish_after(
                            t,
                            order,
                        ),
                decreases n - i,
            {
                if !finish[i] {
                    let mut can_finish = true;
                    let mut j: usize = 0;
                    while j < m && can_finish
                        invariant
                            0 <= i < n,
                            0 <= j <= m,
                            n == self.allocation@.len(),
                            m == self.available@.len(),
                            work@.len() == m,
                            self.well_shaped(),
                            can_finish ==> forall|jj: int|
                                0 <= jj < j ==> #[trigger] self.needs()[i as int][jj] <= work@[jj],
                            !can_finish ==> exists|jj: int|
                                0 <= jj < m && #[trigger] self.needs()[i as int][jj] > work@[jj],
                        decreases m - j,
                    {
                        proof {
                            assert(self.allocation@[i as int]@.len() >= m);
                            assert(self.needs()[i as int] == self.need@[i as int]@);
                        }
                        if self.need[i][j] > work[j] {
                            can_finish = false;
                        }
                        j = j + 1;
                    }
                    proof {
                        if can_finish {
                            assert(self.can_finish_after(i as int, order));
                        } else {
                            let jj = choose|jj: int|
                                0 <= jj < m && #[trigger] self.needs()[i as int][jj] > work@[jj];
                            assert(!self.can_finish_after(i as int, order));
                        }
                    }
                    if can_finish {
                        let ghost new_order = order.push(i as int);
                        proof {
                            lemma_thread_range_no_duplicates(n as int);
                            assert(new_order.drop_last() =~= order);
                            assert forall|a: int, b: int|
                                0 <= a < new_order.len() && 0 <= b < new_order.len() && a != b
                                    implies new_order[a] != new_order[b] by {
                                if a < order.len() && b < order.len() {
                                    assert(new_order[a] == order[a]);
                                    assert(new_order[b] == order[b]);
                                } else if a < order.len() {
                                    assert(new_order[a] == order[a]);
                                    assert(!order.contains(i as int));
                                } else if b < order.len() {
                                    assert(new_order[b] == order[b]);
                                    assert(!order.contains(i as int));
                                }
                            }
                            assert forall|k: int| 0 <= k < new_order.len() implies thread_range(
                                n as int,
                            ).contains(#[trigger] new_order[k]) by {
                                lemma_thread_range_contains(n as int, new_order[k]);
                            }
                        }
                        let mut j: usize = 0;
                        while j < m
                            invariant
                                0 <= i < n,
                                0 <= j <= m,
                                n == self.allocation@.len(),
                                m == self.available@.len(),
                                work@.len() == m,
                                self.well_shaped(),
                                self.within_available(),
                                new_order == order.push(i as int),
                                new_order.no_duplicates(),
                                thread_range(n as int).no_duplicates(),
                                forall|k: int|
                                    0 <= k < new_order.len() ==> thread_range(n as int).contains(
                                        #[trigger] new_order[k],
                                    ),
                                forall|jj: int|
                                    0 <= jj < j ==> #[trigger] work@[jj] == self.unallocated(jj)
                                        + released(self.held(), new_order, jj),
                                forall|jj: int|
                                    j <= jj < m ==> #[trigger] work@[jj] == self.unallocated(jj)
                                        + released(self.held(), order, jj),
                            decreases m - j,
                        {
                            proof {
                                assert(new_order.drop_last() =~= order);
                                lemma_released_subset(
                                    self.held(),
                                    new_order,
                                    thread_range(n as int),
                                    j as int,
                                );
                                assert(self.total_allocated(j as int) <= self.avail()[j as int]);
                                assert(self.held()[i as int] == self.allocation@[i as int]@);
                            }
                            let w = work[j] + self.allocation[i][j];
                            work.set(j, w);
                            j = j + 1;
                        }
                        finish.set(i, true);
                        proof {
                            assert(new_order.take(order.len() as int) =~= order);
                            assert forall|k: int| 0 <= k < order.len() implies new_order.take(k)
                                =~= order.take(k) by {}
                            assert forall|t: int| 0 <= t < n implies (#[trigger] finish@[t]
                                <==> new_order.contains(t)) by {
                                if order.contains(t) {
                                    let q = choose|q: int| 0 <= q < order.len() && order[q] == t;
                                    assert(new_order[q] == t);
                                }
                                if new_order.contains(t) && t != i {
                                    let q = choose|q: int| 0 <= q < new_order.len() && new_order[q] == t;
                                    assert(q < order.len());
                                    assert(order[q] == t);
                                }
                                if t == i {
                                    assert(new_order[order.len() as int] == t);
                                }
                            }
                            assert forall|k: int| 0 <= k < new_order.len() implies self.can_finish_after(
                                #[trigger] new_order[k],
                                new_order.take(k),
                            ) by {
                                if k < order.len() {
                                    assert(new_order[k] == order[k]);
                                    assert(new_order.take(k) =~= order.take(k));
                                } else {
                                    assert(new_order.take(k) =~= order);
                                }
                            }
                            order = new_order;
                        }
                        progress = true;
                    }
                }
                i = i + 1;
            }
            proof {
                lemma_len_bound(order, n as int);
            }
        }

        let mut t: usize = 0;
        while t < n
            invariant
                0 <= t <= n,
                n == self.allocation@.len(),
                finish@.len() == n,
                order.no_duplicates(),
                forall|k: int| 0 <= k < order.len() ==> 0 <= #[trigger] order[k] < n,
                forall|x: int| 0 <= x < n ==> (#[trigger] finish@[x] <==> order.contains(x)),
                forall|x: int|
                    0 <= x < n && !order.contains(x) ==> !#[trigger] self.can_finish_after(x, order),
                forall|x: int| 0 <= x < t ==> #[trigger] finish@[x],
                forall|k: int|
                    0 <= k < order.len() ==> self.can_finish_after(#[trigger] order[k], order.take(k)),
            decreases n - t,
        {
            if !finish[t] {
                proof {
                    self.lemma_stuck_is_unsafe(order, t as int);
                }
                return false;
            }
            t = t + 1;
        }
        proof {
            assert forall|x: int| 0 <= x < n implies #[trigger] order.contains(x) by {
                assert(finish@[x]);
            }
            assert(self.is_safe_sequence(order));
        }
        true
    }
}

/// `p` lists each of the threads `0 .. n` exactly once.
pub open spec fn is_permutation(p: Seq<int>, n: int) -> bool {
    &&& p.len() == n
    &&& p.no_duplicates()
    &&& forall|k: int| 0 <= k < p.len() ==> 0 <= #[trigger] p[k] < n
}

/// `after` is `before` with its threads renumbered: thread `k` of `after`
/// is thread `p[k]` of `before`, with the same holdings and needs; the
/// resources are the same.
pub open spec fn renumbered(before: DeadLockDetectContextInner, after: DeadLockDetectContextInner, p: Seq<int>) -> bool {
    &&& after.avail() == before.avail()
    &&& after.threads() == before.threads()
    &&& forall|k: int|
        0 <= k < after.threads() ==> #[trigger] after.held()[k] == before.held()[p[k]]
            && after.needs()[k] == before.needs()[p[k]]
}

/// Each thread of a list, renumbered by `p`.
pub open spec fn map_threads(s: Seq<int>, p: Seq<int>) -> Seq<int> {
    Seq::new(s.len(), |t: int| p[s[t]])
}

/// A permutation of `0 .. n` holds every thread below `n`.
proof fn lemma_permutation_contains_all(p: Seq<int>, n: int, x: int)
    requires
        is_permutation(p, n),
        0 <= x < n,
    ensures
        p.contains(x),
{
    p.unique_seq_to_set();
    lemma_int_range(0, n);
    assert(p.to_set().subset_of(set_int_range(0, n)));
    lemma_subset_equality(p.to_set(), set_int_range(0, n));
    assert(set_int_range(0, n).contains(x));
    assert(p.to_set().contains(x));
}

/// Adding up holdings over renumbered threads gives the same sum.
proof fn lemma_released_map(held: Seq<Seq<usize>>, held2: Seq<Seq<usize>>, p: Seq<int>, s: Seq<int>, j: int)
    requires
        forall|t: int| 0 <= t < s.len() ==> 0 <= #[trigger] s[t] < p.len(),
        forall|k: int| 0 <= k < p.len() ==> #[trigger] held2[k] == held[p[k]],
    ensures
        released(held2, s, j) == released(held, map_threads(s, p), j),
    decreases s.len(),
{
    if s.len() > 0 {
        lemma_released_map(held, held2, p, s.drop_last(), j);
        assert(map_threads(s, p).drop_last() =~= map_threads(s.drop_last(), p));
        assert(held2[s.last()] == held[p[s.last()]]);
    }
}

impl DeadLockDetectContextInner {
    /// Renumbering threads keeps what is left unallocated.
    proof fn lemma_renumbered_unallocated(before: Self, after: Self, p: Seq<int>, j: int)
        requires
            is_permutation(p, before.threads()),
            renumbered(before, after, p),
        ensures
            after.unallocated(j) == before.unallocated(j),
    {
        let n = before.threads();
        lemma_released_map(before.held(), after.held(), p, thread_range(n), j);
        assert(map_threads(thread_range(n), p) =~= p);
        lemma_thread_range_no_duplicates(n);
        assert forall|k: int| 0 <= k < p.len() implies thread_range(n).contains(#[trigger] p[k]) by {
            lemma_thread_range_contains(n, p[k]);
        }
        lemma_released_subset(before.held(), p, thread_range(n), j);
        assert forall|k: int| 0 <= k < thread_range(n).len() implies p.contains(#[trigger] thread_range(n)[k]) by {
            lemma_permutation_contains_all(p, n, k);
        }
        lemma_released_subset(before.held(), thread_range(n), p, j);
    }

    /// A safe sequence of the renumbered state, renumbered back, is a safe
    /// sequence of the original state.
    proof fn lemma_renumbered_safe(before: Self, after: Self, p: Seq<int>, sigma: Seq<int>)
        requires
            is_permutation(p, before.threads()),
            renumbered(before, after, p),
            after.is_safe_sequence(sigma),
        ensures
            before.is_safe_sequence(map_threads(sigma, p)),
    {
        let n = before.threads();
        let s = map_threads(sigma, p);
        assert forall|a: int, b: int| 0 <= a < s.len() && 0 <= b < s.len() && a != b implies s[a] != s[b] by {
            assert(sigma[a] != sigma[b]);
        }
        assert forall|i: int| 0 <= i < n implies #[trigger] s.contains(i) by {
            lemma_permutation_contains_all(p, n, i);
            let k = choose|k: int| 0 <= k < p.len() && p[k] == i;
            assert(sigma.contains(k));
            let t = choose|t: int| 0 <= t < sigma.len() && sigma[t] == k;
            assert(s[t] == i);
        }
        assert forall|t: int| 0 <= t < s.len() implies before.can_finish_after(#[trigger] s[t], s.take(t)) by {
            assert(after.can_finish_after(sigma[t], sigma.take(t)));
            assert(s.take(t) =~= map_threads(sigma.take(t), p));
            assert forall|j: int| 0 <= j < before.resources() implies #[trigger] before.needs()[s[t]][j]
                <= before.unallocated(j) + released(before.held(), s.take(t), j) by {
                Self::lemma_renumbered_unallocated(before, after, p, j);
                lemma_released_map(before.held(), after.held(), p, sigma.take(t), j);
                assert(0 <= sigma[t] < after.threads());
                assert(after.held()[sigma[t]] == before.held()[p[sigma[t]]]);
                assert(after.needs()[sigma[t]] == before.needs()[p[sigma[t]]]);
                assert(after.needs()[sigma[t]][j] <= after.unallocated(j) + released(after.held(), sigma.take(t), j));
            }
        }
    }
}

/// The verdict of the safety test does not depend on how the threads are
/// numbered: renumbering them by a permutation keeps the state free of
/// deadlock, or deadlocked, and keeps every resource within what is
/// available, or not.
pub proof fn lemma_renumbering_keeps_verdict(before: DeadLockDetectContextInner, after: DeadLockDetectContextInner, p: Seq<int>)
    requires
        is_permutation(p, before.threads()),
        renumbered(before, after, p),
    ensures
        after.deadlock_free() == before.deadlock_free(),
        after.within_available() == before.within_available(),
{
    let n = before.threads();
    if after.deadlock_free() {
        let sigma = choose|sigma: Seq<int>| after.is_safe_sequence(sigma);
        DeadLockDetectContextInner::lemma_renumbered_safe(before, after, p, sigma);
    }
    let q = Seq::new(n as nat, |x: int| choose|k: int| 0 <= k < n && p[k] == x);
    assert forall|x: int| 0 <= x < n implies 0 <= #[trigger] q[x] < n && p[q[x]] == x by {
        lemma_permutation_contains_all(p, n, x);
    }
    assert forall|a: int, b: int| 0 <= a < q.len() && 0 <= b < q.len() && a != b implies q[a] != q[b] by {
        assert(p[q[a]] == a);
        assert(p[q[b]] == b);
    }
    assert(is_permutation(q, after.threads()));
    assert forall|k: int| 0 <= k < before.threads() implies #[trigger] before.held()[k] == after.held()[q[k]]
        && before.needs()[k] == after.needs()[q[k]] by {
        assert(after.held()[q[k]] == before.held()[p[q[k]]]);
    }
    assert(renumbered(after, before, q));
    if before.deadlock_free() {
        let sigma = choose|sigma: Seq<int>| before.is_safe_sequence(sigma);
        DeadLockDetectContextInner::lemma_renumbered_safe(after, before, q, sigma);
    }
    assert forall|j: int| 0 <= j < before.resources() implies after.total_allocated(j) == before.total_allocated(j) by {
        DeadLockDetectContextInner::lemma_renumbered_unallocated(before, after, p, j);
    }
}

/// The deadlock-detection state of a process: whether detection is on, and
/// one set of matrices for its mutexes and one for its semaphores.
pub struct DeadLockDetectContext {
    pub enable: bool,
    pub mutex_inner: DeadLockDetectContextInner,
    pub semaphore_inner: DeadLockDetectContextInner,
}

impl DeadLockDetectContext {
    /// Detection off, and both matrices as `DeadLockDetectContextInner::new`
    /// makes them.
    pub fn new() -> (ctx: Self)
        ensures
            !ctx.enable,
            ctx.mutex_inner.available@.len() == 0,
            ctx.mutex_inner.allocation@.len() == 1,
            ctx.mutex_inner.allocation@[0]@.len() == 0,
            ctx.mutex_inner.need@.len() == 1,
            ctx.mutex_inner.need@[0]@.len() == 0,
            ctx.semaphore_inner.available@.len() == 0,
            ctx.semaphore_inner.allocation@.len() == 1,
            ctx.semaphore_inner.allocation@[0]@.len() == 0,
            ctx.semaphore_inner.need@.len() == 1,
            ctx.semaphore_inner.need@[0]@.len() == 0,
    {
        DeadLockDetectContext {
            enable: false,
            mutex_inner: DeadLockDetectContextInner::new(),
            semaphore_inner: DeadLockDetectContextInner::new(),
        }
    }
}

} // verus!
