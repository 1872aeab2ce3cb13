//! The scheduler: it hands out versions to execute, parks a version that read
//! an unfinished write until its producer is done, and keeps the stop version.

use crate::mvhashmap::Version;
use vstd::prelude::*;

verus! {

/// Where a version stands in its execution.
#[derive(Clone, Copy, PartialEq, Eq, Structural)]
pub enum TxnStatus {
    /// Not claimed yet, or parked until another version finishes.
    Pending,
    /// Handed to a worker that has not reported back.
    InProgress,
    /// Finished; its writes are in the store.
    Executed,
}

/// What a worker should do next.
#[derive(Clone, Copy, PartialEq, Eq, Structural)]
pub enum SchedulerTask {
    /// Execute this version.
    Execute(Version),
    /// Nothing is ready, but versions still in progress may release some.
    Wait,
    /// Every version below the stop version has executed.
    Done,
}

/// How many of `s` are `InProgress`.
pub open spec fn count_in_progress(s: Seq<TxnStatus>) -> nat
    decreases s.len(),
{
    if s.len() == 0 {
        0
    } else {
        count_in_progress(s.drop_last()) + if s.last() == TxnStatus::InProgress {
            1nat
        } else {
            0nat
        }
    }
}

proof fn lemma_count_update(s: Seq<TxnStatus>, i: int, x: TxnStatus)
    requires
        0 <= i < s.len(),
    ensures
        count_in_progress(s.update(i, x)) + (if s[i] == TxnStatus::InProgress {
            1nat
        } else {
            0nat
        }) == count_in_progress(s) + (if x == TxnStatus::InProgress {
            1nat
        } else {
            0nat
        }),
    decreases s.len(),
{
    if i == s.len() - 1 {
        assert(s.update(i, x).drop_last() =~= s.drop_last());
    } else {
        assert(s.update(i, x).drop_last() =~= s.drop_last().update(i, x));
        lemma_count_update(s.drop_last(), i, x);
    }
}

proof fn lemma_count_bounds(s: Seq<TxnStatus>)
    ensures
        count_in_progress(s) <= s.len(),
        count_in_progress(s) == 0 ==> forall|i: int|
            0 <= i < s.len() ==> s[i] != TxnStatus::InProgress,
    decreases s.len(),
{
    if s.len() > 0 {
        lemma_count_bounds(s.drop_last());
        assert forall|i: int| 0 <= i < s.len() - 1 implies s.drop_last()[i] == s[i] by {}
    }
}

/// Hands out the versions of one block of `num_txns` transactions.
pub struct Scheduler {
    next: usize,
    stop: usize,
    in_progress: usize,
    ready: Vec<Version>,
    deps: Vec<Vec<Version>>,
    status: Vec<TxnStatus>,
}

impl Scheduler {
    /// The status of each version.
    pub closed spec fn status(&self) -> Seq<TxnStatus> {
        self.status@
    }

    /// The first version that has never been handed out.
    pub closed spec fn next_version(&self) -> nat {
        self.next as nat
    }

    /// The versions at and above this one are not executed.
    pub closed spec fn stop_version(&self) -> nat {
        self.stop as nat
    }

    /// The versions that were woken or sent back and wait to be handed out again.
    pub closed spec fn ready(&self) -> Seq<Version> {
        self.ready@
    }

    /// The versions parked until version `p` finishes.
    pub closed spec fn waiters(&self, p: int) -> Seq<Version> {
        self.deps@[p]@
    }

    /// Whether version `w` waits to be handed out: it is ready, or parked on a
    /// version that has not finished.
    pub open spec fn is_queued(&self, w: Version) -> bool {
        self.ready().contains(w) || exists|p: int|
            0 <= p < w && self.status()[p] != TxnStatus::Executed && #[trigger] self.waiters(
                p,
            ).contains(w)
    }

    /// The private bookkeeping agrees with the statuses.
    pub closed spec fn fields_ok(&self) -> bool {
        &&& self.deps.len() == self.status.len()
        &&& self.in_progress == count_in_progress(self.status@)
    }

    /// The scheduler's invariant. Besides bounds: no version at or above the
    /// cursor has been touched; a parked version waits on an earlier one; and
    /// no pending version below the cursor and the stop version is lost, for it
    /// is queued.
    pub open spec fn wf(&self) -> bool {
        &&& self.fields_ok()
        &&& self.status().len() <= usize::MAX
        &&& self.stop_version() <= self.status().len()
        &&& self.next_version() <= self.status().len()
        &&& forall|v: int|
            self.next_version() <= v < self.status().len() ==> self.status()[v]
                == TxnStatus::Pending
        &&& forall|i: int|
            0 <= i < self.ready().len() ==> (#[trigger] self.ready()[i]) < self.next_version()
        &&& forall|p: int, i: int|
            0 <= p < self.status().len() && 0 <= i < self.waiters(p).len() ==> p < (
            #[trigger] self.waiters(p)[i]) < self.next_version()
        &&& forall|w: Version|
            w < self.next_version() && w < self.stop_version() && self.status()[w as int]
                == TxnStatus::Pending ==> #[trigger] self.is_queued(w)
    }

    /// Whether a version that was sent back can be handed out again: it is
    /// below the stop version and still pending.
    pub open spec fn has_ready(&self) -> bool {
        exists|i: int|
            0 <= i < self.ready().len() && (#[trigger] self.ready()[i]) < self.stop_version()
                && self.status()[self.ready()[i] as int] == TxnStatus::Pending
    }

    /// Whether some version is in progress.
    pub open spec fn any_in_progress(&self) -> bool {
        exists|v: int| 0 <= v < self.status().len() && self.status()[v] == TxnStatus::InProgress
    }

    /// A scheduler for `num_txns` versions, none of them started.
    pub fn new(num_txns: usize) -> (r: Scheduler)
        ensures
            r.wf(),
            r.status() == Seq::new(num_txns as nat, |i: int| TxnStatus::Pending),
            r.next_version() == 0,
            r.stop_version() == num_txns,
            r.ready() == Seq::<Version>::empty(),
            forall|p: int| 0 <= p < num_txns ==> (#[trigger] r.waiters(p)).len() == 0,
    {
        let mut deps: Vec<Vec<Version>> = Vec::new();
        let mut status: Vec<TxnStatus> = Vec::new();
        let mut i: usize = 0;
        while i < num_txns
            invariant
                i <= num_txns,
                deps.len() == i,
                status@ == Seq::new(i as nat, |j: int| TxnStatus::Pending),
                forall|j: int| 0 <= j < i ==> (#[trigger] deps@[j])@.len() == 0,
            decreases num_txns - i,
        {
            deps.push(Vec::new());
            status.push(TxnStatus::Pending);
            i += 1;
            proof {
                assert(status@ =~= Seq::new(i as nat, |j: int| TxnStatus::Pending));
            }
        }
        proof {
            assert forall|k: nat| k <= status@.len() implies count_in_progress(status@.take(k as int)) == 0 by {
                lemma_count_prefix_pending(status@, k);
            }
            assert(status@.take(status@.len() as int) =~= status@);
        }
        let r = Scheduler { next: 0, stop: num_txns, in_progress: 0, ready: Vec::new(), deps, status };
        assert(forall|p: int| 0 <= p < num_txns ==> (#[trigger] r.waiters(p)).len() == 0);
        r
    }
    /// The next thing for a worker to do. A version that was sent back comes
    /// first, the latest one first; else the cursor advances, up to the stop
    /// version. A version that comes back at or above the stop version is
    /// dropped. `Done` comes only when every version below the stop version
    /// has executed.
    pub fn next_txn_to_execute(&mut self) -> (r: SchedulerTask)
        requires
            old(self).wf(),
        ensures
            final(self).wf(),
            final(self).stop_version() == old(self).stop_version(),
            forall|p: int| #[trigger] final(self).waiters(p) == old(self).waiters(p),
            old(self).has_ready() || final(self).ready().len() == 0,
            final(self).next_version() == if r is Execute && !old(self).has_ready() {
                old(self).next_version() + 1
            } else {
                old(self).next_version()
            },
            r is Execute && !old(self).has_ready() ==> r->Execute_0 == old(self).next_version(),
            r is Execute <==> (old(self).next_version() < old(self).stop_version()
                || old(self).has_ready()),
            r is Done <==> !(r is Execute) && !old(self).any_in_progress(),
            match r {
                SchedulerTask::Execute(v) => {
                    &&& v < old(self).stop_version()
                    &&& old(self).status()[v as int] == TxnStatus::Pending
                    &&& final(self).status() == old(self).status().update(
                        v as int,
                        TxnStatus::InProgress,
                    )
                    &&& (old(self).has_ready() || v == old(self).next_version())
                },
                SchedulerTask::Wait => final(self).status() == old(self).status(),
                SchedulerTask::Done => {
                    &&& final(self).status() == old(self).status()
                    &&& forall|v: int|
                        0 <= v < final(self).stop_version() ==> final(self).status()[v]
                            == TxnStatus::Executed
                },
            },
    {
        let ghost start = *self;
        while self.ready.len() > 0
            invariant
                start == *old(self),
                self.wf(),
                self.stop == start.stop,
                self.next == start.next,
                self.status@ == start.status@,
                self.deps@ == start.deps@,
                self.ready@ == start.ready@.take(self.ready@.len() as int),
                self.ready@.len() <= start.ready@.len(),
                forall|i: int|
                    self.ready@.len() <= i < start.ready@.len() ==> !(start.ready@[i] < start.stop
                        && start.status@[start.ready@[i] as int] == TxnStatus::Pending),
            decreases self.ready.len(),
        {
            let ghost before = *self;
            let v = match self.ready.pop() {
                Some(v) => v,
                None => 0,
            };
            assert(v == start.ready@[self.ready@.len() as int]);
            assert forall|i: int| 0 <= i < self.ready().len() implies self.ready()[i]
                == before.ready()[i] by {}
            if v < self.stop && self.status[v] == TxnStatus::Pending {
                proof {
                    lemma_count_update(self.status@, v as int, TxnStatus::InProgress);
                    lemma_count_bounds(self.status@.update(v as int, TxnStatus::InProgress));
                }
                self.status.set(v, TxnStatus::InProgress);
                self.in_progress = self.in_progress + 1;
                proof {
                    assert forall|w: Version|
                        w < self.next_version() && w < self.stop_version() && self.status()[w as int]
                            == TxnStatus::Pending implies #[trigger] self.is_queued(w) by {
                        assert(before.is_queued(w));
                        assert(before.ready().contains(w) ==> self.ready().contains(w)) by {
                            if before.ready().contains(w) {
                                let i = choose|i: int|
                                    0 <= i < before.ready().len() && before.ready()[i] == w;
                                assert(self.ready()[i] == w);
                            }
                        }
                        lemma_queued_kept(before, *self, w);
                    }
                    assert(forall|p: int| #[trigger] self.waiters(p) == before.waiters(p));
                    assert(start.ready@[self.ready@.len() as int] == v);
                }
                return SchedulerTask::Execute(v);
            }
            proof {
                assert forall|w: Version|
                    w < self.next_version() && w < self.stop_version() && self.status()[w as int]
                        == TxnStatus::Pending implies #[trigger] self.is_queued(w) by {
                    assert(before.is_queued(w));
                    assert(before.ready().contains(w) ==> self.ready().contains(w)) by {
                        if before.ready().contains(w) {
                            let i = choose|i: int|
                                0 <= i < before.ready().len() && before.ready()[i] == w;
                            assert(self.ready()[i] == w);
                        }
                    }
                    lemma_queued_kept(before, *self, w);
                }
                assert(self.ready@ =~= start.ready@.take(self.ready@.len() as int));
                assert(forall|p: int| #[trigger] self.waiters(p) == before.waiters(p));
            }
        }
        proof {
            assert(!start.has_ready());
        }
        if self.next < self.stop {
            let v = self.next;
            proof {
                lemma_count_update(self.status@, v as int, TxnStatus::InProgress);
                lemma_count_bounds(self.status@.update(v as int, TxnStatus::InProgress));
            }
            let ghost before = *self;
            self.status.set(v, TxnStatus::InProgress);
            self.in_progress = self.in_progress + 1;
            self.next = self.next + 1;
            proof {
                assert forall|w: Version|
                    w < self.next_version() && w < self.stop_version() && self.status()[w as int]
                        == TxnStatus::Pending implies #[trigger] self.is_queued(w) by {
                    assert(before.is_queued(w));
                    lemma_queued_kept(before, *self, w);
                }
                assert(forall|p: int| #[trigger] self.waiters(p) == before.waiters(p));
            }
            return SchedulerTask::Execute(v);
        }
        if self.in_progress > 0 {
            proof {
                lemma_count_bounds(self.status@);
                if !start.any_in_progress() {
                    assert(count_in_progress(self.status@) == 0) by {
                        lemma_no_in_progress(self.status@);
                    }
                }
            }
            SchedulerTask::Wait
        } else {
            proof {
                lemma_count_bounds(self.status@);
                assert forall|v: int| 0 <= v < self.stop_version() implies self.status()[v]
                    == TxnStatus::Executed by {
                    lemma_done(*self, v as Version);
                }
            }
            SchedulerTask::Done
        }
    }
    /// Parks `waiter`, which read an unfinished write of `producer`, until
    /// `producer` finishes. Returns false, and changes nothing, when `producer`
    /// has finished already: the caller then sends `waiter` back itself.
    pub fn add_dependency(&mut self, waiter: Version, producer: Version) -> (r: bool)
        requires
            old(self).wf(),
            producer < waiter < old(self).status().len(),
            old(self).status()[waiter as int] == TxnStatus::InProgress,
        ensures
            final(self).wf(),
            r == (old(self).status()[producer as int] != TxnStatus::Executed),
            r ==> final(self).status() == old(self).status().update(
                waiter as int,
                TxnStatus::Pending,
            ),
            r ==> final(self).waiters(producer as int) == old(self).waiters(producer as int).push(
                waiter,
            ),
            r ==> forall|p: int|
                0 <= p < old(self).status().len() && p != producer
                    ==> #[trigger] final(self).waiters(p) == old(self).waiters(p),
            !r ==> *final(self) == *old(self),
            final(self).ready() == old(self).ready(),
            final(self).stop_version() == old(self).stop_version(),
            final(self).next_version() == old(self).next_version(),
    {
        if self.status[producer] == TxnStatus::Executed {
            return false;
        }
        let ghost before = *self;
        proof {
            lemma_count_update(self.status@, waiter as int, TxnStatus::Pending);
        }
        self.deps[producer].push(waiter);
        self.status.set(waiter, TxnStatus::Pending);
        self.in_progress = self.in_progress - 1;
        proof {
            assert forall|p: int|
                0 <= p < self.status().len() && p != producer implies #[trigger] self.waiters(p)
                == before.waiters(p) by {}
            assert forall|p: int, i: int|
                0 <= p < self.status().len() && 0 <= i < self.waiters(p).len() implies p < (
                #[trigger] self.waiters(p)[i]) < self.next_version() by {
                if p == producer && i == self.waiters(p).len() - 1 {
                } else if p == producer {
                    assert(self.waiters(p)[i] == before.waiters(p)[i]);
                }
            }
            assert forall|w: Version|
                w < self.next_version() && w < self.stop_version() && self.status()[w as int]
                    == TxnStatus::Pending implies #[trigger] self.is_queued(w) by {
                if w == waiter {
                    assert(self.waiters(producer as int).last() == w);
                    assert(self.waiters(producer as int).contains(w));
                } else {
                    assert(before.is_queued(w));
                    assert forall|p: int|
                        0 <= p < w && before.status()[p] != TxnStatus::Executed
                            && #[trigger] before.waiters(p).contains(w) implies (self.status()[p]
                        != TxnStatus::Executed && self.waiters(p).contains(w))
                        || self.ready().contains(w) by {
                        if p == producer {
                            let i = choose|i: int| 0 <= i < before.waiters(p).len() && before.waiters(p)[i] == w;
                            assert(self.waiters(p)[i] == w);
                        }
                    }
                    lemma_queued_kept(before, *self, w);
                }
            }
        }
        true
    }

    /// Sends `v`, which is in progress, back to be handed out again.
    pub fn add_transaction(&mut self, v: Version)
        requires
            old(self).wf(),
            v < old(self).status().len(),
            old(self).status()[v as int] == TxnStatus::InProgress,
        ensures
            final(self).wf(),
            final(self).status() == old(self).status().update(v as int, TxnStatus::Pending),
            final(self).ready() == old(self).ready().push(v),
            forall|p: int| #[trigger] final(self).waiters(p) == old(self).waiters(p),
            final(self).stop_version() == old(self).stop_version(),
            final(self).next_version() == old(self).next_version(),
    {
        let ghost before = *self;
        proof {
            lemma_count_update(self.status@, v as int, TxnStatus::Pending);
        }
        self.ready.push(v);
        self.status.set(v, TxnStatus::Pending);
        self.in_progress = self.in_progress - 1;
        proof {
            assert(forall|p: int| #[trigger] self.waiters(p) == before.waiters(p));
            assert forall|i: int| 0 <= i < self.ready().len() implies (#[trigger] self.ready()[i])
                < self.next_version() by {
                if i < before.ready().len() {
                    assert(self.ready()[i] == before.ready()[i]);
                }
            }
            assert forall|w: Version|
                w < self.next_version() && w < self.stop_version() && self.status()[w as int]
                    == TxnStatus::Pending implies #[trigger] self.is_queued(w) by {
                if w == v {
                    assert(self.ready()[self.ready().len() - 1] == w);
                } else {
                    assert(before.is_queued(w));
                    if before.ready().contains(w) {
                        let i = choose|i: int| 0 <= i < before.ready().len() && before.ready()[i] == w;
                        assert(self.ready()[i] == w);
                    }
                    lemma_queued_kept(before, *self, w);
                }
            }
        }
    }

    /// Records that `v` finished, and sends back every version parked on it.
    pub fn finish_execution(&mut self, v: Version)
        requires
            old(self).wf(),
            v < old(self).status().len(),
            old(self).status()[v as int] == TxnStatus::InProgress,
        ensures
            final(self).wf(),
            final(self).status() == old(self).status().update(v as int, TxnStatus::Executed),
            final(self).ready() == old(self).ready() + old(self).waiters(v as int),
            final(self).waiters(v as int) == Seq::<Version>::empty(),
            forall|p: int|
                0 <= p < old(self).status().len() && p != v ==> #[trigger] final(self).waiters(p)
                    == old(self).waiters(p),
            final(self).stop_version() == old(self).stop_version(),
            final(self).next_version() == old(self).next_version(),
    {
        let ghost before = *self;
        proof {
            lemma_count_update(self.status@, v as int, TxnStatus::Executed);
        }
        self.status.set(v, TxnStatus::Executed);
        self.in_progress = self.in_progress - 1;
        self.deps.push(Vec::new());
        let mut waiters = self.deps.swap_remove(v);
        self.ready.append(&mut waiters);
        proof {
            assert forall|p: int|
                0 <= p < self.status().len() && p != v implies #[trigger] self.waiters(p)
                == before.waiters(p) by {
                assert(self.deps@[p] == before.deps@[p]);
            }
            assert(self.waiters(v as int) =~= Seq::<Version>::empty());
            assert forall|p: int, i: int|
                0 <= p < self.status().len() && 0 <= i < self.waiters(p).len() implies p < (
                #[trigger] self.waiters(p)[i]) < self.next_version() by {
                assert(self.waiters(p)[i] == before.waiters(p)[i]);
            }
            assert forall|i: int| 0 <= i < self.ready().len() implies (#[trigger] self.ready()[i])
                < self.next_version() by {
                if i < before.ready().len() {
                    assert(self.ready()[i] == before.ready()[i]);
                } else {
                    let j = i - before.ready().len();
                    assert(self.ready()[i] == before.waiters(v as int)[j]);
                }
            }
            assert forall|w: Version|
                w < self.next_version() && w < self.stop_version() && self.status()[w as int]
                    == TxnStatus::Pending implies #[trigger] self.is_queued(w) by {
                assert(before.is_queued(w));
                if before.ready().contains(w) {
                    let i = choose|i: int| 0 <= i < before.ready().len() && before.ready()[i] == w;
                    assert(self.ready()[i] == w);
                }
                assert forall|p: int|
                    0 <= p < w && before.status()[p] != TxnStatus::Executed
                        && #[trigger] before.waiters(p).contains(w) implies (self.status()[p]
                    != TxnStatus::Executed && self.waiters(p).contains(w))
                    || self.ready().contains(w) by {
                    if p == v {
                        let i = choose|i: int| 0 <= i < before.waiters(p).len() && before.waiters(p)[i] == w;
                        assert(self.ready()[before.ready().len() + i] == w);
                    }
                }
                lemma_queued_kept(before, *self, w);
            }
        }
    }

    /// Lowers the stop version to `v`, unless it is lower already.
    pub fn set_stop_version(&mut self, v: Version)
        requires
            old(self).wf(),
        ensures
            final(self).wf(),
            final(self).stop_version() == if v < old(self).stop_version() {
                v as nat
            } else {
                old(self).stop_version()
            },
            final(self).status() == old(self).status(),
            final(self).ready() == old(self).ready(),
            final(self).next_version() == old(self).next_version(),
            forall|p: int| #[trigger] final(self).waiters(p) == old(self).waiters(p),
    {
        let ghost before = *self;
        if v < self.stop {
            self.stop = v;
        }
        proof {
            assert forall|w: Version|
                w < self.next_version() && w < self.stop_version() && self.status()[w as int]
                    == TxnStatus::Pending implies #[trigger] self.is_queued(w) by {
                assert(before.is_queued(w));
                lemma_queued_kept(before, *self, w);
            }
            assert(self.ready() == before.ready());
            assert(self.status() == before.status());
            assert(forall|p: int| #[trigger] self.waiters(p) == before.waiters(p));
        }
    }

    /// The number of versions whose results count: the stop version.
    pub fn num_txn_to_execute(&self) -> (r: usize)
        ensures
            r == self.stop_version(),
    {
        self.stop
    }
}

/// With nothing ready, in progress or left to claim, every version below the
/// stop version has executed.
proof fn lemma_done(s: Scheduler, v: Version)
    requires
        s.wf(),
        s.ready().len() == 0,
        s.next_version() >= s.stop_version(),
        forall|i: int| 0 <= i < s.status().len() ==> s.status()[i] != TxnStatus::InProgress,
        v < s.stop_version(),
    ensures
        s.status()[v as int] == TxnStatus::Executed,
    decreases v,
{
    if s.status()[v as int] == TxnStatus::Pending {
        assert(s.is_queued(v));
        let p = choose|p: int|
            0 <= p < v && s.status()[p] != TxnStatus::Executed && #[trigger] s.waiters(p).contains(
                v,
            );
        lemma_done(s, p as Version);
    }
}

/// A queued version stays queued when its place in the ready list or its
/// parking spot survives.
proof fn lemma_queued_kept(a: Scheduler, b: Scheduler, w: Version)
    requires
        a.is_queued(w),
        a.ready().contains(w) ==> b.ready().contains(w),
        forall|p: int|
            0 <= p < w && a.status()[p] != TxnStatus::Executed && #[trigger] a.waiters(p).contains(
                w,
            ) ==> (b.status()[p] != TxnStatus::Executed && b.waiters(p).contains(w))
                || b.ready().contains(w),
    ensures
        b.is_queued(w),
{
    if !a.ready().contains(w) {
        let p = choose|p: int|
            0 <= p < w && a.status()[p] != TxnStatus::Executed && #[trigger] a.waiters(p).contains(
                w,
            );
        if !b.ready().contains(w) {
            assert(b.waiters(p).contains(w));
        }
    }
}

proof fn lemma_no_in_progress(s: Seq<TxnStatus>)
    requires
        forall|i: int| 0 <= i < s.len() ==> s[i] != TxnStatus::InProgress,
    ensures
        count_in_progress(s) == 0,
    decreases s.len(),
{
    if s.len() > 0 {
        lemma_no_in_progress(s.drop_last());
    }
}


proof fn lemma_count_prefix_pending(s: Seq<TxnStatus>, k: nat)
    requires
        k <= s.len(),
        forall|j: int| 0 <= j < s.len() ==> s[j] == TxnStatus::Pending,
    ensures
        count_in_progress(s.take(k as int)) == 0,
    decreases k,
{
    if k > 0 {
        assert(s.take(k as int).drop_last() =~= s.take(k - 1));
        lemma_count_prefix_pending(s, (k - 1) as nat);
    }
}

} // verus!
