//! The driver: it infers the accesses of a block, primes the store, and runs
//! the worker loop.

use crate::mvhashmap::{
    apply_writes, close_version, finished_below, last_write, lemma_apply_writes_key,
    lemma_finish_key, lemma_last_write_written, lemma_no_writes_between, lemma_reads_match_serial_run,
    lemma_sequential_prefix, sequential_value, all_unset, lemma_cells_at_most, lemma_covering_cells, has_version, skip_cell, WriteCell, closed_at, closed_below, evolves, lemma_closed_advance, lemma_store_reads_resolve,
    lemma_evolves_keeps_cells, lemma_evolves_trans, Key, MVHashMap, Version,
};
use crate::outcome_array::{is_unestimated, Outcome, OutcomeArray};
use crate::scheduler::{Scheduler, SchedulerTask, TxnStatus};
use crate::task::{
    Error, ExecutionStatus, ExecutorTask, InferenceFailure, ReadWriteSet, ReadWriteSetInferencer,
    TransactionOutput,
};
use vstd::prelude::*;

verus! {

/// Reading a key whose latest earlier writer has not finished.
pub struct ReadBlocked;

/// What one execution of one version reads through.
pub struct MVHashMapView<'a, V> {
    map: &'a MVHashMap<V>,
    version: Version,
    blocked_on: Option<Version>,
}

impl<'a, V> MVHashMapView<'a, V> {
    /// The store read through.
    pub closed spec fn map(&self) -> &'a MVHashMap<V> {
        self.map
    }

    /// The version of the reader.
    pub closed spec fn version_spec(&self) -> Version {
        self.version
    }

    /// The first unfinished writer that a read ran into, if any.
    pub closed spec fn blocked_on(&self) -> Option<Version> {
        self.blocked_on
    }

    /// The state that reads through this view see: the value of each key
    /// that `read` returns, `None` where it finds no writer or must wait.
    pub open spec fn visible(&self) -> spec_fn(Key) -> Option<V> {
        |k: Key|
            match self.map().read_spec(k, self.version_spec()) {
                Ok(x) => Some(x),
                Err(_) => None,
            }
    }

    /// A view of `map` for the execution of `version`.
    pub fn new(map: &'a MVHashMap<V>, version: Version) -> (r: Self)
        ensures
            r.map() == map,
            r.version_spec() == version,
            r.blocked_on() is None,
    {
        MVHashMapView { map, version, blocked_on: None }
    }

    /// Reads `key` as this version sees it: the value of the latest earlier
    /// writer, or `None` when no earlier version wrote it. When that writer
    /// has not finished, the read fails, and the view remembers the first
    /// writer it ran into: the execution must be tried again once it is done.
    pub fn read(&mut self, key: &Key) -> (r: Result<Option<&'a V>, ReadBlocked>)
        ensures
            final(self).map() == old(self).map(),
            final(self).version_spec() == old(self).version_spec(),
            match old(self).map().read_spec(*key, old(self).version_spec()) {
                Ok(x) => r matches Ok(Some(y)) && *y == x && final(self).blocked_on() == old(
                    self,
                ).blocked_on(),
                Err(None) => r matches Ok(None) && final(self).blocked_on() == old(
                    self,
                ).blocked_on(),
                Err(Some(p)) => r is Err && final(self).blocked_on() == if old(
                    self,
                ).blocked_on() is Some {
                    old(self).blocked_on()
                } else {
                    Some(p)
                },
            },
    {
        match self.map.read(key, self.version) {
            Ok(v) => Ok(Some(v)),
            Err(None) => Ok(None),
            Err(Some(p)) => {
                if self.blocked_on.is_none() {
                    self.blocked_on = Some(p);
                }
                Err(ReadBlocked)
            },
        }
    }

    /// The version of the reader.
    pub fn version(&self) -> (r: Version)
        ensures
            r == self.version_spec(),
    {
        self.version
    }

    /// Whether a read ran into an unfinished writer.
    pub fn has_unexpected_read(&self) -> (r: bool)
        ensures
            r == self.blocked_on() is Some,
    {
        self.blocked_on.is_some()
    }

    /// The first unfinished writer that a read ran into, if any.
    pub fn blocking_version(&self) -> (r: Option<Version>)
        ensures
            r == self.blocked_on(),
    {
        self.blocked_on
    }
}

/// Relies on num_cpus::get: the number of logical CPUs, which it documents as
/// always at least 1.
#[verifier::external_body]
fn available_cpus() -> (r: usize)
    ensures
        r >= 1,
{
    num_cpus::get()
}

/// The smaller of two numbers.
pub open spec fn min_nat(a: nat, b: nat) -> nat {
    if a <= b {
        a
    } else {
        b
    }
}

/// How many workers run a block of `num_txns` transactions on `num_cpus`
/// CPUs: at least 50 transactions per worker, no more workers than CPUs, and
/// no more than `num_txns / max_dependency_level`, so that the conflicts on
/// one key stay below one per worker.
pub fn worker_count(num_txns: usize, num_cpus: usize, max_dependency_level: usize) -> (r: usize)
    requires
        max_dependency_level >= 1,
    ensures
        r == min_nat(
            min_nat(1 + num_txns as nat / 50, num_cpus as nat),
            num_txns as nat / max_dependency_level as nat,
        ),
{
    let by_size = 1 + num_txns / 50;
    let a = if by_size <= num_cpus {
        by_size
    } else {
        num_cpus
    };
    let by_conflicts = num_txns / max_dependency_level;
    if a <= by_conflicts {
        a
    } else {
        by_conflicts
    }
}

/// Whether the inferencer predicted that version `w` writes `k`.
pub open spec fn predicted(accesses: Seq<ReadWriteSet>, k: Key, w: Version) -> bool {
    w < accesses.len() && accesses[w as int].keys_written@.contains(k)
}

/// Whether `(k, w)` is one of `s`.
pub open spec fn has_pair(s: Seq<(Key, Version)>, k: Key, w: Version) -> bool {
    exists|i: int| 0 <= i < s.len() && s[i] == (k, w)
}

/// Whether `k` is among the first `j` of `keys`.
spec fn in_prefix(keys: Seq<Key>, j: int, k: Key) -> bool {
    exists|x: int| 0 <= x < j && keys[x] == k
}

proof fn lemma_push_pair(s: Seq<(Key, Version)>, x: (Key, Version), k: Key, w: Version)
    ensures
        has_pair(s.push(x), k, w) <==> (has_pair(s, k, w) || x == (k, w)),
{
    let t = s.push(x);
    if has_pair(t, k, w) {
        let i = choose|i: int| 0 <= i < t.len() && t[i] == (k, w);
        if i < s.len() {
            assert(s[i] == (k, w));
        }
    }
    if has_pair(s, k, w) {
        let i = choose|i: int| 0 <= i < s.len() && s[i] == (k, w);
        assert(t[i] == (k, w));
    }
    if x == (k, w) {
        assert(t[s.len() as int] == (k, w));
    }
}

proof fn lemma_prefix_step(keys: Seq<Key>, j: int, k: Key)
    requires
        0 <= j < keys.len(),
    ensures
        in_prefix(keys, j + 1, k) <==> (in_prefix(keys, j, k) || keys[j] == k),
{
    if in_prefix(keys, j + 1, k) {
        let x = choose|x: int| 0 <= x < j + 1 && keys[x] == k;
        if x < j {
            assert(in_prefix(keys, j, k));
        }
    }
    if keys[j] == k {
        assert(0 <= j < j + 1 && keys[j] == k);
    }
}

/// The (key, version) pair of every predicted write of the block.
pub fn predicted_writes(accesses: &Vec<ReadWriteSet>) -> (r: Vec<(Key, Version)>)
    ensures
        forall|k: Key, w: Version| has_pair(r@, k, w) <==> predicted(accesses@, k, w),
{
    let mut pairs: Vec<(Key, Version)> = Vec::new();
    let mut v: usize = 0;
    while v < accesses.len()
        invariant
            v <= accesses.len(),
            forall|k: Key, w: Version|
                has_pair(pairs@, k, w) <==> (w < v && predicted(accesses@, k, w)),
        decreases accesses.len() - v,
    {
        let keys = &accesses[v].keys_written;
        let mut j: usize = 0;
        while j < keys.len()
            invariant
                v < accesses.len(),
                keys == &accesses@[v as int].keys_written,
                j <= keys.len(),
                forall|k: Key, w: Version|
                    has_pair(pairs@, k, w) <==> ((w < v && predicted(accesses@, k, w)) || (w == v
                        && in_prefix(keys@, j as int, k))),
            decreases keys.len() - j,
        {
            let ghost before = pairs@;
            pairs.push((keys[j], v));
            proof {
                assert forall|k: Key, w: Version|
                    has_pair(pairs@, k, w) <==> ((w < v && predicted(accesses@, k, w)) || (w == v
                        && in_prefix(keys@, j + 1, k))) by {
                    lemma_push_pair(before, (keys@[j as int], v), k, w);
                    lemma_prefix_step(keys@, j as int, k);
                }
            }
            j += 1;
        }
        proof {
            assert forall|k: Key, w: Version|
                has_pair(pairs@, k, w) <==> (w < v + 1 && predicted(accesses@, k, w)) by {
                if w == v {
                    assert(in_prefix(keys@, keys@.len() as int, k) <==> keys@.contains(k));
                }
            }
        }
        v += 1;
    }
    pairs
}

/// The outcome that a version records for what its execution returned, when
/// its writes did (`committed`) or did not all have cells.
pub open spec fn outcome_of<O, E>(status: ExecutionStatus<O, E>, committed: bool) -> Outcome<O, E> {
    match status {
        ExecutionStatus::Success(o) => if committed {
            ExecutionStatus::Success(o)
        } else {
            ExecutionStatus::Abort(Error::UnestimatedWrite)
        },
        ExecutionStatus::SkipRest(o) => if committed {
            ExecutionStatus::SkipRest(o)
        } else {
            ExecutionStatus::Abort(Error::UnestimatedWrite)
        },
        ExecutionStatus::Abort(e) => ExecutionStatus::Abort(Error::UserError(e)),
    }
}

/// The writes that the output in `st` reports; none for `Abort`.
pub open spec fn status_writes<V, O: TransactionOutput<V>, E>(st: ExecutionStatus<O, E>) -> Seq<
    (Key, V),
> {
    match st {
        ExecutionStatus::Success(o) => o.writes(),
        ExecutionStatus::SkipRest(o) => o.writes(),
        ExecutionStatus::Abort(_) => Seq::empty(),
    }
}

/// Whether an outcome ends the block after its version.
pub open spec fn stops_block<O, E>(o: Outcome<O, E>) -> bool {
    o is SkipRest || o matches ExecutionStatus::Abort(Error::UserError(_))
}

/// The stop version after a version `idx` recorded outcome `o`.
pub open spec fn stop_after<O, E>(stop: nat, idx: Version, o: Outcome<O, E>) -> nat {
    if stops_block(o) {
        min_nat(stop, idx as nat + 1)
    } else {
        stop
    }
}

/// Whether every write of `writes` has a cell of version `idx` in `store`.
pub open spec fn writes_have_cells<V>(store: MVHashMap<V>, idx: Version, writes: Seq<(Key, V)>) -> bool {
    forall|i: int| 0 <= i < writes.len() ==> store.has_cell(#[trigger] writes[i].0, idx)
}

/// Commits what the execution of version `idx` returned: for `Success` and
/// `SkipRest`, the writes `writes` that its output reports, which fail the
/// version with `UnestimatedWrite` when one of them has no cell; `SkipRest`
/// and `Abort` then lower the stop version to `idx + 1`. Returns the outcome.
pub fn commit_outcome<V, O, E>(
    store: &mut MVHashMap<V>,
    scheduler: &mut Scheduler,
    idx: Version,
    status: ExecutionStatus<O, E>,
    writes: Vec<(Key, V)>,
) -> (o: Outcome<O, E>)
    requires
        old(store).wf(),
        old(scheduler).wf(),
        idx < old(scheduler).status().len(),
    ensures
        final(store).wf(),
        evolves(old(store).cells(), final(store).cells(), idx),
        o == outcome_of(status, writes_have_cells(*old(store), idx, writes@)),
        status is Abort ==> final(store).cells() == old(store).cells(),
        !(status is Abort) && writes_have_cells(*old(store), idx, writes@)
            ==> final(store).cells() == apply_writes(old(store).cells(), idx, writes@),
        final(scheduler).wf(),
        final(scheduler).stop_version() == stop_after(old(scheduler).stop_version(), idx, o),
        final(scheduler).status() == old(scheduler).status(),
        final(scheduler).ready() == old(scheduler).ready(),
        final(scheduler).next_version() == old(scheduler).next_version(),
        forall|p: int| #[trigger] final(scheduler).waiters(p) == old(scheduler).waiters(p),
{
    match status {
        ExecutionStatus::Success(out) => {
            if store.write_all(idx, writes) {
                ExecutionStatus::Success(out)
            } else {
                ExecutionStatus::Abort(Error::UnestimatedWrite)
            }
        },
        ExecutionStatus::SkipRest(out) => {
            if store.write_all(idx, writes) {
                scheduler.set_stop_version(idx + 1);
                ExecutionStatus::SkipRest(out)
            } else {
                ExecutionStatus::Abort(Error::UnestimatedWrite)
            }
        },
        ExecutionStatus::Abort(e) => {
            proof {
                assert(evolves(store.cells(), store.cells(), idx));
            }
            scheduler.set_stop_version(idx + 1);
            ExecutionStatus::Abort(Error::UserError(e))
        },
    }
}

/// Whether every cell of `k` at version `w` is closed.
spec fn key_closed<V>(m: Map<Key, Seq<(Version, WriteCell<V>)>>, k: Key, w: Version) -> bool {
    forall|i: int|
        0 <= i < m[k].len() && (#[trigger] m[k][i]).0 == w ==> !(m[k][i].1 is Unset)
}

/// Finishes version `idx`, whose execution returned `status` without running
/// into an unfinished write: commits its writes, lowers the stop version after
/// `SkipRest` or `Abort`, closes the cells it did not write, marks it executed
/// (which sends back the versions parked on it), and records its outcome.
pub fn finish_version<V, O: TransactionOutput<V>, E>(
    store: &mut MVHashMap<V>,
    scheduler: &mut Scheduler,
    outcomes: &mut OutcomeArray<O, E>,
    idx: Version,
    keys_written: &Vec<Key>,
    status: ExecutionStatus<O, E>,
)
    requires
        old(store).wf(),
        old(scheduler).wf(),
        idx < old(scheduler).status().len(),
        old(scheduler).status()[idx as int] == TxnStatus::InProgress,
        idx < old(outcomes).slots().len(),
        old(outcomes).slots()[idx as int] is None,
        forall|i: int|
            0 <= i < keys_written.len() ==> old(store).has_cell(#[trigger] keys_written@[i], idx),
        forall|k: Key| old(store).has_cell(k, idx) ==> keys_written@.contains(k),
    ensures
        final(store).wf(),
        evolves(old(store).cells(), final(store).cells(), idx),
        closed_at(final(store).cells(), idx),
        final(scheduler).wf(),
        final(scheduler).status() == old(scheduler).status().update(
            idx as int,
            TxnStatus::Executed,
        ),
        final(scheduler).ready() == old(scheduler).ready() + old(scheduler).waiters(idx as int),
        final(scheduler).waiters(idx as int) == Seq::<Version>::empty(),
        forall|p: int|
            0 <= p < old(scheduler).status().len() && p != idx
                ==> #[trigger] final(scheduler).waiters(p) == old(scheduler).waiters(p),
        final(scheduler).next_version() == old(scheduler).next_version(),
        final(outcomes).slots()[idx as int] is Some,
        ({
            let o = final(outcomes).slots()[idx as int]->Some_0;
            &&& final(outcomes).slots() == old(outcomes).slots().update(idx as int, Some(o))
            &&& o == outcome_of(
                status,
                writes_have_cells(*old(store), idx, status_writes::<V, O, E>(status)),
            )
            &&& exists|mid: Map<Key, Seq<(Version, WriteCell<V>)>>|
                {
                    &&& evolves(old(store).cells(), mid, idx)
                    &&& (status is Abort ==> mid == old(store).cells())
                    &&& (!(status is Abort) && writes_have_cells(
                        *old(store),
                        idx,
                        status_writes::<V, O, E>(status),
                    ) ==> mid == apply_writes(
                        old(store).cells(),
                        idx,
                        status_writes::<V, O, E>(status),
                    ))
                    &&& #[trigger] close_version(mid, idx) == final(store).cells()
                }
            &&& final(scheduler).stop_version() == stop_after(
                old(scheduler).stop_version(),
                idx,
                o,
            )
        }),
{
    let ghost start = store.cells();
    let ghost st = status;
    let writes = match &status {
        ExecutionStatus::Success(out) => out.get_writes(),
        ExecutionStatus::SkipRest(out) => out.get_writes(),
        ExecutionStatus::Abort(_) => Vec::new(),
    };
    let ghost writes_view = writes@;
    let ghost store0 = *store;
    let o = commit_outcome(store, scheduler, idx, status, writes);
    let ghost mid = store.cells();
    assert(o == outcome_of(st, true) || o == outcome_of(st, false));
    let mut i: usize = 0;
    while i < keys_written.len()
        invariant
            start == old(store).cells(),
            store.wf(),
            evolves(start, store.cells(), idx),
            i <= keys_written.len(),
            forall|j: int|
                0 <= j < keys_written.len() ==> old(store).has_cell(
                    #[trigger] keys_written@[j],
                    idx,
                ),
            forall|j: int|
                0 <= j < i ==> key_closed(store.cells(), #[trigger] keys_written@[j], idx),
            evolves(start, mid, idx),
            store.cells().dom() == mid.dom(),
            forall|k: Key| #[trigger]
                mid.contains_key(k) ==> store.cells()[k] == if in_prefix(
                    keys_written@,
                    i as int,
                    k,
                ) {
                    skip_cell(mid[k], idx)
                } else {
                    mid[k]
                },
        decreases keys_written.len() - i,
    {
        let ghost before = store.cells();
        let k = keys_written[i];
        proof {
            lemma_evolves_keeps_cells(start, before, idx, k, idx);
        }
        store.skip_if_unset(&k, idx);
        proof {
            assert(skip_cell(skip_cell(mid[k], idx), idx) =~= skip_cell(mid[k], idx));
            assert forall|k2: Key| #[trigger] mid.contains_key(k2) implies store.cells()[k2]
                == if in_prefix(keys_written@, i + 1, k2) {
                skip_cell(mid[k2], idx)
            } else {
                mid[k2]
            } by {
                lemma_prefix_step(keys_written@, i as int, k2);
            }
            assert(store.cells().dom() =~= mid.dom());
            lemma_evolves_trans(start, before, store.cells(), idx);
            assert forall|j: int| 0 <= j < i + 1 implies key_closed(
                store.cells(),
                #[trigger] keys_written@[j],
                idx,
            ) by {
                let kj = keys_written@[j];
                if kj != k {
                    assert(key_closed(before, kj, idx));
                    assert forall|x: int|
                        0 <= x < store.cells()[kj].len() && (#[trigger] store.cells()[kj][x]).0
                            == idx implies !(store.cells()[kj][x].1 is Unset) by {
                        assert(store.cells()[kj] == before[kj]);
                    }
                }
            }
        }
        i += 1;
    }
    proof {
        assert forall|k: Key, x: int|
            #![trigger store.cells()[k][x]]
            store.cells().contains_key(k) && 0 <= x < store.cells()[k].len()
                && store.cells()[k][x].0 == idx implies !(store.cells()[k][x].1 is Unset) by {
            assert(crate::mvhashmap::has_version(store.cells()[k], idx));
            lemma_evolves_keeps_cells(start, store.cells(), idx, k, idx);
            assert(keys_written@.contains(k));
            let j = choose|j: int| 0 <= j < keys_written.len() && keys_written@[j] == k;
            assert(key_closed(store.cells(), keys_written@[j], idx));
        }
    }
    proof {
        assert forall|k: Key| #[trigger] mid.contains_key(k) implies store.cells()[k]
            == skip_cell(mid[k], idx) by {
            if !in_prefix(keys_written@, i as int, k) {
                assert forall|x: int| 0 <= x < mid[k].len() implies mid[k][x].0 != idx by {
                    if mid[k][x].0 == idx {
                        assert(crate::mvhashmap::has_version(mid[k], idx));
                        lemma_evolves_keeps_cells(start, mid, idx, k, idx);
                        assert(keys_written@.contains(k));
                        let j = choose|j: int| 0 <= j < keys_written.len() && keys_written@[j] == k;
                        assert(in_prefix(keys_written@, i as int, k));
                    }
                }
                assert(skip_cell(mid[k], idx) =~= mid[k]);
            }
        }
        assert(store.cells() =~= close_version(mid, idx));
        assert(o == outcome_of(st, writes_have_cells(store0, idx, writes_view)));
        assert(writes_view == status_writes::<V, O, E>(st));
    }
    scheduler.finish_execution(idx);
    outcomes.set_result(idx, o);
}

/// Sends back version `idx`, whose execution ran into the unfinished write of
/// `producer`: it is parked until `producer` finishes, or sent back at once
/// when `producer` has finished meanwhile.
pub fn park(scheduler: &mut Scheduler, idx: Version, producer: Version)
    requires
        old(scheduler).wf(),
        producer < idx < old(scheduler).status().len(),
        old(scheduler).status()[idx as int] == TxnStatus::InProgress,
    ensures
        final(scheduler).wf(),
        final(scheduler).status() == old(scheduler).status().update(
            idx as int,
            TxnStatus::Pending,
        ),
        final(scheduler).stop_version() == old(scheduler).stop_version(),
        final(scheduler).next_version() == old(scheduler).next_version(),
        old(scheduler).status()[producer as int] != TxnStatus::Executed ==> {
            &&& final(scheduler).waiters(producer as int) == old(scheduler).waiters(
                producer as int,
            ).push(idx)
            &&& final(scheduler).ready() == old(scheduler).ready()
        },
        old(scheduler).status()[producer as int] == TxnStatus::Executed ==> {
            &&& final(scheduler).waiters(producer as int) == old(scheduler).waiters(
                producer as int,
            )
            &&& final(scheduler).ready() == old(scheduler).ready().push(idx)
        },
        forall|p: int|
            0 <= p < old(scheduler).status().len() && p != producer
                ==> #[trigger] final(scheduler).waiters(p) == old(scheduler).waiters(p),
{
    if !scheduler.add_dependency(idx, producer) {
        scheduler.add_transaction(idx);
    }
}

/// Ends one execution attempt of version `idx`, whose execution returned
/// `status` and, through its view, reported `blocked`, the first unfinished
/// earlier writer that a read ran into. Such an attempt does not count: the
/// version is parked on that writer, or sent back when it has finished
/// meanwhile. Any other attempt finishes the version (see `finish_version`).
pub fn finish_attempt<V, O: TransactionOutput<V>, E>(
    store: &mut MVHashMap<V>,
    scheduler: &mut Scheduler,
    outcomes: &mut OutcomeArray<O, E>,
    idx: Version,
    keys_written: &Vec<Key>,
    status: ExecutionStatus<O, E>,
    blocked: Option<Version>,
)
    requires
        old(store).wf(),
        old(scheduler).wf(),
        idx < old(scheduler).status().len(),
        old(scheduler).status()[idx as int] == TxnStatus::InProgress,
        idx < old(outcomes).slots().len(),
        old(outcomes).slots()[idx as int] is None,
        forall|i: int|
            0 <= i < keys_written.len() ==> old(store).has_cell(#[trigger] keys_written@[i], idx),
        forall|k: Key| old(store).has_cell(k, idx) ==> keys_written@.contains(k),
    ensures
        final(store).wf(),
        final(scheduler).wf(),
        final(scheduler).next_version() == old(scheduler).next_version(),
        blocked is Some && blocked->Some_0 < idx ==> {
            let p = blocked->Some_0;
            &&& final(store).cells() == old(store).cells()
            &&& final(outcomes).slots() == old(outcomes).slots()
            &&& final(scheduler).status() == old(scheduler).status().update(
                idx as int,
                TxnStatus::Pending,
            )
            &&& final(scheduler).stop_version() == old(scheduler).stop_version()
            &&& (old(scheduler).status()[p as int] != TxnStatus::Executed ==> {
                &&& final(scheduler).waiters(p as int) == old(scheduler).waiters(p as int).push(
                    idx,
                )
                &&& final(scheduler).ready() == old(scheduler).ready()
            })
            &&& (old(scheduler).status()[p as int] == TxnStatus::Executed
                ==> final(scheduler).ready() == old(scheduler).ready().push(idx))
        },
        !(blocked is Some && blocked->Some_0 < idx) ==> {
            let o = final(outcomes).slots()[idx as int]->Some_0;
            &&& final(outcomes).slots() == old(outcomes).slots().update(idx as int, Some(o))
            &&& o == outcome_of(
                status,
                writes_have_cells(*old(store), idx, status_writes::<V, O, E>(status)),
            )
            &&& evolves(old(store).cells(), final(store).cells(), idx)
            &&& closed_at(final(store).cells(), idx)
            &&& final(scheduler).status() == old(scheduler).status().update(
                idx as int,
                TxnStatus::Executed,
            )
            &&& final(scheduler).ready() == old(scheduler).ready() + old(scheduler).waiters(
                idx as int,
            )
            &&& final(scheduler).stop_version() == stop_after(
                old(scheduler).stop_version(),
                idx,
                o,
            )
        },
{
    match blocked {
        Some(p) if p < idx => {
            park(scheduler, idx, p);
        },
        _ => {
            finish_version(store, scheduler, outcomes, idx, keys_written, status);
        },
    }
}

/// Every transaction of the block is predicted to write `k`.
pub open spec fn all_write(accesses: Seq<ReadWriteSet>, k: Key) -> bool {
    forall|i: int| 0 <= i < accesses.len() ==> (#[trigger] accesses[i]).keys_written@.contains(k)
}

/// No transaction of the block is predicted to write anything.
pub open spec fn no_predicted_writes(accesses: Seq<ReadWriteSet>) -> bool {
    forall|i: int| 0 <= i < accesses.len() ==> (#[trigger] accesses[i]).keys_written@.len() == 0
}

/// Primes the store of a block from the predicted accesses of its
/// transactions: one `Unset` cell for each predicted write. Also returns the
/// dependency level. Fails with `InferencerError` when no write is predicted.
pub fn prime_block<V, E>(accesses: &Vec<ReadWriteSet>) -> (r: Result<
    (MVHashMap<V>, usize),
    Error<E>,
>)
    ensures
        r is Err <==> no_predicted_writes(accesses@),
        r is Err ==> r matches Err(Error::InferencerError),
        r matches Ok((store, level)) ==> {
            &&& store.wf()
            &&& level >= 1
            &&& forall|k: Key, w: Version| #[trigger]
                store.has_cell(k, w) <==> predicted(accesses@, k, w)
            &&& forall|k: Key| #[trigger]
                store.cells().contains_key(k) ==> store.cells()[k].len() <= level
            &&& exists|k: Key| #[trigger]
                store.cells().contains_key(k) && store.cells()[k].len() == level
            &&& closed_below(store.cells(), 0)
            &&& forall|k: Key| #[trigger]
                store.cells().contains_key(k) ==> all_unset(store.cells()[k])
            &&& ((exists|k: Key| #[trigger] all_write(accesses@, k)) ==> level == accesses.len())
        },
{
    let pairs = predicted_writes(accesses);
    let ghost pairs_view = pairs@;
    let (store, max_dependency_level) = MVHashMap::<V>::new_from(pairs);
    proof {
        assert(accesses@.len() == accesses.len());
        if max_dependency_level == 0 {
            if pairs_view.len() > 0 {
                let k0 = pairs_view[0].0;
                assert(has_pair(pairs_view, k0, pairs_view[0].1));
                assert(store.has_cell(k0, pairs_view[0].1));
            }
            assert forall|i: int| 0 <= i < accesses@.len() implies (
            #[trigger] accesses@[i]).keys_written@.len() == 0 by {
                if accesses@[i].keys_written@.len() > 0 {
                    let k = accesses@[i].keys_written@[0];
                    assert(predicted(accesses@, k, i as Version));
                }
            }
        } else {
            assert(pairs_view.len() > 0);
            let k = pairs_view[0].0;
            let w = pairs_view[0].1;
            assert(has_pair(pairs_view, k, w));
            assert(predicted(accesses@, k, w));
            assert(accesses@[w as int].keys_written@.len() > 0);
        }
    }
    if max_dependency_level == 0 {
        return Err(Error::InferencerError);
    }
    proof {
        assert forall|k: Key, w: Version| #[trigger] store.has_cell(k, w) <==> predicted(
            accesses@,
            k,
            w,
        ) by {
            assert(store.has_cell(k, w) <==> has_pair(pairs_view, k, w));
        }
    }
    proof {
        assert forall|k: Key| #[trigger] store.cells().contains_key(k) implies forall|i: int|
            0 <= i < store.cells()[k].len() ==> (#[trigger] store.cells()[k][i]).0
                < accesses.len() by {
            assert forall|i: int| 0 <= i < store.cells()[k].len() implies (
            #[trigger] store.cells()[k][i]).0 < accesses.len() by {
                assert(has_version(store.cells()[k], store.cells()[k][i].0));
                assert(store.has_cell(k, store.cells()[k][i].0));
            }
        }
        let k0 = choose|k: Key| #[trigger]
            store.cells().contains_key(k) && store.cells()[k].len() == max_dependency_level;
        lemma_cells_at_most(store.cells()[k0], accesses.len() as nat);
        if exists|k: Key| #[trigger] all_write(accesses@, k) {
            let k = choose|k: Key| #[trigger] all_write(accesses@, k);
            assert forall|w: Version| w < accesses.len() implies #[trigger] has_version(
                store.cells()[k],
                w,
            ) by {
                assert(accesses@[w as int].keys_written@.contains(k));
                assert(predicted(accesses@, k, w));
                assert(store.has_cell(k, w));
            }
            assert(predicted(accesses@, k, 0));
            assert(store.has_cell(k, 0));
            lemma_covering_cells(store.cells()[k], accesses.len() as nat);
        }
    }
    Ok((store, max_dependency_level))
}

/// The outcomes of a block of `n` transactions that did not fail as a whole:
/// a prefix of the block, every outcome a success but the last, and the last
/// one ending the block early when the prefix is shorter than the block.
pub open spec fn block_outcomes<O, E>(v: Seq<Outcome<O, E>>, n: nat) -> bool {
    &&& v.len() <= n
    &&& (n > 0 ==> v.len() >= 1)
    &&& forall|i: int|
        0 <= i < v.len() ==> !((#[trigger] v[i]) matches ExecutionStatus::Abort(
            Error::InferencerError,
        )) && !(v[i] matches ExecutionStatus::Abort(Error::UnestimatedWrite))
    &&& forall|i: int| 0 <= i < v.len() - 1 ==> (#[trigger] v[i]) is Success
    &&& v.len() < n ==> stops_block(v.last())
}

/// Whether every write of `ws` was predicted for version `i`.
pub open spec fn writes_predicted<V>(accesses: Seq<ReadWriteSet>, i: int, ws: Seq<(Key, V)>) -> bool {
    forall|j: int| 0 <= j < ws.len() ==> predicted(accesses, #[trigger] ws[j].0, i as Version)
}

/// The outcome that version `i` records when its execution returned `st`:
/// its writes commit exactly when each of them was predicted for it.
pub open spec fn recorded<V, O: TransactionOutput<V>, E>(
    accesses: Seq<ReadWriteSet>,
    i: int,
    st: ExecutionStatus<O, E>,
) -> Outcome<O, E> {
    outcome_of(st, writes_predicted(accesses, i, status_writes::<V, O, E>(st)))
}

/// `run` is what the versions of a block of `n` transactions returned, in
/// version order, up to and including the first version whose outcome stops
/// the block, or all `n` when none does.
pub open spec fn is_run<V, O: TransactionOutput<V>, E>(
    accesses: Seq<ReadWriteSet>,
    run: Seq<ExecutionStatus<O, E>>,
    n: nat,
) -> bool {
    &&& 1 <= run.len() <= n
    &&& forall|i: int|
        0 <= i < run.len() - 1 ==> !stops_block(recorded::<V, O, E>(accesses, i, #[trigger] run[i]))
    &&& run.len() < n ==> stops_block(
        recorded::<V, O, E>(accesses, run.len() - 1, run[run.len() - 1]),
    )
}

/// The outcomes of the versions of `run`, in order.
pub open spec fn run_outcomes<V, O: TransactionOutput<V>, E>(
    accesses: Seq<ReadWriteSet>,
    run: Seq<ExecutionStatus<O, E>>,
) -> Seq<Outcome<O, E>> {
    Seq::new(run.len(), |i: int| recorded::<V, O, E>(accesses, i, run[i]))
}

/// The result of a block whose versions returned `run`: the failure of the
/// block when one of them wrote a key it was not predicted to write, else the
/// outcomes of the run. `r` is that result.
pub open spec fn is_run_result<V, O: TransactionOutput<V>, E>(
    accesses: Seq<ReadWriteSet>,
    run: Seq<ExecutionStatus<O, E>>,
    r: Result<Vec<Outcome<O, E>>, Error<E>>,
) -> bool {
    let outs = run_outcomes::<V, O, E>(accesses, run);
    if exists|i: int| 0 <= i < outs.len() && is_unestimated(#[trigger] outs[i]) {
        r matches Err(Error::UnestimatedWrite)
    } else {
        r matches Ok(v) && v@ == outs
    }
}

/// The writes that the versions of `run` report, in order.
pub open spec fn run_writes<V, O: TransactionOutput<V>, E>(run: Seq<ExecutionStatus<O, E>>) -> Seq<
    Seq<(Key, V)>,
> {
    Seq::new(run.len(), |i: int| status_writes::<V, O, E>(run[i]))
}

/// The state after the versions below `i` ran one after the other, version
/// `u` writing `ws[u]`.
pub open spec fn serial_state<V>(ws: Seq<Seq<(Key, V)>>, i: nat) -> spec_fn(Key) -> Option<V> {
    |k: Key| sequential_value(ws, k, i)
}

/// No outcome of `outs` is the failure of the block.
pub open spec fn no_unestimated<O, E>(outs: Seq<Outcome<O, E>>) -> bool {
    forall|i: int| 0 <= i < outs.len() ==> !is_unestimated(#[trigger] outs[i])
}

/// `run` is what `task` returned for the versions of `block`, version `i`
/// having read the state `seen[i]`; when none of them wrote an unpredicted
/// key, that state is the one a serial run of the earlier versions leaves.
pub open spec fn ran<T, V, E: ExecutorTask<T, V>>(
    task: E,
    block: Seq<T>,
    accesses: Seq<ReadWriteSet>,
    run: Seq<ExecutionStatus<E::Output, E::Error>>,
    seen: Seq<spec_fn(Key) -> Option<V>>,
) -> bool {
    &&& is_run::<V, E::Output, E::Error>(accesses, run, block.len())
    &&& seen.len() == run.len()
    &&& forall|i: int| 0 <= i < run.len() ==> task.can_return(block[i], seen[i], #[trigger] run[i])
    &&& no_unestimated(run_outcomes::<V, E::Output, E::Error>(accesses, run)) ==> forall|i: int|
        0 <= i < seen.len() ==> #[trigger] seen[i] == serial_state(
            run_writes::<V, E::Output, E::Error>(run),
            i as nat,
        )
}

/// What executing a non-empty `block` with `task` gives, its accesses predicted
/// as `accesses`: `InferencerError` when no write is predicted; else the
/// result of a run of what `task` returned for its versions, in order.
pub open spec fn block_result<T, V, E: ExecutorTask<T, V>>(
    task: E,
    block: Seq<T>,
    accesses: Seq<ReadWriteSet>,
    r: Result<Vec<Outcome<E::Output, E::Error>>, Error<E::Error>>,
) -> bool {
    &&& (no_predicted_writes(accesses) ==> (r matches Err(Error::InferencerError)))
    &&& !no_predicted_writes(accesses) ==> exists|
        run: Seq<ExecutionStatus<E::Output, E::Error>>,
        seen: Seq<spec_fn(Key) -> Option<V>>,
    |
        {
            &&& #[trigger] ran::<T, V, E>(task, block, accesses, run, seen)
            &&& is_run_result::<V, E::Output, E::Error>(accesses, run, r)
        }
}

/// `rs` is what `inferencer` gave for each transaction of `block`.
pub open spec fn is_inference<T, I: ReadWriteSetInferencer<T>>(
    inferencer: I,
    block: Seq<T>,
    rs: Seq<Result<ReadWriteSet, InferenceFailure>>,
) -> bool {
    &&& rs.len() == block.len()
    &&& forall|i: int| 0 <= i < rs.len() ==> inferencer.can_infer(block[i], #[trigger] rs[i])
}

/// The accesses in `rs`, when the inferencer succeeded on every transaction.
pub open spec fn inferred(rs: Seq<Result<ReadWriteSet, InferenceFailure>>) -> Seq<ReadWriteSet> {
    rs.map_values(|x: Result<ReadWriteSet, InferenceFailure>| x->Ok_0)
}

/// Whether the inferencer succeeded on every transaction.
pub open spec fn all_inferred(rs: Seq<Result<ReadWriteSet, InferenceFailure>>) -> bool {
    forall|i: int| 0 <= i < rs.len() ==> (#[trigger] rs[i]) is Ok
}

/// The accesses of a block from what the inferencer gave for each of its
/// transactions, in order; `InferencerError` when it failed on one.
pub fn collect_accesses<E>(results: Vec<Result<ReadWriteSet, InferenceFailure>>) -> (r: Result<
    Vec<ReadWriteSet>,
    Error<E>,
>)
    ensures
        r is Ok <==> all_inferred(results@),
        r is Err ==> r matches Err(Error::InferencerError),
        r matches Ok(v) ==> v@ == inferred(results@),
{
    let ghost all = results@;
    let mut rest = results;
    let mut out: Vec<ReadWriteSet> = Vec::new();
    proof {
        assert(all.skip(0) =~= all);
    }
    while rest.len() > 0
        invariant
            all == results@,
            out.len() + rest.len() == all.len(),
            rest@ == all.skip(out.len() as int),
            forall|j: int| 0 <= j < out.len() ==> (#[trigger] all[j]) is Ok,
            out@ == inferred(all.take(out.len() as int)),
        decreases rest.len(),
    {
        let ghost i = out.len() as int;
        match rest.remove(0) {
            Ok(rw) => {
                out.push(rw);
                proof {
                    assert(all[i] is Ok);
                    assert(out@ =~= inferred(all.take(i + 1)));
                    assert(rest@ =~= all.skip(i + 1));
                }
            },
            Err(_) => {
                assert(!(all[i] is Ok));
                return Err(Error::InferencerError);
            },
        }
    }
    proof {
        assert(all.take(out.len() as int) =~= all);
    }
    Ok(out)
}

/// Executes `block`, whose accesses were predicted as `accesses`, with `task`,
/// one version after the other; every read of a version then finds its
/// earlier writers finished, so none waits.
///
/// An empty block gives no outcomes. A block in which no write is predicted
/// fails with `InferencerError`. Otherwise the versions run in order up to and
/// including the first whose outcome stops the block; outcome `i` is what
/// version `i` returned, its writes committed when each was predicted for it.
/// The block fails with `UnestimatedWrite` when one of those versions wrote a
/// key it was not predicted to write, and else gives those outcomes in order.
pub fn execute_block<T, V, E: ExecutorTask<T, V>>(
    task: &E,
    block: &Vec<T>,
    accesses: &Vec<ReadWriteSet>,
) -> (r: Result<Vec<Outcome<E::Output, E::Error>>, Error<E::Error>>)
    requires
        block.len() == accesses.len(),
    ensures
        block.len() == 0 ==> (r matches Ok(v) && v.len() == 0),
        block.len() > 0 ==> (r matches Err(Error::InferencerError) <==> no_predicted_writes(
            accesses@,
        )),
        r is Err ==> r matches Err(Error::InferencerError) || r matches Err(
            Error::UnestimatedWrite,
        ),
        r matches Ok(v) ==> block_outcomes(v@, block.len() as nat),
        block.len() > 0 ==> block_result::<T, V, E>(*task, block@, accesses@, r),
{
    let n = block.len();
    if n == 0 {
        return Ok(Vec::new());
    }
    let (mut store, _) = match prime_block::<V, E::Error>(accesses) {
        Ok(primed) => primed,
        Err(e) => {
            return Err(e);
        },
    };
    let mut scheduler = Scheduler::new(n);
    let mut outcomes: OutcomeArray<E::Output, E::Error> = OutcomeArray::new(n);
    let ghost mut run: Seq<ExecutionStatus<E::Output, E::Error>> = Seq::empty();
    let ghost mut seen: Seq<spec_fn(Key) -> Option<V>> = Seq::empty();
    proof {
        assert forall|k: Key, i: int|
            #![trigger store.cells()[k][i]]
            store.cells().contains_key(k) && 0 <= i < store.cells()[k].len() implies store.cells()[k][i].1 is Unset by {
            assert(all_unset(store.cells()[k]));
        }
    }
    loop
        invariant
            n == block.len(),
            n == accesses.len(),
            n > 0,
            scheduler.wf(),
            scheduler.status().len() == n,
            outcomes.slots().len() == n,
            scheduler.ready().len() == 0,
            forall|p: int| 0 <= p < n ==> (#[trigger] scheduler.waiters(p)).len() == 0,
            scheduler.next_version() <= scheduler.stop_version() <= n,
            forall|i: int|
                0 <= i < scheduler.next_version() ==> scheduler.status()[i]
                    == TxnStatus::Executed,
            store.wf(),
            forall|k: Key, w: Version| #[trigger] store.has_cell(k, w) <==> predicted(
                accesses@,
                k,
                w,
            ),
            closed_below(store.cells(), scheduler.next_version() as Version),
            forall|i: int|
                0 <= i < scheduler.next_version() ==> (#[trigger] outcomes.slots()[i]) is Some
                    && !(outcomes.slots()[i]->Some_0 matches ExecutionStatus::Abort(
                    Error::InferencerError,
                )),
            forall|i: int|
                scheduler.next_version() <= i < n ==> (#[trigger] outcomes.slots()[i]) is None,
            forall|i: int|
                0 <= i < scheduler.next_version() && stops_block(
                    (#[trigger] outcomes.slots()[i])->Some_0,
                ) ==> scheduler.stop_version() <= i + 1,
            scheduler.stop_version() < n ==> 1 <= scheduler.stop_version()
                <= scheduler.next_version() && stops_block(
                outcomes.slots()[scheduler.stop_version() - 1]->Some_0,
            ),
            run.len() == scheduler.next_version(),
            forall|i: int|
                0 <= i < run.len() ==> outcomes.slots()[i] == Some(
                    recorded::<V, E::Output, E::Error>(accesses@, i, #[trigger] run[i]),
                ),
            seen.len() == run.len(),
            forall|i: int|
                0 <= i < run.len() ==> task.can_return(block@[i], seen[i], #[trigger] run[i]),
            forall|k: Key, i: int|
                #![trigger store.cells()[k][i]]
                store.cells().contains_key(k) && 0 <= i < store.cells()[k].len()
                    && store.cells()[k][i].0 >= scheduler.next_version()
                    ==> store.cells()[k][i].1 is Unset,
            no_unestimated(run_outcomes::<V, E::Output, E::Error>(accesses@, run)) ==> {
                &&& forall|k: Key| #[trigger]
                    store.cells().contains_key(k) ==> finished_below(
                        store.cells()[k],
                        run_writes::<V, E::Output, E::Error>(run),
                        k,
                        scheduler.next_version() as Version,
                    )
                &&& forall|k: Key, u: Version|
                    !store.cells().contains_key(k) && u < scheduler.next_version() ==> (
                    #[trigger] last_write(run_writes::<V, E::Output, E::Error>(run)[u as int], k))
                        is None
                &&& forall|i: int|
                    0 <= i < seen.len() ==> #[trigger] seen[i] == serial_state(
                        run_writes::<V, E::Output, E::Error>(run),
                        i as nat,
                    )
            },
        ensures
            forall|i: int|
                0 <= i < scheduler.stop_version() ==> scheduler.status()[i]
                    == TxnStatus::Executed,
        decreases scheduler.stop_version() - scheduler.next_version(),
    {
        proof {
            assert(!scheduler.has_ready());
            assert(!scheduler.any_in_progress());
        }
        match scheduler.next_txn_to_execute() {
            SchedulerTask::Execute(v) => {
                proof {
                    lemma_store_reads_resolve(store, v);
                }
                let ghost cells0 = store.cells();
                let ghost store0 = store;
                let ghost slots0 = outcomes.slots();
                let ghost wsq = run_writes::<V, E::Output, E::Error>(run);
                let ghost ok0 = no_unestimated(run_outcomes::<V, E::Output, E::Error>(accesses@, run));
                let ghost mut vis: spec_fn(Key) -> Option<V> = |k: Key| None::<V>;
                let status = {
                    let mut view = MVHashMapView::new(&store, v);
                    proof {
                        vis = view.visible();
                    }
                    task.execute_transaction(&mut view, &block[v])
                };
                proof {
                    if ok0 {
                        assert forall|k: Key| #[trigger] vis(k) == serial_state(wsq, v as nat)(k) by {
                            if store0.cells().contains_key(k) {
                                lemma_reads_match_serial_run(store0.cells()[k], wsq, k, v);
                            } else {
                                lemma_no_writes_between(wsq, k, 0, v as nat);
                            }
                        }
                        assert(vis =~= serial_state(wsq, v as nat));
                    }
                }
                let ghost st = status;
                proof {
                    let ws = status_writes::<V, E::Output, E::Error>(st);
                    assert(writes_have_cells(store0, v, ws) == writes_predicted(accesses@, v as int, ws))
                        by {
                        assert forall|j: int| 0 <= j < ws.len() implies (store0.has_cell(
                            #[trigger] ws[j].0,
                            v,
                        ) <==> predicted(accesses@, ws[j].0, v)) by {}
                    }
                }
                proof {
                    assert forall|i: int|
                        0 <= i < accesses@[v as int].keys_written.len() implies store.has_cell(
                        #[trigger] accesses@[v as int].keys_written@[i],
                        v,
                    ) by {
                        assert(predicted(accesses@, accesses@[v as int].keys_written@[i], v));
                    }
                }
                finish_version(
                    &mut store,
                    &mut scheduler,
                    &mut outcomes,
                    v,
                    &accesses[v].keys_written,
                    status,
                );
                proof {
                    let ghost old_run = run;
                    let ghost old_seen = seen;
                    run = run.push(st);
                    seen = seen.push(vis);
                    let ws_v = status_writes::<V, E::Output, E::Error>(st);
                    assert(run_writes::<V, E::Output, E::Error>(run) =~= wsq.push(ws_v));
                    let outs0 = run_outcomes::<V, E::Output, E::Error>(accesses@, old_run);
                    let outs1 = run_outcomes::<V, E::Output, E::Error>(accesses@, run);
                    assert forall|i: int| 0 <= i < outs0.len() implies outs1[i] == outs0[i] by {
                        assert(run[i] == old_run[i]);
                    }
                    assert forall|i: int| 0 <= i < run.len() implies task.can_return(
                        block@[i],
                        seen[i],
                        #[trigger] run[i],
                    ) by {
                        if i < v {
                            assert(run[i] == old_run[i]);
                            assert(seen[i] == old_seen[i]);
                        }
                    }
                    assert forall|k: Key, i: int|
                        #![trigger store.cells()[k][i]]
                        store.cells().contains_key(k) && 0 <= i < store.cells()[k].len()
                            && store.cells()[k][i].0 >= scheduler.next_version()
                            implies store.cells()[k][i].1 is Unset by {
                        assert(cells0.contains_key(k));
                        assert(store.cells()[k][i].0 == cells0[k][i].0);
                    }
                    if no_unestimated(outs1) {
                        assert(ok0) by {
                            assert forall|i: int| 0 <= i < outs0.len() implies !is_unestimated(
                                #[trigger] outs0[i],
                            ) by {
                                assert(outs1[i] == outs0[i]);
                            }
                        }
                        assert(!is_unestimated(outs1[v as int]));
                        let committed = writes_have_cells(store0, v, ws_v);
                        assert(st is Abort || committed);
                        assert forall|j: int| 0 <= j < ws_v.len() implies cells0.contains_key(
                            #[trigger] ws_v[j].0,
                        ) by {
                            assert(store0.has_cell(ws_v[j].0, v));
                        }
                        let mid = choose|mid: Map<Key, Seq<(Version, WriteCell<V>)>>|
                            {
                                &&& evolves(cells0, mid, v)
                                &&& (st is Abort ==> mid == cells0)
                                &&& (!(st is Abort) && writes_have_cells(store0, v, ws_v) ==> mid
                                    == apply_writes(cells0, v, ws_v))
                                &&& #[trigger] close_version(mid, v) == store.cells()
                            };
                        assert(mid == apply_writes(cells0, v, ws_v));
                        assert forall|k: Key| #[trigger]
                            store.cells().contains_key(k) implies finished_below(
                            store.cells()[k],
                            run_writes::<V, E::Output, E::Error>(run),
                            k,
                            (v + 1) as Version,
                        ) by {
                            lemma_apply_writes_key(cells0, v, ws_v, k);
                            if last_write(ws_v, k) is Some {
                                lemma_last_write_written(ws_v, k);
                                let j = choose|j: int| 0 <= j < ws_v.len() && (#[trigger] ws_v[j]).0 == k;
                                assert(store0.has_cell(ws_v[j].0, v));
                            }
                            assert forall|i: int|
                                0 <= i < cells0[k].len() && (#[trigger] cells0[k][i]).0 >= v implies cells0[k][i].1 is Unset by {
                                assert(store0.cells()[k][i] == cells0[k][i]);
                            }
                            lemma_finish_key(cells0[k], wsq, ws_v, k, v);
                        }
                        assert forall|k: Key, u: Version|
                            !store.cells().contains_key(k) && u < v + 1 implies (#[trigger] last_write(
                            run_writes::<V, E::Output, E::Error>(run)[u as int],
                            k,
                        )) is None by {
                            if u < v {
                                assert(run_writes::<V, E::Output, E::Error>(run)[u as int] == wsq[u as int]);
                            } else if last_write(ws_v, k) is Some {
                                lemma_last_write_written(ws_v, k);
                                let j = choose|j: int| 0 <= j < ws_v.len() && (#[trigger] ws_v[j]).0 == k;
                                assert(store0.has_cell(ws_v[j].0, v));
                                lemma_apply_writes_key(cells0, v, ws_v, k);
                            }
                        }
                        assert forall|i: int| 0 <= i < seen.len() implies #[trigger] seen[i]
                            == serial_state(run_writes::<V, E::Output, E::Error>(run), i as nat) by {
                            assert forall|k: Key| #[trigger] sequential_value(wsq, k, i as nat)
                                == sequential_value(wsq.push(ws_v), k, i as nat) by {
                                lemma_sequential_prefix(wsq, ws_v, k, i as nat);
                            }
                            assert(serial_state(wsq, i as nat) =~= serial_state(wsq.push(ws_v), i as nat));
                            if i < v {
                                assert(seen[i] == old_seen[i]);
                            }
                        }
                    }
                    assert forall|i: int| 0 <= i < run.len() implies outcomes.slots()[i] == Some(
                        recorded::<V, E::Output, E::Error>(accesses@, i, #[trigger] run[i]),
                    ) by {
                        if i < v {
                            assert(outcomes.slots()[i] == slots0[i]);
                            assert(run[i] == old_run[i]);
                        }
                    }
                    lemma_closed_advance(cells0, store.cells(), v);
                    assert forall|k: Key, w: Version| #[trigger] store.has_cell(k, w) <==> predicted(
                        accesses@,
                        k,
                        w,
                    ) by {
                        lemma_evolves_keeps_cells(cells0, store.cells(), v, k, w);
                        assert(store0.has_cell(k, w) <==> predicted(accesses@, k, w));
                    }
                    assert(scheduler.ready() =~= Seq::<Version>::empty());
                    let o = outcomes.slots()[v as int]->Some_0;
                    assert forall|i: int|
                        0 <= i < scheduler.next_version() && stops_block(
                            (#[trigger] outcomes.slots()[i])->Some_0,
                        ) implies scheduler.stop_version() <= i + 1 by {
                        if i < v {
                            assert(outcomes.slots()[i] == slots0[i]);
                        }
                    }
                    assert forall|i: int|
                        0 <= i < scheduler.next_version() implies (
                        #[trigger] outcomes.slots()[i]) is Some && !(
                        outcomes.slots()[i]->Some_0 matches ExecutionStatus::Abort(
                            Error::InferencerError,
                        )) by {
                        if i < v {
                            assert(outcomes.slots()[i] == slots0[i]);
                        }
                    }
                }
            },
            _ => {
                break ;
            },
        }
    }
    let stop = scheduler.num_txn_to_execute();
    proof {
        if scheduler.next_version() < stop {
            assert(scheduler.status()[scheduler.next_version() as int] == TxnStatus::Pending);
        }
    }
    let ghost slots = outcomes.slots();
    let r = outcomes.get_all_results(stop);
    proof {
        if r is Ok {
            let v = r->Ok_0@;
            assert forall|i: int| 0 <= i < v.len() - 1 implies (#[trigger] v[i]) is Success by {
                assert(v[i] == slots[i]->Some_0);
                assert(!is_unestimated(slots[i]->Some_0));
            }
        }
        let outs = run_outcomes::<V, E::Output, E::Error>(accesses@, run);
        assert forall|i: int| 0 <= i < outs.len() implies #[trigger] outs[i] == slots[i]->Some_0 by {}
        if r is Ok {
            assert(r->Ok_0@ =~= outs);
        }
        if exists|i: int| 0 <= i < outs.len() && is_unestimated(#[trigger] outs[i]) {
            let i = choose|i: int| 0 <= i < outs.len() && is_unestimated(#[trigger] outs[i]);
            assert(is_unestimated(slots[i]->Some_0));
        } else {
            assert forall|i: int| 0 <= i < stop implies !is_unestimated(
                #[trigger] slots[i]->Some_0,
            ) by {
                assert(outs[i] == slots[i]->Some_0);
            }
        }
        assert forall|i: int| 0 <= i < run.len() - 1 implies !stops_block(
            recorded::<V, E::Output, E::Error>(accesses@, i, #[trigger] run[i]),
        ) by {
            assert(slots[i]->Some_0 == recorded::<V, E::Output, E::Error>(accesses@, i, run[i]));
        }
        assert(is_run::<V, E::Output, E::Error>(accesses@, run, n as nat));
        assert(ran::<T, V, E>(*task, block@, accesses@, run, seen));
    }
    r
}

/// Counters of one block.
pub struct ExecutionStats {
    pub num_threads: usize,
    pub num_txns: usize,
    pub max_dependency: usize,
}

/// Executes blocks of transactions whose accesses `inferencer` predicts.
pub struct ParallelTransactionExecutor<I> {
    num_cpus: usize,
    inferencer: I,
}

impl<I> ParallelTransactionExecutor<I> {
    /// The number of CPUs of the machine.
    pub closed spec fn cpus(&self) -> usize {
        self.num_cpus
    }

    /// The inferencer of the accesses of each transaction.
    pub closed spec fn inferencer(&self) -> I {
        self.inferencer
    }

    /// An executor on all CPUs of the machine that infers accesses with
    /// `inferencer`.
    pub fn new(inferencer: I) -> (r: Self)
        ensures
            r.cpus() >= 1,
            r.inferencer() == inferencer,
    {
        ParallelTransactionExecutor { num_cpus: available_cpus(), inferencer }
    }

    /// The number of CPUs of the machine.
    pub fn num_cpus(&self) -> (r: usize)
        ensures
            r == self.cpus(),
    {
        self.num_cpus
    }

    /// The counters of a block of `num_txns` transactions in which at most
    /// `max_dependency` versions are predicted to write one key.
    pub fn stats_for(&self, num_txns: usize, max_dependency: usize) -> (r: ExecutionStats)
        requires
            max_dependency >= 1,
        ensures
            r.num_txns == num_txns,
            r.max_dependency == max_dependency,
            r.num_threads == min_nat(
                min_nat(1 + num_txns as nat / 50, self.cpus() as nat),
                num_txns as nat / max_dependency as nat,
            ),
    {
        ExecutionStats {
            num_threads: worker_count(num_txns, self.num_cpus, max_dependency),
            num_txns,
            max_dependency,
        }
    }

    /// The predicted accesses of each transaction of `block`, in order. Fails
    /// with `InferencerError` when the inferencer fails on one of them.
    pub fn infer_accesses<T, E>(&self, block: &Vec<T>) -> (r: Result<Vec<ReadWriteSet>, Error<E>>) where
        I: ReadWriteSetInferencer<T>,

        ensures
            exists|rs: Seq<Result<ReadWriteSet, InferenceFailure>>|
                {
                    &&& #[trigger] is_inference(self.inferencer(), block@, rs)
                    &&& (r is Ok <==> all_inferred(rs))
                    &&& (r is Err ==> r matches Err(Error::InferencerError))
                    &&& (r matches Ok(v) ==> v@ == inferred(rs))
                },
            block.len() == 0 ==> (r matches Ok(v) && v.len() == 0),
    {
        let mut results: Vec<Result<ReadWriteSet, InferenceFailure>> = Vec::new();
        let mut i: usize = 0;
        while i < block.len()
            invariant
                i <= block.len(),
                results.len() == i,
                forall|j: int|
                    0 <= j < i ==> self.inferencer().can_infer(block@[j], #[trigger] results@[j]),
            decreases block.len() - i,
        {
            results.push(self.inferencer.infer_reads_writes(&block[i]));
            i += 1;
        }
        let ghost rs = results@;
        let r = collect_accesses(results);
        proof {
            assert(is_inference(self.inferencer(), block@, rs));
            if block.len() == 0 {
                assert(all_inferred(rs));
                assert(inferred(rs).len() == 0);
            }
        }
        r
    }

    /// Infers the accesses of every transaction of the block, then executes it
    /// with the task made from `task_initial_arguments` (see `execute_block`).
    /// Fails with `InferencerError` when the inferencer fails on a transaction.
    pub fn execute_transactions_parallel<T, V, E: ExecutorTask<T, V>>(
        &self,
        task_initial_arguments: E::Argument,
        signature_verified_block: Vec<T>,
    ) -> (r: Result<Vec<Outcome<E::Output, E::Error>>, Error<E::Error>>) where
        I: ReadWriteSetInferencer<T>,

        ensures
            signature_verified_block.len() == 0 ==> (r matches Ok(v) && v.len() == 0),
            r is Err ==> r matches Err(Error::InferencerError) || r matches Err(
                Error::UnestimatedWrite,
            ),
            r matches Ok(v) ==> block_outcomes(v@, signature_verified_block.len() as nat),
            signature_verified_block.len() > 0 ==> exists|
                rs: Seq<Result<ReadWriteSet, InferenceFailure>>,
            |
                {
                    &&& #[trigger] is_inference(self.inferencer(), signature_verified_block@, rs)
                    &&& (!all_inferred(rs) ==> r matches Err(Error::InferencerError))
                    &&& (all_inferred(rs) ==> exists|task: E| #[trigger]
                        block_result::<T, V, E>(
                            task,
                            signature_verified_block@,
                            inferred(rs),
                            r,
                        ))
                },
    {
        if signature_verified_block.len() == 0 {
            return Ok(Vec::new());
        }
        let inferred_accesses = self.infer_accesses::<T, E::Error>(&signature_verified_block);
        let ghost rs = choose|rs: Seq<Result<ReadWriteSet, InferenceFailure>>|
            {
                &&& #[trigger] is_inference(self.inferencer(), signature_verified_block@, rs)
                &&& (inferred_accesses is Ok <==> all_inferred(rs))
                &&& (inferred_accesses is Err ==> inferred_accesses matches Err(
                    Error::InferencerError,
                ))
                &&& (inferred_accesses matches Ok(v) ==> v@ == inferred(rs))
            };
        let accesses = match inferred_accesses {
            Ok(accesses) => accesses,
            Err(e) => {
                assert(is_inference(self.inferencer(), signature_verified_block@, rs));
                return Err(e);
            },
        };
        let task = E::init(task_initial_arguments);
        let r = execute_block(&task, &signature_verified_block, &accesses);
        proof {
            assert(block_result::<T, V, E>(task, signature_verified_block@, inferred(rs), r));
            assert(is_inference(self.inferencer(), signature_verified_block@, rs));
        }
        r
    }
}

} // verus!
