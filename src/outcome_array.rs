//! One write-once slot per version for its outcome, read in version order
//! once the block is done.

use crate::task::{Error, ExecutionStatus};
use vstd::prelude::*;

verus! {

/// The outcome recorded for one version.
pub type Outcome<T, E> = ExecutionStatus<T, Error<E>>;

/// Whether an outcome failed the whole block.
pub open spec fn is_unestimated<T, E>(o: Outcome<T, E>) -> bool {
    o matches ExecutionStatus::Abort(Error::UnestimatedWrite)
}

/// One slot per version of a block.
pub struct OutcomeArray<T, E> {
    results: Vec<Option<Outcome<T, E>>>,
}

impl<T, E> OutcomeArray<T, E> {
    /// The slots.
    pub closed spec fn slots(&self) -> Seq<Option<Outcome<T, E>>> {
        self.results@
    }

    /// `num_txns` empty slots.
    pub fn new(num_txns: usize) -> (r: Self)
        ensures
            r.slots() == Seq::new(num_txns as nat, |i: int| None::<Outcome<T, E>>),
    {
        let mut results: Vec<Option<Outcome<T, E>>> = Vec::new();
        let mut i: usize = 0;
        while i < num_txns
            invariant
                i <= num_txns,
                results@ == Seq::new(i as nat, |j: int| None::<Outcome<T, E>>),
            decreases num_txns - i,
        {
            results.push(None);
            i += 1;
            proof {
                assert(results@ =~= Seq::new(i as nat, |j: int| None::<Outcome<T, E>>));
            }
        }
        OutcomeArray { results }
    }

    /// Fills the empty slot of version `idx`.
    pub fn set_result(&mut self, idx: usize, res: Outcome<T, E>)
        requires
            idx < old(self).slots().len(),
            old(self).slots()[idx as int] is None,
        ensures
            final(self).slots() == old(self).slots().update(idx as int, Some(res)),
    {
        self.results.set(idx, Some(res));
    }

    /// Whether each of the first `len` slots is filled.
    pub fn all_set(&self, len: usize) -> (r: bool)
        ensures
            r == (len <= self.slots().len() && forall|i: int|
                0 <= i < len ==> (#[trigger] self.slots()[i]) is Some),
    {
        if len > self.results.len() {
            return false;
        }
        let mut i: usize = 0;
        while i < len
            invariant
                len <= self.results.len(),
                i <= len,
                forall|j: int| 0 <= j < i ==> (#[trigger] self.slots()[j]) is Some,
            decreases len - i,
        {
            if self.results[i].is_none() {
                return false;
            }
            i += 1;
        }
        true
    }

    /// The outcomes of the first `len` versions, in order; or the block's
    /// failure, when one of them wrote a key it was not predicted to write.
    pub fn get_all_results(self, len: usize) -> (r: Result<Vec<Outcome<T, E>>, Error<E>>)
        requires
            len <= self.slots().len(),
            forall|i: int| 0 <= i < len ==> (#[trigger] self.slots()[i]) is Some,
        ensures
            (exists|i: int| 0 <= i < len && is_unestimated(#[trigger] self.slots()[i]->Some_0))
                <==> r is Err,
            r is Err ==> r->Err_0 is UnestimatedWrite,
            r is Ok ==> r->Ok_0@ == Seq::new(len as nat, |i: int| self.slots()[i]->Some_0),
    {
        let mut results = self.results;
        results.truncate(len);
        let ghost slots = results@;
        assert(slots =~= self.slots().take(len as int));
        let mut rev: Vec<Outcome<T, E>> = Vec::new();
        while results.len() > 0
            invariant
                results@ == slots.take(results@.len() as int),
                slots == self.slots().take(len as int),
                len <= self.slots().len(),
                slots.len() == len,
                forall|i: int| 0 <= i < len ==> (#[trigger] slots[i]) is Some,
                rev@.len() == len - results@.len(),
                forall|j: int| 0 <= j < rev@.len() ==> #[trigger] rev@[j] == slots[len - 1 - j]->Some_0,
                forall|j: int| 0 <= j < rev@.len() ==> !is_unestimated(#[trigger] rev@[j]),
            decreases results.len(),
        {
            let slot = results.pop();
            assert(slot == Some(slots[results@.len() as int]));
            match slot {
                Some(Some(ExecutionStatus::Abort(Error::UnestimatedWrite))) => {
                    assert(slots[results@.len() as int] == self.slots()[results@.len() as int]);
                    assert(is_unestimated(self.slots()[results@.len() as int]->Some_0));
                    return Err(Error::UnestimatedWrite);
                },
                Some(Some(o)) => {
                    rev.push(o);
                },
                _ => {},
            }
            assert(results@ =~= slots.take(results@.len() as int));
        }
        proof {
            assert forall|i: int| 0 <= i < len implies !is_unestimated(
                #[trigger] self.slots()[i]->Some_0,
            ) by {
                assert(rev@[len - 1 - i] == slots[i]->Some_0);
                assert(slots[i] == self.slots()[i]);
            }
        }
        let mut out: Vec<Outcome<T, E>> = Vec::new();
        while rev.len() > 0
            invariant
                rev@.len() + out@.len() == len,
                forall|j: int| 0 <= j < rev@.len() ==> #[trigger] rev@[j] == slots[len - 1 - j]->Some_0,
                forall|j: int| 0 <= j < out@.len() ==> #[trigger] out@[j] == slots[j]->Some_0,
            decreases rev.len(),
        {
            match rev.pop() {
                Some(o) => out.push(o),
                None => {},
            }
        }
        proof {
            assert(out@ =~= Seq::new(len as nat, |i: int| self.slots()[i]->Some_0));
        }
        Ok(out)
    }
}

} // verus!
