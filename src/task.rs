//! The interfaces that the executor consumes: the virtual machine that runs
//! one transaction, the inferencer of read and write sets, and the outcome of
//! one execution.

use crate::executor::MVHashMapView;
use crate::mvhashmap::Key;
use vstd::prelude::*;

verus! {

/// What one execution of a transaction produced.
pub enum ExecutionStatus<T, E> {
    /// It ran; its writes stand.
    Success(T),
    /// It ran; its writes stand, and no later transaction of the block runs.
    SkipRest(T),
    /// It failed; no later transaction of the block runs.
    Abort(E),
}

/// Why a block, or one transaction of it, failed.
pub enum Error<E> {
    /// The read and write sets could not be inferred, or none predicts a write.
    InferencerError,
    /// A transaction wrote a key that its predicted write set lacks.
    UnestimatedWrite,
    /// The virtual machine aborted a transaction with this error.
    UserError(E),
}

/// The keys a transaction is predicted to read and to write.
pub struct ReadWriteSet {
    pub keys_read: Vec<Key>,
    pub keys_written: Vec<Key>,
}

/// The inferencer could not predict the accesses of a transaction.
pub struct InferenceFailure;

/// The output of a transaction, as far as the executor needs it.
pub trait TransactionOutput<V> {
    /// The writes of the transaction, in order. An implementation defines it;
    /// the library reasons about it only through `get_writes`.
    closed spec fn writes(&self) -> Seq<(Key, V)> {
        Seq::empty()
    }

    /// The writes of the transaction, in order.
    fn get_writes(&self) -> (r: Vec<(Key, V)>)
        ensures
            r@ == self.writes(),
    ;
}

/// The virtual machine that executes one transaction against a view of the
/// block's state.
pub trait ExecutorTask<T, V>: Sized {
    type Output: TransactionOutput<V>;
    type Error;
    type Argument;

    /// The task that the block is executed with.
    fn init(args: Self::Argument) -> Self;

    /// Whether an execution of `txn` that reads the state `state` (the value
    /// of each key, `None` for none) can return `r`. An implementation may
    /// narrow it; the library assumes nothing of it.
    closed spec fn can_return(
        &self,
        txn: T,
        state: spec_fn(Key) -> Option<V>,
        r: ExecutionStatus<Self::Output, Self::Error>,
    ) -> bool {
        true
    }

    /// Executes `txn`, reading through `view`.
    fn execute_transaction(&self, view: &mut MVHashMapView<V>, txn: &T) -> (r: ExecutionStatus<
        Self::Output,
        Self::Error,
    >)
        ensures
            self.can_return(*txn, old(view).visible(), r),
    ;
}

/// Predicts the accesses of a transaction before it runs. The predicted write
/// set must hold every key the transaction writes.
pub trait ReadWriteSetInferencer<T> {
    /// Whether inferring the accesses of `txn` can give `r`. An implementation
    /// may narrow it; the library assumes nothing of it.
    closed spec fn can_infer(&self, txn: T, r: Result<ReadWriteSet, InferenceFailure>) -> bool {
        true
    }

    /// The predicted accesses of `txn`.
    fn infer_reads_writes(&self, txn: &T) -> (r: Result<ReadWriteSet, InferenceFailure>)
        ensures
            self.can_infer(*txn, r),
    ;
}

} // verus!
