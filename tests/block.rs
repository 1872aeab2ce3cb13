use parallel_executor::executor::{execute_block, MVHashMapView, ParallelTransactionExecutor};
use parallel_executor::task::{
    Error, ExecutionStatus, ExecutorTask, InferenceFailure, ReadWriteSet, ReadWriteSetInferencer,
    TransactionOutput,
};

const A: u64 = 10;
const B: u64 = 11;
const C: u64 = 12;
const D: u64 = 13;
const K: u64 = 20;

#[derive(Clone, Debug, PartialEq)]
enum End {
    Success,
    SkipRest,
    Abort(u32),
}

#[derive(Clone)]
struct Txn {
    reads: Vec<u64>,
    writes: Vec<u64>,
    predicted_reads: Vec<u64>,
    predicted_writes: Vec<u64>,
    end: End,
    inferable: bool,
}

fn txn(reads: &[u64], writes: &[u64], predicted_writes: &[u64]) -> Txn {
    Txn {
        reads: reads.to_vec(),
        writes: writes.to_vec(),
        predicted_reads: reads.to_vec(),
        predicted_writes: predicted_writes.to_vec(),
        end: End::Success,
        inferable: true,
    }
}

#[derive(Debug, PartialEq)]
struct Out {
    seen: Vec<Option<u64>>,
    writes: Vec<(u64, u64)>,
}

impl TransactionOutput<u64> for Out {
    fn get_writes(&self) -> Vec<(u64, u64)> {
        self.writes.clone()
    }
}

struct Vm;

impl ExecutorTask<Txn, u64> for Vm {
    type Output = Out;
    type Error = u32;
    type Argument = ();

    fn init(_args: ()) -> Self {
        Vm
    }

    // Each write stores one more than the sum of the values read.
    fn execute_transaction(&self, view: &mut MVHashMapView<u64>, txn: &Txn) -> ExecutionStatus<Out, u32> {
        let mut seen = Vec::new();
        for k in &txn.reads {
            match view.read(k) {
                Ok(v) => seen.push(v.copied()),
                Err(_) => return ExecutionStatus::Abort(u32::MAX),
            }
        }
        let value = 1 + seen.iter().map(|v| v.unwrap_or(0)).sum::<u64>();
        let writes = txn.writes.iter().map(|k| (*k, value)).collect();
        let out = Out { seen, writes };
        match txn.end {
            End::Success => ExecutionStatus::Success(out),
            End::SkipRest => ExecutionStatus::SkipRest(out),
            End::Abort(e) => ExecutionStatus::Abort(e),
        }
    }
}

struct Inferencer;

impl ReadWriteSetInferencer<Txn> for Inferencer {
    fn infer_reads_writes(&self, txn: &Txn) -> Result<ReadWriteSet, InferenceFailure> {
        if !txn.inferable {
            return Err(InferenceFailure);
        }
        Ok(ReadWriteSet {
            keys_read: txn.predicted_reads.clone(),
            keys_written: txn.predicted_writes.clone(),
        })
    }
}

fn run(block: Vec<Txn>) -> Result<Vec<ExecutionStatus<Out, Error<u32>>>, Error<u32>> {
    let executor = ParallelTransactionExecutor::new(Inferencer);
    executor.execute_transactions_parallel::<Txn, u64, Vm>((), block)
}

fn success(o: &ExecutionStatus<Out, Error<u32>>) -> &Out {
    match o {
        ExecutionStatus::Success(out) => out,
        _ => panic!("expected a success"),
    }
}

#[test]
fn independent_block() {
    let block = vec![txn(&[], &[A], &[A]), txn(&[], &[B], &[B]), txn(&[], &[C], &[C]), txn(&[], &[D], &[D])];
    let r = run(block).ok().expect("block succeeds");
    assert_eq!(r.len(), 4);
    let keys = [A, B, C, D];
    for (i, o) in r.iter().enumerate() {
        let out = success(o);
        assert_eq!(out.writes, vec![(keys[i], 1)]);
        assert!(out.seen.is_empty());
    }
}

#[test]
fn strict_chain() {
    let block = vec![txn(&[K], &[K], &[K]), txn(&[K], &[K], &[K]), txn(&[K], &[K], &[K])];
    let r = run(block).ok().expect("block succeeds");
    assert_eq!(r.len(), 3);
    assert_eq!(success(&r[0]).seen, vec![None]);
    assert_eq!(success(&r[1]).seen, vec![Some(1)]);
    assert_eq!(success(&r[2]).seen, vec![Some(2)]);
    assert_eq!(success(&r[2]).writes, vec![(K, 3)]);
}

#[test]
fn over_predicted_writes() {
    let block = vec![txn(&[], &[A], &[A, B]), txn(&[B], &[C], &[C])];
    let r = run(block).ok().expect("block succeeds");
    assert_eq!(r.len(), 2);
    assert_eq!(success(&r[0]).writes, vec![(A, 1)]);
    assert_eq!(success(&r[1]).seen, vec![None]);
    assert_eq!(success(&r[1]).writes, vec![(C, 1)]);
}

#[test]
fn under_predicted_write() {
    let block = vec![txn(&[], &[A, B], &[A]), txn(&[], &[C], &[C])];
    assert!(matches!(run(block), Err(Error::UnestimatedWrite)));
}

#[test]
fn early_termination() {
    let mut block: Vec<Txn> = (0..5).map(|i| txn(&[], &[i], &[i])).collect();
    block[2].end = End::SkipRest;
    let r = run(block).ok().expect("block succeeds");
    assert_eq!(r.len(), 3);
    assert!(matches!(r[0], ExecutionStatus::Success(_)));
    assert!(matches!(r[1], ExecutionStatus::Success(_)));
    assert!(matches!(&r[2], ExecutionStatus::SkipRest(out) if out.writes == vec![(2, 1)]));
}

#[test]
fn user_abort() {
    let mut block: Vec<Txn> = (0..4).map(|i| txn(&[], &[i], &[i])).collect();
    block[1].end = End::Abort(7);
    let r = run(block).ok().expect("block succeeds");
    assert_eq!(r.len(), 2);
    assert!(matches!(r[0], ExecutionStatus::Success(_)));
    assert!(matches!(r[1], ExecutionStatus::Abort(Error::UserError(7))));
}

#[test]
fn abort_of_last_transaction_keeps_full_length() {
    let mut block: Vec<Txn> = (0..3).map(|i| txn(&[], &[i], &[i])).collect();
    block[2].end = End::Abort(1);
    let r = run(block).ok().expect("block succeeds");
    assert_eq!(r.len(), 3);
    assert!(matches!(r[2], ExecutionStatus::Abort(Error::UserError(1))));
}

#[test]
fn empty_block() {
    let r = run(vec![]).ok().expect("empty block succeeds");
    assert!(r.is_empty());
}

#[test]
fn single_transaction() {
    let r = run(vec![txn(&[], &[A], &[A])]).ok().expect("block succeeds");
    assert_eq!(r.len(), 1);
    assert_eq!(success(&r[0]).writes, vec![(A, 1)]);
}

#[test]
fn no_predicted_write_fails() {
    let block = vec![txn(&[A], &[], &[]), txn(&[B], &[], &[])];
    assert!(matches!(run(block), Err(Error::InferencerError)));
}

#[test]
fn inferencer_failure_fails() {
    let mut block = vec![txn(&[], &[A], &[A]), txn(&[], &[B], &[B])];
    block[1].inferable = false;
    assert!(matches!(run(block), Err(Error::InferencerError)));
}

#[test]
fn all_write_one_key() {
    let block: Vec<Txn> = (0..6).map(|_| txn(&[K], &[K], &[K])).collect();
    let r = run(block).ok().expect("block succeeds");
    assert_eq!(r.len(), 6);
    for (i, o) in r.iter().enumerate() {
        assert_eq!(success(o).writes, vec![(K, i as u64 + 1)]);
    }
    let executor = ParallelTransactionExecutor::new(Inferencer);
    assert_eq!(executor.stats_for(6, 6).num_threads, 1);
}

#[test]
fn two_runs_agree() {
    let block = vec![txn(&[K], &[K, A], &[K, A]), txn(&[A], &[K], &[K]), txn(&[K, A], &[B], &[B])];
    let first = run(block.clone()).ok().expect("block succeeds");
    let second = run(block).ok().expect("block succeeds");
    assert_eq!(first.len(), second.len());
    for (x, y) in first.iter().zip(second.iter()) {
        assert_eq!(success(x), success(y));
    }
}

#[test]
fn direct_block_with_accesses() {
    let block = vec![txn(&[], &[A], &[A]), txn(&[A], &[B], &[B])];
    let accesses: Vec<ReadWriteSet> = block
        .iter()
        .map(|t| ReadWriteSet { keys_read: t.predicted_reads.clone(), keys_written: t.predicted_writes.clone() })
        .collect();
    let r = execute_block(&Vm, &block, &accesses).ok().expect("block succeeds");
    assert_eq!(success(&r[1]).seen, vec![Some(1)]);
    assert_eq!(success(&r[1]).writes, vec![(B, 2)]);
}

#[test]
fn executor_sees_at_least_one_cpu() {
    let executor = ParallelTransactionExecutor::new(Inferencer);
    assert!(executor.num_cpus() >= 1);
}

#[test]
fn inference_keeps_block_order() {
    let executor = ParallelTransactionExecutor::new(Inferencer);
    let block = vec![txn(&[A], &[B], &[B, C]), txn(&[], &[D], &[D])];
    let accesses = executor.infer_accesses::<Txn, u32>(&block).ok().expect("inferable");
    assert_eq!(accesses.len(), 2);
    assert_eq!(accesses[0].keys_read, vec![A]);
    assert_eq!(accesses[0].keys_written, vec![B, C]);
    assert_eq!(accesses[1].keys_written, vec![D]);
    let mut bad = block.clone();
    bad[0].inferable = false;
    assert!(matches!(executor.infer_accesses::<Txn, u32>(&bad), Err(Error::InferencerError)));
}
