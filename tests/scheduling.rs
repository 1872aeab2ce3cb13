use parallel_executor::executor::{
    collect_accesses, commit_outcome, finish_attempt, finish_version, park, prime_block,
};
use parallel_executor::mvhashmap::MVHashMap;
use parallel_executor::outcome_array::OutcomeArray;
use parallel_executor::scheduler::{Scheduler, SchedulerTask};
use parallel_executor::task::{Error, ExecutionStatus, InferenceFailure, ReadWriteSet, TransactionOutput};

struct Out(Vec<(u64, u64)>);

impl TransactionOutput<u64> for Out {
    fn get_writes(&self) -> Vec<(u64, u64)> {
        self.0.clone()
    }
}

#[test]
fn versions_come_in_order_then_done() {
    let mut s = Scheduler::new(2);
    assert!(s.next_txn_to_execute() == SchedulerTask::Execute(0));
    assert!(s.next_txn_to_execute() == SchedulerTask::Execute(1));
    assert!(s.next_txn_to_execute() == SchedulerTask::Wait);
    s.finish_execution(1);
    assert!(s.next_txn_to_execute() == SchedulerTask::Wait);
    s.finish_execution(0);
    assert!(s.next_txn_to_execute() == SchedulerTask::Done);
}

#[test]
fn parked_version_is_woken_once() {
    let mut s = Scheduler::new(3);
    assert!(s.next_txn_to_execute() == SchedulerTask::Execute(0));
    assert!(s.next_txn_to_execute() == SchedulerTask::Execute(1));
    assert!(s.add_dependency(1, 0));
    assert!(s.next_txn_to_execute() == SchedulerTask::Execute(2));
    assert!(s.next_txn_to_execute() == SchedulerTask::Wait);
    s.finish_execution(0);
    assert!(s.next_txn_to_execute() == SchedulerTask::Execute(1));
    assert!(s.next_txn_to_execute() == SchedulerTask::Wait);
    s.finish_execution(1);
    s.finish_execution(2);
    assert!(s.next_txn_to_execute() == SchedulerTask::Done);
}

#[test]
fn dependency_on_finished_version_is_refused() {
    let mut s = Scheduler::new(2);
    assert!(s.next_txn_to_execute() == SchedulerTask::Execute(0));
    assert!(s.next_txn_to_execute() == SchedulerTask::Execute(1));
    s.finish_execution(0);
    assert!(!s.add_dependency(1, 0));
    s.add_transaction(1);
    assert!(s.next_txn_to_execute() == SchedulerTask::Execute(1));
}

#[test]
fn park_sends_back_when_producer_done() {
    let mut s = Scheduler::new(2);
    assert!(s.next_txn_to_execute() == SchedulerTask::Execute(0));
    assert!(s.next_txn_to_execute() == SchedulerTask::Execute(1));
    s.finish_execution(0);
    park(&mut s, 1, 0);
    assert!(s.next_txn_to_execute() == SchedulerTask::Execute(1));
}

#[test]
fn stop_version_only_goes_down() {
    let mut s = Scheduler::new(5);
    assert_eq!(s.num_txn_to_execute(), 5);
    s.set_stop_version(3);
    assert_eq!(s.num_txn_to_execute(), 3);
    s.set_stop_version(4);
    assert_eq!(s.num_txn_to_execute(), 3);
    s.set_stop_version(1);
    assert_eq!(s.num_txn_to_execute(), 1);
    assert!(s.next_txn_to_execute() == SchedulerTask::Execute(0));
    assert!(s.next_txn_to_execute() == SchedulerTask::Wait);
    s.finish_execution(0);
    assert!(s.next_txn_to_execute() == SchedulerTask::Done);
}

#[test]
fn woken_version_above_stop_is_dropped() {
    let mut s = Scheduler::new(3);
    assert!(s.next_txn_to_execute() == SchedulerTask::Execute(0));
    assert!(s.next_txn_to_execute() == SchedulerTask::Execute(1));
    assert!(s.next_txn_to_execute() == SchedulerTask::Execute(2));
    assert!(s.add_dependency(2, 0));
    s.set_stop_version(1);
    s.finish_execution(0);
    s.finish_execution(1);
    assert!(s.next_txn_to_execute() == SchedulerTask::Done);
}

#[test]
fn outcomes_with_unestimated_write_fail() {
    let mut o: OutcomeArray<u32, u32> = OutcomeArray::new(3);
    o.set_result(0, ExecutionStatus::Success(1));
    o.set_result(1, ExecutionStatus::Abort(Error::UnestimatedWrite));
    o.set_result(2, ExecutionStatus::Success(3));
    assert!(matches!(o.get_all_results(3), Err(Error::UnestimatedWrite)));
}

#[test]
fn outcomes_come_in_order() {
    let mut o: OutcomeArray<u32, u32> = OutcomeArray::new(3);
    o.set_result(2, ExecutionStatus::Abort(Error::UnestimatedWrite));
    o.set_result(1, ExecutionStatus::SkipRest(2));
    o.set_result(0, ExecutionStatus::Success(1));
    let r = o.get_all_results(2).ok().expect("prefix has no failure");
    assert_eq!(r.len(), 2);
    assert!(matches!(r[0], ExecutionStatus::Success(1)));
    assert!(matches!(r[1], ExecutionStatus::SkipRest(2)));
}

#[test]
fn finish_version_commits_and_stops() {
    let (mut m, _) = MVHashMap::<u64>::new_from(vec![(1, 0), (2, 0), (1, 1)]);
    let mut s = Scheduler::new(2);
    let mut o: OutcomeArray<Out, u32> = OutcomeArray::new(2);
    assert!(s.next_txn_to_execute() == SchedulerTask::Execute(0));
    finish_version(&mut m, &mut s, &mut o, 0, &vec![1, 2], ExecutionStatus::SkipRest(Out(vec![(1, 5)])));
    assert_eq!(s.num_txn_to_execute(), 1);
    assert!(matches!(m.read(&1, 1), Ok(5)));
    assert!(matches!(m.read(&2, 1), Err(None)));
    assert!(s.next_txn_to_execute() == SchedulerTask::Done);
    let r = o.get_all_results(1).ok().expect("no failure");
    assert!(matches!(&r[0], ExecutionStatus::SkipRest(out) if out.0 == vec![(1, 5)]));
}

#[test]
fn finish_version_records_unestimated_write() {
    let (mut m, _) = MVHashMap::<u64>::new_from(vec![(1, 0)]);
    let mut s = Scheduler::new(1);
    let mut o: OutcomeArray<Out, u32> = OutcomeArray::new(1);
    assert!(s.next_txn_to_execute() == SchedulerTask::Execute(0));
    finish_version(&mut m, &mut s, &mut o, 0, &vec![1], ExecutionStatus::Success(Out(vec![(2, 5)])));
    assert_eq!(s.num_txn_to_execute(), 1);
    assert!(matches!(o.get_all_results(1), Err(Error::UnestimatedWrite)));
}

#[test]
fn commit_outcome_detects_unpredicted_write() {
    let (mut m, _) = MVHashMap::<u64>::new_from(vec![(1, 0)]);
    let mut s = Scheduler::new(2);
    let o = commit_outcome(&mut m, &mut s, 0, ExecutionStatus::<u32, u32>::SkipRest(3), vec![(1, 4), (2, 5)]);
    assert!(matches!(o, ExecutionStatus::Abort(Error::UnestimatedWrite)));
    assert_eq!(s.num_txn_to_execute(), 2);
    assert!(matches!(m.read(&1, 1), Ok(4)));
}

#[test]
fn commit_outcome_of_abort_writes_nothing() {
    let (mut m, _) = MVHashMap::<u64>::new_from(vec![(1, 0)]);
    let mut s = Scheduler::new(3);
    let o = commit_outcome(&mut m, &mut s, 1, ExecutionStatus::<u32, u32>::Abort(9), vec![(1, 4)]);
    assert!(matches!(o, ExecutionStatus::Abort(Error::UserError(9))));
    assert_eq!(s.num_txn_to_execute(), 2);
    assert!(matches!(m.read(&1, 1), Err(Some(0))));
}

#[test]
fn commit_outcome_of_success_keeps_stop() {
    let (mut m, _) = MVHashMap::<u64>::new_from(vec![(1, 0), (2, 0)]);
    let mut s = Scheduler::new(3);
    let o = commit_outcome(&mut m, &mut s, 0, ExecutionStatus::<u32, u32>::Success(1), vec![(2, 6)]);
    assert!(matches!(o, ExecutionStatus::Success(1)));
    assert_eq!(s.num_txn_to_execute(), 3);
    assert!(matches!(m.read(&2, 1), Ok(6)));
}

#[test]
fn priming_a_block() {
    let accesses = vec![
        ReadWriteSet { keys_read: vec![], keys_written: vec![1] },
        ReadWriteSet { keys_read: vec![], keys_written: vec![1, 2] },
    ];
    let (m, level) = prime_block::<u64, u32>(&accesses).ok().expect("writes are predicted");
    assert_eq!(level, 2);
    assert!(matches!(m.read(&1, 2), Err(Some(1))));
    let none = vec![ReadWriteSet { keys_read: vec![1], keys_written: vec![] }];
    assert!(matches!(prime_block::<u64, u32>(&none), Err(Error::InferencerError)));
}

#[test]
fn blocked_attempt_is_parked_on_unfinished_writer() {
    let (mut m, _) = MVHashMap::<u64>::new_from(vec![(1, 0), (1, 1)]);
    let mut s = Scheduler::new(2);
    let mut o: OutcomeArray<Out, u32> = OutcomeArray::new(2);
    assert!(s.next_txn_to_execute() == SchedulerTask::Execute(0));
    assert!(s.next_txn_to_execute() == SchedulerTask::Execute(1));
    finish_attempt(&mut m, &mut s, &mut o, 1, &vec![1], ExecutionStatus::Abort(0), Some(0));
    assert!(matches!(m.read(&1, 2), Err(Some(1))));
    assert!(s.next_txn_to_execute() == SchedulerTask::Wait);
    finish_attempt(&mut m, &mut s, &mut o, 0, &vec![1], ExecutionStatus::Success(Out(vec![(1, 3)])), None);
    assert!(s.next_txn_to_execute() == SchedulerTask::Execute(1));
    finish_attempt(&mut m, &mut s, &mut o, 1, &vec![1], ExecutionStatus::Success(Out(vec![(1, 4)])), None);
    assert!(s.next_txn_to_execute() == SchedulerTask::Done);
    assert!(matches!(m.read(&1, 2), Ok(4)));
    let r = o.get_all_results(2).ok().expect("no failure");
    assert_eq!(r.len(), 2);
}

#[test]
fn blocked_attempt_on_finished_writer_is_sent_back() {
    let (mut m, _) = MVHashMap::<u64>::new_from(vec![(1, 0)]);
    let mut s = Scheduler::new(2);
    let mut o: OutcomeArray<Out, u32> = OutcomeArray::new(2);
    assert!(s.next_txn_to_execute() == SchedulerTask::Execute(0));
    assert!(s.next_txn_to_execute() == SchedulerTask::Execute(1));
    finish_attempt(&mut m, &mut s, &mut o, 0, &vec![1], ExecutionStatus::Success(Out(vec![(1, 3)])), None);
    finish_attempt(&mut m, &mut s, &mut o, 1, &vec![], ExecutionStatus::Abort(0), Some(0));
    assert!(s.next_txn_to_execute() == SchedulerTask::Execute(1));
}

#[test]
fn park_on_unfinished_producer_waits() {
    let mut s = Scheduler::new(2);
    assert!(s.next_txn_to_execute() == SchedulerTask::Execute(0));
    assert!(s.next_txn_to_execute() == SchedulerTask::Execute(1));
    park(&mut s, 1, 0);
    assert!(s.next_txn_to_execute() == SchedulerTask::Wait);
    s.finish_execution(0);
    assert!(s.next_txn_to_execute() == SchedulerTask::Execute(1));
}

#[test]
fn one_shared_key_gives_full_dependency_level() {
    let accesses: Vec<ReadWriteSet> = (0..5)
        .map(|i| ReadWriteSet { keys_read: vec![], keys_written: vec![7, 100 + i] })
        .collect();
    let (_, level) = prime_block::<u64, u32>(&accesses).ok().expect("writes are predicted");
    assert_eq!(level, 5);
}

#[test]
fn collected_accesses_keep_order() {
    let results = vec![
        Ok(ReadWriteSet { keys_read: vec![1], keys_written: vec![2] }),
        Ok(ReadWriteSet { keys_read: vec![], keys_written: vec![3, 4] }),
    ];
    let v = collect_accesses::<u32>(results).ok().expect("all inferred");
    assert_eq!(v.len(), 2);
    assert_eq!(v[0].keys_read, vec![1]);
    assert_eq!(v[1].keys_written, vec![3, 4]);
    let failed = vec![Ok(ReadWriteSet { keys_read: vec![], keys_written: vec![1] }), Err(InferenceFailure)];
    assert!(matches!(collect_accesses::<u32>(failed), Err(Error::InferencerError)));
    assert!(collect_accesses::<u32>(vec![]).ok().expect("nothing to infer").is_empty());
}

#[test]
fn all_set_reports_filled_prefix() {
    let mut o: OutcomeArray<u32, u32> = OutcomeArray::new(3);
    assert!(o.all_set(0));
    assert!(!o.all_set(1));
    o.set_result(0, ExecutionStatus::Success(1));
    o.set_result(2, ExecutionStatus::Success(3));
    assert!(o.all_set(1));
    assert!(!o.all_set(3));
    assert!(!o.all_set(4));
}
