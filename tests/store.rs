use parallel_executor::executor::{predicted_writes, worker_count, MVHashMapView};
use parallel_executor::mvhashmap::MVHashMap;
use parallel_executor::task::ReadWriteSet;

#[test]
fn priming_measures_dependency_level() {
    let (_, level) = MVHashMap::<u64>::new_from(vec![(1, 0), (2, 0), (1, 3), (1, 5), (1, 3)]);
    assert_eq!(level, 3);
    let (_, none) = MVHashMap::<u64>::new_from(vec![]);
    assert_eq!(none, 0);
}

#[test]
fn read_sees_latest_earlier_writer() {
    let (mut m, _) = MVHashMap::<u64>::new_from(vec![(1, 0), (1, 2), (1, 4)]);
    assert!(matches!(m.read(&1, 0), Err(None)));
    assert!(matches!(m.read(&1, 1), Err(Some(0))));
    assert!(matches!(m.read(&1, 3), Err(Some(2))));
    assert!(matches!(m.read(&2, 3), Err(None)));
    assert!(m.write(&1, 0, 7).is_ok());
    assert!(matches!(m.read(&1, 1), Ok(7)));
    assert!(matches!(m.read(&1, 2), Ok(7)));
    assert!(matches!(m.read(&1, 3), Err(Some(2))));
    m.skip_if_unset(&1, 2);
    assert!(matches!(m.read(&1, 3), Ok(7)));
    assert!(matches!(m.read(&1, 5), Err(Some(4))));
}

#[test]
fn skipped_cells_leave_no_writer() {
    let (mut m, _) = MVHashMap::<u64>::new_from(vec![(1, 0), (1, 1)]);
    m.skip_if_unset(&1, 0);
    m.skip_if_unset(&1, 1);
    assert!(matches!(m.read(&1, 2), Err(None)));
}

#[test]
fn skip_keeps_a_written_value() {
    let (mut m, _) = MVHashMap::<u64>::new_from(vec![(1, 0)]);
    assert!(m.write(&1, 0, 9).is_ok());
    m.skip_if_unset(&1, 0);
    assert!(matches!(m.read(&1, 1), Ok(9)));
}

#[test]
fn write_without_cell_is_refused() {
    let (mut m, _) = MVHashMap::<u64>::new_from(vec![(1, 0)]);
    assert!(m.write(&1, 1, 5).is_err());
    assert!(m.write(&2, 0, 5).is_err());
    assert!(matches!(m.read(&1, 1), Err(Some(0))));
}

#[test]
fn write_all_stops_at_unexpected_key() {
    let (mut m, _) = MVHashMap::<u64>::new_from(vec![(1, 0), (3, 0)]);
    assert!(!m.write_all(0, vec![(1, 4), (2, 5), (3, 6)]));
    assert!(matches!(m.read(&1, 1), Ok(4)));
    assert!(matches!(m.read(&3, 1), Err(Some(0))));
    assert!(m.write_all(0, vec![(3, 6), (3, 8)]));
    assert!(matches!(m.read(&3, 1), Ok(8)));
}

#[test]
fn view_records_first_blocking_writer() {
    let (mut m, _) = MVHashMap::<u64>::new_from(vec![(1, 0), (2, 1), (3, 0)]);
    assert!(m.write(&3, 0, 30).is_ok());
    let mut view = MVHashMapView::new(&m, 2);
    assert_eq!(view.version(), 2);
    assert!(matches!(view.read(&3), Ok(Some(30))));
    assert!(matches!(view.read(&4), Ok(None)));
    assert!(!view.has_unexpected_read());
    assert!(view.read(&2).is_err());
    assert!(view.read(&1).is_err());
    assert!(view.has_unexpected_read());
    assert_eq!(view.blocking_version(), Some(1));
}

#[test]
fn predicted_pairs_cover_every_write() {
    let accesses = vec![
        ReadWriteSet { keys_read: vec![], keys_written: vec![1, 2] },
        ReadWriteSet { keys_read: vec![1], keys_written: vec![] },
        ReadWriteSet { keys_read: vec![], keys_written: vec![2] },
    ];
    let pairs = predicted_writes(&accesses);
    assert_eq!(pairs, vec![(1, 0), (2, 0), (2, 2)]);
}

#[test]
fn worker_count_formula() {
    assert_eq!(worker_count(1000, 8, 1), 8);
    assert_eq!(worker_count(100, 8, 1), 3);
    assert_eq!(worker_count(100, 8, 50), 2);
    assert_eq!(worker_count(10, 8, 10), 1);
    assert_eq!(worker_count(10, 8, 20), 0);
}
