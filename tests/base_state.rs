use parallel_executor::dict_db::{DictDB, WriteOp};

#[test]
fn update_applies_writes_in_order() {
    let mut db = DictDB::new();
    assert!(db.is_genesis());
    db.update(vec![
        vec![(1, WriteOp::Value(vec![1, 2])), (2, WriteOp::Value(vec![3]))],
        vec![(1, WriteOp::Deletion), (2, WriteOp::Value(vec![4]))],
    ]);
    assert_eq!(db.get(&1), None);
    assert_eq!(db.get(&2), Some(vec![4]));
    assert_eq!(db.multi_get(&vec![2, 1, 3]), vec![Some(vec![4]), None, None]);
}

#[test]
fn later_output_overrides_earlier() {
    let mut db = DictDB::new();
    db.update(vec![vec![(7, WriteOp::Value(vec![1]))]]);
    db.update(vec![vec![(7, WriteOp::Value(vec![2]))], vec![(8, WriteOp::Deletion)]]);
    assert_eq!(db.get(&7), Some(vec![2]));
    assert_eq!(db.get(&8), None);
    db.boot = false;
    assert!(!db.is_genesis());
}
