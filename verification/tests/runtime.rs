use lib::error::Error;
use lib::runtime::{checked_index_len, AppendColumn, ExecutorIds};

#[test]
fn maximum_mindex_length_is_indexable() {
    assert_eq!(checked_index_len(u32::MAX as usize), Ok(u32::MAX));
}

#[test]
#[should_panic]
fn length_above_mindex_is_rejected_before_allocation() {
    checked_index_len(u32::MAX as usize + 1).expect("device vector length does not fit in MIndex");
}

#[test]
fn length_above_mindex_reports_its_length() {
    assert_eq!(
        checked_index_len(u32::MAX as usize + 1),
        Err(Error::LengthTooLarge { len: u32::MAX as usize + 1 })
    );
}

#[test]
fn transfers_round_trip_on_the_owning_executor() {
    let mut ids = ExecutorIds::new();
    let exec = ids.create();
    let column = exec.to_device(&[1_u32, 2, 3]);
    assert_eq!(column.len(), 3);
    assert!(!column.is_empty());
    assert_eq!(column.owner(), 1);
    assert_eq!(exec.to_host(&column), Ok(vec![1, 2, 3]));
    let other = ids.create();
    assert_eq!(other.to_host(&column), Err(Error::ForeignExecutor));
}

#[test]
fn append_column_builds_flat_tuples() {
    let mut ids = ExecutorIds::new();
    let exec = ids.create();
    let a = exec.to_device(&[1_u32, 2]);
    let b = exec.to_device(&[10_u32, 20]);
    let c = exec.to_device(&[100_u32, 200]);
    let (a, b, c) = a.append_column(b).append_column(c);
    assert_eq!(exec.to_host(&a).unwrap(), vec![1, 2]);
    assert_eq!(exec.to_host(&b).unwrap(), vec![10, 20]);
    assert_eq!(exec.to_host(&c).unwrap(), vec![100, 200]);
}

#[test]
fn slices_download_their_window_and_slice_again() {
    let mut ids = ExecutorIds::new();
    let exec = ids.create();
    let column = exec.to_device(&[10_u32, 20, 30, 40]);
    assert_eq!(exec.to_host(&column), Ok(vec![10, 20, 30, 40]));
    let view = column.slice(1, 3);
    assert_eq!(view.len(), 2);
    assert_eq!(view.owner(), 1);
    assert_eq!(exec.to_host(&view), Ok(vec![20, 30]));
    assert_eq!(exec.to_host(&view.slice(1, 2)), Ok(vec![30]));
    assert_eq!(exec.to_host(&column.slice(4, 4)), Ok(vec![]));

    let other = ids.create();
    assert_eq!(other.to_host(&column), Err(Error::ForeignExecutor));
    assert_eq!(other.to_host(&view), Err(Error::ForeignExecutor));
}

#[test]
fn executors_from_one_source_have_distinct_identities() {
    let mut ids = ExecutorIds::new();
    let first = ids.create();
    let second = ids.create();
    assert_eq!(first.identity(), 1);
    assert_eq!(second.identity(), 2);
    let column = first.to_device(&[1_u32]);
    assert_eq!(second.to_host(&column), Err(Error::ForeignExecutor));
}
