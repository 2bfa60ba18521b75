use lib::by_key::{exclusive_scan_by_key, inclusive_scan_by_key, reduce_by_key, unique_by_key};
use lib::error::Error;
use lib::op::{BinaryPredicateOp, EqualU32, ReductionOp, SumU32};
use lib::MFlag;

type Three = (u32, u32, u32);
type Seven = (u32, u32, u32, u32, u32, u32, u32);

struct EqualThree;

impl BinaryPredicateOp<Three> for EqualThree {
    fn spec_apply(lhs: Three, rhs: Three) -> MFlag {
        Self::apply(lhs, rhs)
    }

    fn apply(lhs: Three, rhs: Three) -> MFlag {
        lib::flag::from_bool(lhs.0 == rhs.0 && lhs.1 == rhs.1 && lhs.2 == rhs.2)
    }
}

struct SumSeven;

impl ReductionOp<Seven> for SumSeven {
    fn combine(lhs: Seven, rhs: Seven) -> Seven {
        Self::apply(lhs, rhs)
    }

    fn associative(_a: Seven, _b: Seven, _c: Seven) {}

    fn apply(lhs: Seven, rhs: Seven) -> Seven {
        (
            lhs.0 + rhs.0,
            lhs.1 + rhs.1,
            lhs.2 + rhs.2,
            lhs.3 + rhs.3,
            lhs.4 + rhs.4,
            lhs.5 + rhs.5,
            lhs.6 + rhs.6,
        )
    }
}

fn seven(value: u32) -> Seven {
    (value, value, value, value, value, value, value)
}

#[test]
fn unique_by_key_separates_three_key_and_seven_value_arities() {
    let keys: Vec<Three> = vec![(1, 10, 100), (1, 10, 100), (1, 11, 100), (2, 10, 200), (2, 10, 200)];
    let values: Vec<Seven> = [10_u32, 11, 12, 20, 21]
        .iter()
        .map(|&v| (v, 100 + v, 200 + v, 300 + v, 400 + v, 500 + v, 600 + v))
        .collect();
    let mut out_values = vec![seven(0); 5];
    let count = unique_by_key(&keys, &values, EqualThree, &mut out_values).unwrap() as usize;
    assert_eq!(count, 3);
    for column in 0..7_u32 {
        let base = column * 100;
        let picked: Vec<u32> = out_values[..3]
            .iter()
            .map(|row| [row.0, row.1, row.2, row.3, row.4, row.5, row.6][column as usize])
            .collect();
        assert_eq!(picked, vec![base + 10, base + 12, base + 20]);
    }
}

#[test]
fn unique_by_key_rejects_key_value_length_mismatch() {
    let keys = vec![1_u32, 1];
    let values = vec![10_u32];
    let mut out_values = vec![0_u32; 2];
    assert!(matches!(
        unique_by_key(&keys, &values, EqualU32, &mut out_values),
        Err(Error::LengthMismatch { left: 2, right: 1 })
    ));
}

#[test]
fn segmented_by_key_algorithms_separate_eval8_keys_from_storage7_values() {
    let len = 600usize;
    let keys: Vec<u32> = (0..len).map(|index| if index < 300 { 1 } else { 2 }).collect();
    let values: Vec<Seven> = vec![(1, 2, 3, 4, 5, 6, 7); len];

    let inclusive = inclusive_scan_by_key(&keys, &values, EqualU32, SumSeven).unwrap();
    assert_eq!((inclusive[299].0, inclusive[300].0, inclusive[599].0), (300, 1, 300));
    assert_eq!((inclusive[299].6, inclusive[300].6, inclusive[599].6), (2100, 7, 2100));

    let init: Seven = (10, 20, 30, 40, 50, 60, 70);
    let exclusive = exclusive_scan_by_key(&keys, &values, EqualU32, init, SumSeven).unwrap();
    assert_eq!(
        (exclusive[0].0, exclusive[1].0, exclusive[300].0, exclusive[301].0),
        (10, 11, 10, 11)
    );

    let (heads, reductions) = reduce_by_key(&keys, &values, EqualU32, init, SumSeven).unwrap();
    assert_eq!(heads.len(), 2);
    assert_eq!(heads, vec![1, 2]);
    assert_eq!((reductions[0].0, reductions[1].0), (310, 310));
    assert_eq!((reductions[0].6, reductions[1].6), (2170, 2170));
}

#[test]
fn by_key_scans_reject_mismatched_columns() {
    let keys = vec![1_u32, 1, 2];
    let values = vec![1_u32, 2];
    assert_eq!(
        inclusive_scan_by_key(&keys, &values, EqualU32, SumU32),
        Err(Error::LengthMismatch { left: 3, right: 2 })
    );
    assert_eq!(
        reduce_by_key(&keys, &values, EqualU32, 0, SumU32),
        Err(Error::LengthMismatch { left: 3, right: 2 })
    );
}

#[test]
fn runs_restart_at_every_key_change() {
    let keys = vec![5_u32, 5, 7, 5];
    let values = vec![1_u32, 2, 3, 4];
    assert_eq!(inclusive_scan_by_key(&keys, &values, EqualU32, SumU32).unwrap(), vec![1, 3, 3, 4]);
    let (heads, sums) = reduce_by_key(&keys, &values, EqualU32, 0, SumU32).unwrap();
    assert_eq!(heads, vec![5, 7, 5]);
    assert_eq!(sums, vec![3, 3, 4]);
}
