use lib::flag::{from_bool, is_set};
use lib::op::PredicateOp;
use lib::predicate::count_if;
use lib::MFlag;

struct RawFlag;

impl PredicateOp<u32> for RawFlag {
    fn spec_apply(input: u32) -> MFlag {
        input
    }

    fn apply(input: u32) -> MFlag {
        input
    }
}

struct Sum;

impl lib::op::ReductionOp<u32> for Sum {
    fn combine(lhs: u32, rhs: u32) -> u32 {
        lhs.wrapping_add(rhs)
    }

    fn associative(_a: u32, _b: u32, _c: u32) {}

    fn apply(lhs: u32, rhs: u32) -> u32 {
        lhs.wrapping_add(rhs)
    }
}

#[test]
fn user_reduction_sums() {
    let input = vec![1_u32, 2, 3];
    assert_eq!(lib::reduce::reduce(&input, 10, Sum), 16);
}

#[test]
fn conversions_use_nonzero_truth_semantics() {
    assert_eq!(from_bool(false), 0);
    assert_eq!(from_bool(true), 1);
    assert!(!is_set(0));
    assert!(is_set(1));
    assert!(is_set(7));
}

#[test]
fn predicate_consumers_normalize_nonzero_flags() {
    let input = vec![7_u32, 0, 3];
    assert_eq!(count_if(&input, RawFlag), 2);
}
