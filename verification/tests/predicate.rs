use lib::op::PredicateOp;
use lib::predicate::{count_if, find_if, is_partitioned};
use lib::MFlag;

type Seven = (u32, u32, u32, u32, u32, u32, u32);

struct MatchTriple;

impl PredicateOp<(u32, u32, u32)> for MatchTriple {
    fn spec_apply(input: (u32, u32, u32)) -> MFlag {
        Self::apply(input)
    }

    fn apply(input: (u32, u32, u32)) -> MFlag {
        lib::flag::from_bool(input.0 + input.1 == input.2)
    }
}

struct IsEven;

impl PredicateOp<u32> for IsEven {
    fn spec_apply(input: u32) -> MFlag {
        Self::apply(input)
    }

    fn apply(input: u32) -> MFlag {
        lib::flag::from_bool(input % 2 == 0)
    }
}

struct LastLeafIsThree;

impl PredicateOp<Seven> for LastLeafIsThree {
    fn spec_apply(input: Seven) -> MFlag {
        Self::apply(input)
    }

    fn apply(input: Seven) -> MFlag {
        lib::flag::from_bool(input.6 == 3)
    }
}

struct Never;

impl PredicateOp<u32> for Never {
    fn spec_apply(input: u32) -> MFlag {
        Self::apply(input)
    }

    fn apply(_input: u32) -> MFlag {
        lib::flag::from_bool(false)
    }
}

fn triples(a: &[u32], b: &[u32], c: &[u32]) -> Vec<(u32, u32, u32)> {
    a.iter().zip(b).zip(c).map(|((&x, &y), &z)| (x, y, z)).collect()
}

#[test]
fn predicate_queries_receive_flat_rows() {
    let input = triples(&[1, 2, 3, 4], &[10, 20, 30, 40], &[11, 0, 33, 0]);
    assert_eq!(count_if(&input, MatchTriple), 2);
    assert_eq!(count_if(&input, MatchTriple), 2);
    assert_eq!(count_if(&input, MatchTriple), 2);
    assert_eq!(count_if(&input, MatchTriple), 2);
    assert_eq!(find_if(&input, MatchTriple), 0);
    assert_eq!(is_partitioned(&input, MatchTriple), 2);
}

#[test]
fn partitioned_accepts_a_two_item_all_passing_range() {
    let input = vec![20_u32, 0];
    assert_eq!(is_partitioned(&input, IsEven), u32::MAX);
}

#[test]
fn predicate_materialization_uses_eval8() {
    let input: Vec<Seven> = (1_u32..=4).map(|v| (v, v, v, v, v, v, v)).collect();
    assert_eq!(count_if(&input, LastLeafIsThree), 1);
}

#[test]
fn find_if_returns_none_without_a_numeric_sentinel() {
    let input = vec![1_u32, 2, 3, 4];
    assert_eq!(find_if(&input, Never), u32::MAX);
}

#[test]
fn find_if_returns_the_first_match() {
    let input = vec![1_u32, 3, 4, 6];
    assert_eq!(find_if(&input, IsEven), 2);
}

#[test]
fn is_partitioned_reports_the_first_violation() {
    let input = vec![2_u32, 1, 4];
    assert_eq!(is_partitioned(&input, IsEven), 2);
    let empty: Vec<u32> = Vec::new();
    assert_eq!(is_partitioned(&empty, IsEven), u32::MAX);
    assert_eq!(count_if(&empty, IsEven), 0);
}

#[test]
fn predicate_positions_count_passing_prefixes() {
    let input = vec![2_u32, 1, 4, 6];
    let positions = lib::predicate::predicate_positions(&input, IsEven);
    assert_eq!(positions, vec![1, 1, 2, 3]);
}
