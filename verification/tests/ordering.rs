use lib::error::Error;
use lib::merge::{merge_apply, merge_control, merge_into};
use lib::op::{BinaryPredicateOp, EqualU32, LessU32, StrictWeakOrder};
use lib::ordering::{adjacent_find, is_sorted, is_sorted_until, max_element, min_element, minmax_element, unique_into};
use lib::set::{set_difference_into, set_intersection_into, set_union_into};
use lib::sort::{sort, sort_control};
use lib::MFlag;

type Seven = (u32, u32, u32, u32, u32, u32, u32);

struct LexicographicLess;

impl BinaryPredicateOp<Seven> for LexicographicLess {
    fn spec_apply(lhs: Seven, rhs: Seven) -> MFlag {
        Self::apply(lhs, rhs)
    }

    fn apply(lhs: Seven, rhs: Seven) -> MFlag {
        lib::flag::from_bool(lhs.0 < rhs.0)
    }
}

impl StrictWeakOrder<Seven> for LexicographicLess {
    fn irreflexive(_a: Seven) {}

    fn transitive(_a: Seven, _b: Seven, _c: Seven) {}

    fn weak(_a: Seven, _b: Seven, _c: Seven) {}
}

struct EqualSeven;

impl BinaryPredicateOp<Seven> for EqualSeven {
    fn spec_apply(lhs: Seven, rhs: Seven) -> MFlag {
        Self::apply(lhs, rhs)
    }

    fn apply(lhs: Seven, rhs: Seven) -> MFlag {
        lib::flag::from_bool(lhs == rhs)
    }
}

struct LessPair;

impl BinaryPredicateOp<(u32, u32)> for LessPair {
    fn spec_apply(lhs: (u32, u32), rhs: (u32, u32)) -> MFlag {
        Self::apply(lhs, rhs)
    }

    fn apply(lhs: (u32, u32), rhs: (u32, u32)) -> MFlag {
        lib::flag::from_bool(lhs.0 < rhs.0)
    }
}

impl StrictWeakOrder<(u32, u32)> for LessPair {
    fn irreflexive(_a: (u32, u32)) {}

    fn transitive(_a: (u32, u32), _b: (u32, u32), _c: (u32, u32)) {}

    fn weak(_a: (u32, u32), _b: (u32, u32), _c: (u32, u32)) {}
}

fn with_zeros(first: &[u32], second: &[u32]) -> Vec<Seven> {
    first.iter().zip(second).map(|(&a, &b)| (a, b, 0, 0, 0, 0, 0)).collect()
}

#[test]
fn merge_is_stable_and_payloads_reuse_one_control() {
    let left = vec![1_u32, 2, 2, 5];
    let right = vec![2_u32, 3, 4];
    let mut output = vec![0_u32; 7];
    merge_into(&left, &right, LessU32, &mut output).unwrap();
    assert_eq!(output, vec![1, 2, 2, 2, 3, 4, 5]);

    let left_values = vec![10_u32, 20, 21, 50];
    let right_values = vec![200_u32, 300, 400];
    let mut out_keys = vec![0_u32; 7];
    let mut out_values = vec![0_u32; 7];
    let control = merge_control(&left, &right, LessU32);
    merge_apply(&left, &right, &control, &mut out_keys).unwrap();
    merge_apply(&left_values, &right_values, &control, &mut out_values).unwrap();
    assert_eq!(out_keys, vec![1, 2, 2, 2, 3, 4, 5]);
    assert_eq!(out_values, vec![10, 20, 21, 200, 300, 400, 50]);

    let pair_left: Vec<(u32, u32)> = left.iter().copied().zip(left_values.iter().copied()).collect();
    let pair_right: Vec<(u32, u32)> = right.iter().copied().zip(right_values.iter().copied()).collect();
    let mut pair_out = vec![(0_u32, 0_u32); 7];
    merge_into(&pair_left, &pair_right, LessPair, &mut pair_out).unwrap();
    assert_eq!(pair_out[3], (2, 200));
}

#[test]
fn merge_crosses_tile_boundaries() {
    let left: Vec<u32> = (0..700).map(|x| 2 * x).collect();
    let right: Vec<u32> = (0..500).map(|x| 3 * x).collect();
    let mut output = vec![0_u32; 1200];
    merge_into(&left, &right, LessU32, &mut output).unwrap();
    let mut expected: Vec<u32> = left.iter().chain(right.iter()).copied().collect();
    expected.sort();
    assert_eq!(output, expected);
    assert_eq!(lib::merge::merge_path::<u32, LessU32>(&left, &right, 0), 0);
    assert_eq!(lib::merge::merge_path::<u32, LessU32>(&left, &right, 1200), 700);
}

#[test]
fn merge_rejects_a_short_output() {
    let left = vec![1_u32, 3];
    let right = vec![2_u32];
    let mut output = vec![9_u32; 2];
    assert_eq!(
        merge_into(&left, &right, LessU32, &mut output),
        Err(Error::OutputTooShort { input: 3, output: 2 })
    );
    assert_eq!(output, vec![9, 9]);
    let control = merge_control(&left, &right, LessU32);
    assert_eq!(control.permutation, vec![0, 2, 1]);
    assert_eq!(
        merge_apply(&left, &right, &control, &mut output),
        Err(Error::OutputTooShort { input: 3, output: 2 })
    );
}

#[test]
fn sorted_queries_dispatch_eval8_with_flat_rows() {
    let input = with_zeros(&[1, 1, 2, 2], &[0, 1, 0, 1]);
    assert_eq!(is_sorted(&input, LexicographicLess), u32::MAX);
    let bad_input = with_zeros(&[1, 2, 1, 3], &[0, 1, 0, 1]);
    assert_eq!(is_sorted_until(&bad_input, LexicographicLess), 2);
}

#[test]
fn sort_normalizes_eval8_into_storage7() {
    let len = 513usize;
    let input: Vec<Seven> = (0..len as u32)
        .map(|row| ((row * 37) % 23, row, row + 2_000, row + 3_000, row + 4_000, row + 5_000, row + 6_000))
        .collect();
    let output = sort(&input, LexicographicLess);
    for index in 1..len {
        assert!(output[index - 1].0 <= output[index].0);
        if output[index - 1].0 == output[index].0 {
            assert!(output[index - 1].1 < output[index].1);
        }
    }
    for row in &output {
        assert_eq!(row.2, row.1 + 2_000);
        assert_eq!(row.6, row.1 + 6_000);
    }
}

#[test]
fn sort_control_is_the_stable_order() {
    let input = vec![3_u32, 1, 2, 1, 3, 0];
    assert_eq!(sort_control(&input, LessU32), vec![5, 1, 3, 2, 0, 4]);
    assert_eq!(sort(&input, LessU32), vec![0, 1, 1, 2, 3, 3]);
    assert!(sort(&Vec::<u32>::new(), LessU32).is_empty());
}

#[test]
fn adjacent_find_and_unique_cover_eval8_control_and_storage7_apply() {
    let input: Vec<Seven> = [1_u32, 1, 2, 2, 3]
        .iter()
        .zip([9_u32, 9, 8, 8, 7])
        .map(|(&a, b)| (a, b, b, b, b, b, b))
        .collect();
    assert_eq!(adjacent_find(&input, EqualSeven), 0);
    let mut output = vec![(0, 0, 0, 0, 0, 0, 0); 5];
    let count = unique_into(&input, EqualSeven, &mut output).unwrap() as usize;
    assert_eq!(count, 3);
    let first: Vec<u32> = output[..count].iter().map(|row| row.0).collect();
    assert_eq!(first, vec![1, 2, 3]);
}

#[test]
fn adjacent_find_without_a_pair_returns_the_sentinel() {
    assert_eq!(adjacent_find(&vec![1_u32, 2, 1], EqualU32), u32::MAX);
    assert_eq!(adjacent_find(&vec![1_u32, 2, 2], EqualU32), 1);
}

#[test]
fn extremum_queries_preserve_oracle_tie_breaking() {
    let input = vec![2_u32, 1, 3, 1, 3];
    assert_eq!(min_element(&input, LessU32), 1);
    assert_eq!(max_element(&input, LessU32), 2);
    assert_eq!(minmax_element(&input, LessU32), (3, 2));
}

#[test]
fn extremum_queries_of_an_empty_input_return_the_sentinel() {
    let input: Vec<u32> = Vec::new();
    assert_eq!(min_element(&input, LessU32), u32::MAX);
    assert_eq!(max_element(&input, LessU32), u32::MAX);
    assert_eq!(minmax_element(&input, LessU32), (u32::MAX, u32::MAX));
}

#[test]
fn ordered_sets_preserve_standard_multiplicity() {
    let left = vec![1_u32, 2, 2, 2, 4];
    let right = vec![2_u32, 2, 3, 4, 4];

    let mut union = vec![0_u32; 10];
    let union_len = set_union_into(&left, &right, LessU32, &mut union).unwrap() as usize;
    assert_eq!(union[..union_len].to_vec(), vec![1, 2, 2, 2, 3, 4, 4]);

    let mut intersection = vec![0_u32; 5];
    let intersection_len = set_intersection_into(&left, &right, LessU32, &mut intersection).unwrap() as usize;
    assert_eq!(intersection[..intersection_len].to_vec(), vec![2, 2, 4]);

    let mut difference = vec![0_u32; 5];
    let difference_len = set_difference_into(&left, &right, LessU32, &mut difference).unwrap() as usize;
    assert_eq!(difference[..difference_len].to_vec(), vec![1, 2]);
}

#[test]
fn set_union_rejects_a_short_output() {
    let left = vec![1_u32, 2];
    let right = vec![3_u32];
    let mut output = vec![0_u32; 2];
    assert_eq!(
        set_union_into(&left, &right, LessU32, &mut output),
        Err(Error::OutputTooShort { input: 3, output: 2 })
    );
    assert_eq!(output, vec![0, 0]);
}

#[test]
fn set_union_needs_room_for_both_inputs() {
    let left = vec![1_u32];
    let right = vec![1_u32];
    let mut output = vec![0_u32; 1];
    assert_eq!(
        set_union_into(&left, &right, LessU32, &mut output),
        Err(Error::OutputTooShort { input: 2, output: 1 })
    );
    let mut output = vec![0_u32; 2];
    assert_eq!(set_union_into(&left, &right, LessU32, &mut output), Ok(1));
    assert_eq!(output, vec![1, 0]);
}

#[test]
fn merge_apply_decodes_by_the_control_capacity() {
    let left = vec![1_u32, 2, 3];
    let right = vec![9_u32];
    let control = lib::merge::MergeControl { permutation: vec![2, 0, 1], left_capacity: 2 };
    let mut output = vec![0_u32; 4];
    merge_apply(&left, &right, &control, &mut output).unwrap();
    assert_eq!(output, vec![9, 1, 2, 0]);
}

#[test]
fn short_outputs_are_rejected_whatever_the_order_of_the_inputs() {
    let left = vec![3_u32, 1];
    let right = vec![2_u32];
    let mut output = vec![0_u32; 2];
    assert_eq!(
        merge_into(&left, &right, LessU32, &mut output),
        Err(Error::OutputTooShort { input: 3, output: 2 })
    );
    assert_eq!(
        set_union_into(&left, &right, LessU32, &mut output),
        Err(Error::OutputTooShort { input: 3, output: 2 })
    );
    let mut one = vec![0_u32; 1];
    assert_eq!(
        set_intersection_into(&left, &right, LessU32, &mut one),
        Err(Error::OutputTooShort { input: 2, output: 1 })
    );
    assert_eq!(
        set_difference_into(&left, &right, LessU32, &mut one),
        Err(Error::OutputTooShort { input: 2, output: 1 })
    );
    assert_eq!(output, vec![0, 0]);
}
