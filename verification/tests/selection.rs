use lib::error::Error;
use lib::op::{PredicateOp, SumU32, UnaryOp};
use lib::selection::{copy_where, fill, partition, remove_where, replace_where, transform_where, SelectionControl};

type Seven = (u32, u32, u32, u32, u32, u32, u32);

struct IsEven;

impl PredicateOp<u32> for IsEven {
    fn spec_apply(input: u32) -> u32 {
        Self::apply(input)
    }

    fn apply(input: u32) -> u32 {
        lib::flag::from_bool(input % 2 == 0)
    }
}

struct IncrementSeven;

impl UnaryOp<Seven> for IncrementSeven {
    type Output = Seven;

    fn spec_apply(input: Seven) -> Seven {
        Self::apply(input)
    }

    fn apply(input: Seven) -> Seven {
        (input.0 + 1, input.1 + 1, input.2 + 1, input.3 + 1, input.4 + 1, input.5 + 1, input.6 + 1)
    }
}

fn seven_rows(len: u32) -> Vec<Seven> {
    (1..=len)
        .map(|i| (i, 10 + i, 20 + i, 30 + i, 40 + i, 50 + i, 60 + i))
        .collect()
}

#[test]
fn copy_where_preserves_flat_three_column_rows() {
    let input = vec![(1_u32, 10_f32, 100_i32), (2, 20.0, 200), (3, 30.0, 300), (4, 40.0, 400)];
    let flags = vec![0_u32, 1, 1, 0];
    let mut output = vec![(0_u32, 0_f32, 0_i32); 4];
    let count = copy_where(&input, &flags, &mut output).unwrap() as usize;
    assert_eq!(count, 2);
    let a: Vec<u32> = output[..count].iter().map(|row| row.0).collect();
    let b: Vec<f32> = output[..count].iter().map(|row| row.1).collect();
    let c: Vec<i32> = output[..count].iter().map(|row| row.2).collect();
    assert_eq!(a, vec![2, 3]);
    assert_eq!(b, vec![20.0, 30.0]);
    assert_eq!(c, vec![200, 300]);
}

#[test]
fn copy_where_on_seven_leaves_dispatches_eval8_after_permute() {
    let input = seven_rows(3);
    let flags = vec![1_u32, 0, 1];
    let mut output = vec![(0, 0, 0, 0, 0, 0, 0); 3];
    let count = copy_where(&input, &flags, &mut output).unwrap();
    assert_eq!(count, 2);
    assert_eq!(output[..2].to_vec(), vec![input[0], input[2]]);
}

#[test]
fn remove_where_inverts_nonzero_stencil() {
    let input = vec![10_u32, 20, 30, 40];
    let flags = vec![0_u32, 1, 0, 1];
    let mut output = vec![0_u32; 4];
    let count = remove_where(&input, &flags, &mut output).unwrap();
    assert_eq!(count, 2);
    assert_eq!(output[..2].to_vec(), vec![10, 30]);
}

#[test]
fn partition_is_stable_on_both_sides() {
    let input = vec![3_u32, 2, 4, 1, 6, 5];
    let mut output = vec![0_u32; 6];
    let split = partition(&input, IsEven, &mut output).unwrap();
    assert_eq!(split, 3);
    assert_eq!(output, vec![2, 4, 6, 3, 1, 5]);
}

#[test]
fn fill_and_replace_where_recurse_over_binary_output_tree() {
    let mut output = vec![(0_u32, 0_f32, 0_i32); 4];
    fill((7_u32, 2.5_f32, -3_i32), &mut output);
    let flags = vec![0_u32, 1, 0, 1];
    replace_where((9_u32, 4.5_f32, -8_i32), &flags, &mut output).unwrap();
    let a: Vec<u32> = output.iter().map(|row| row.0).collect();
    let b: Vec<f32> = output.iter().map(|row| row.1).collect();
    let c: Vec<i32> = output.iter().map(|row| row.2).collect();
    assert_eq!(a, vec![7, 9, 7, 9]);
    assert_eq!(b, vec![2.5, 4.5, 2.5, 4.5]);
    assert_eq!(c, vec![-3, -8, -3, -8]);
}

#[test]
fn transform_where_normalizes_eval8_before_selected_storage7_copy() {
    let input = seven_rows(3);
    let stencil = vec![1_u32, 0, 1];
    let mut output = vec![(100, 100, 100, 100, 100, 100, 100); 3];
    transform_where(&input, IncrementSeven, &stencil, &mut output).unwrap();
    assert_eq!(output[0], IncrementSeven::apply(input[0]));
    assert_eq!(output[1], (100, 100, 100, 100, 100, 100, 100));
    assert_eq!(output[2], IncrementSeven::apply(input[2]));
}

#[test]
fn selection_errors_leave_the_output_unchanged() {
    let input = vec![1_u32, 2, 3];
    let short_flags = vec![1_u32, 1];
    let mut output = vec![0_u32; 3];
    assert_eq!(
        copy_where(&input, &short_flags, &mut output),
        Err(Error::LengthMismatch { left: 3, right: 2 })
    );
    let flags = vec![1_u32, 0, 1];
    let mut short_output = vec![0_u32; 2];
    assert_eq!(
        copy_where(&input, &flags, &mut short_output),
        Err(Error::OutputTooShort { input: 3, output: 2 })
    );
    assert_eq!(short_output, vec![0, 0]);
}

#[test]
fn selection_control_lists_selected_positions() {
    let flags = vec![0_u32, 1, 1, 0, 1];
    let control = SelectionControl::from_flags(&flags);
    assert_eq!(control.count, 3);
    assert_eq!(control.indices[..3].to_vec(), vec![1, 2, 4]);
    let _ = SumU32;
}

#[test]
fn copy_selected_copies_the_chosen_positions() {
    let flags = vec![0_u32, 1, 1, 0, 1];
    let control = lib::selection::SelectionControl::from_flags(&flags);
    assert_eq!(control.count, 3);
    let input = vec![10_u32, 11, 12, 13, 14];
    let mut output = vec![0_u32; 6];
    assert_eq!(lib::selection::copy_selected(&input, &control, &mut output), Ok(3));
    assert_eq!(output, vec![11, 12, 14, 0, 0, 0]);
    let mut short = vec![0_u32; 4];
    assert_eq!(
        lib::selection::copy_selected(&input, &control, &mut short),
        Err(lib::error::Error::OutputTooShort { input: 5, output: 4 })
    );
}
