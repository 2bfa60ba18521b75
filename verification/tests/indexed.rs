use lib::error::Error;
use lib::indexed::{gather_into, indexed_copy_selected, scatter, scatter_where};

type Seven = (u32, u32, u32, u32, u32, u32, u32);

fn seven_rows() -> Vec<Seven> {
    (1_u32..=3)
        .map(|i| (i, 10 + i, 20 + i, 30 + i, 40 + i, 50 + i, 60 + i))
        .collect()
}

#[test]
fn gather_seven_columns_uses_independent_index_expression() {
    let values = seven_rows();
    let indices = vec![2_u32, 0];
    let mut output = vec![(0, 0, 0, 0, 0, 0, 0); 2];
    gather_into(&values, &indices, &mut output).unwrap();
    assert_eq!(output, vec![values[2], values[0]]);
    assert_eq!(output[0].0, 3);
    assert_eq!(output[1].6, 61);
}

#[test]
fn gather_accepts_logical_usize_indices() {
    let values = vec![10_u32, 20, 30];
    let indices = vec![2_u32, 0];
    let mut output = vec![0_u32; 2];
    gather_into(&values, &indices, &mut output).unwrap();
    assert_eq!(output, vec![30, 10]);
}

#[test]
fn gather_accepts_lazy_indices_independently() {
    let values = seven_rows();
    let indices: Vec<u32> = vec![2_u32, 0];
    let mut output = vec![(0, 0, 0, 0, 0, 0, 0); 2];
    gather_into(&values, &indices, &mut output).unwrap();
    let first: Vec<u32> = output.iter().map(|row| row.0).collect();
    let last: Vec<u32> = output.iter().map(|row| row.6).collect();
    assert_eq!(first, vec![3, 1]);
    assert_eq!(last, vec![63, 61]);
}

#[test]
fn reverse_counting_remains_a_valid_internal_index() {
    let values = vec![10_u32, 20, 30];
    let indices: Vec<u32> = (0..3).rev().collect();
    let mut output = vec![0_u32; 3];
    gather_into(&values, &indices, &mut output).unwrap();
    assert_eq!(output, vec![30, 20, 10]);
}

#[test]
fn gather_rejects_a_short_output() {
    let values = vec![10_u32, 20, 30];
    let indices = vec![0_u32, 1, 2];
    let mut output = vec![0_u32; 2];
    assert_eq!(
        gather_into(&values, &indices, &mut output),
        Err(Error::OutputTooShort { input: 3, output: 2 })
    );
}

#[test]
fn scatter_accepts_multicolumn_values_and_logical_indices() {
    let values = vec![(1_u32, 10_u32), (2, 20), (3, 30)];
    let indices = vec![2_u32, 0, 3];
    let mut output = vec![(0_u32, 0_u32); 4];
    scatter(&values, &indices, &mut output).unwrap();
    let left: Vec<u32> = output.iter().map(|row| row.0).collect();
    let right: Vec<u32> = output.iter().map(|row| row.1).collect();
    assert_eq!(left, vec![2, 0, 1, 3]);
    assert_eq!(right, vec![20, 0, 10, 30]);
}

#[test]
fn scatter_keeps_value_and_index_expressions_independent() {
    let values = vec![10_u32, 20, 30];
    let indices = vec![2_u32, 0, 1];
    let mut output = vec![99_u32; 3];
    scatter(&values, &indices, &mut output).unwrap();
    assert_eq!(output, vec![20, 30, 10]);
}

#[test]
fn scatter_where_does_not_evaluate_rejected_indices() {
    let values = vec![10_u32, 20, 30];
    let indices = vec![2_u32, u32::MAX, 1];
    let stencil = vec![1_u32, 0, 1];
    let mut output = vec![0_u32; 3];
    scatter_where(&values, &indices, &stencil, &mut output).unwrap();
    assert_eq!(output, vec![0, 30, 10]);
}

#[test]
fn scatter_rejects_mismatched_columns() {
    let values = vec![10_u32, 20];
    let indices = vec![0_u32];
    let mut output = vec![0_u32; 2];
    assert_eq!(
        scatter(&values, &indices, &mut output),
        Err(Error::LengthMismatch { left: 2, right: 1 })
    );
    let stencil = vec![1_u32];
    assert_eq!(
        scatter_where(&values, &vec![0_u32, 1], &stencil, &mut output),
        Err(Error::LengthMismatch { left: 2, right: 1 })
    );
}

#[test]
fn later_scatter_writes_win() {
    let values = vec![1_u32, 2];
    let indices = vec![0_u32, 0];
    let mut output = vec![0_u32; 1];
    scatter(&values, &indices, &mut output).unwrap();
    assert_eq!(output, vec![2]);
}

#[test]
fn indexed_copy_honours_selection_and_active_length() {
    let values = vec![10_u32, 20, 30, 40];
    let indices = vec![3_u32, 2, 1, 0];
    let selection = vec![1_u32, 3];
    let mut output = vec![0_u32; 4];
    indexed_copy_selected(&values, &indices, Some(&selection), Some(1), true, &mut output).unwrap();
    assert_eq!(output, vec![30, 0, 0, 0]);
}

#[test]
fn selected_gather_checks_the_output_against_the_index_count() {
    let values = vec![7_u32];
    let indices = vec![0_u32, 0, 0];
    let selection = vec![0_u32];
    let mut output = vec![0_u32; 2];
    assert_eq!(
        indexed_copy_selected(&values, &indices, Some(&selection), None, true, &mut output),
        Err(Error::OutputTooShort { input: 3, output: 2 })
    );
    assert_eq!(output, vec![0, 0]);
}

#[test]
fn selected_gather_copies_at_most_the_index_count() {
    let values = vec![5_u32, 6, 7];
    let indices = vec![2_u32, 1];
    let selection = vec![1_u32, 0, 1];
    let mut output = vec![0_u32; 3];
    indexed_copy_selected(&values, &indices, Some(&selection), None, true, &mut output).unwrap();
    assert_eq!(output, vec![6, 7, 0]);
}
