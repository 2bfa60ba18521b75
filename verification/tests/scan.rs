use lib::error::Error;
use lib::op::{ReductionOp, SumU32, UnaryOp};
use lib::output::Zip;
use lib::runtime::ExecutorIds;
use lib::scan::{adjacent_difference, exclusive_scan, exclusive_scan_into, inclusive_scan, inclusive_scan_into, last_u32};

type Seven = (u32, u32, u32, u32, u32, u32, u32);

struct Sum;

impl ReductionOp<u32> for Sum {
    fn combine(lhs: u32, rhs: u32) -> u32 {
        Self::apply(lhs, rhs)
    }

    fn associative(_a: u32, _b: u32, _c: u32) {}

    fn apply(lhs: u32, rhs: u32) -> u32 {
        lhs.wrapping_add(rhs)
    }
}

struct TakeLeft;

impl ReductionOp<u32> for TakeLeft {
    fn combine(lhs: u32, rhs: u32) -> u32 {
        Self::apply(lhs, rhs)
    }

    fn associative(_a: u32, _b: u32, _c: u32) {}

    fn apply(lhs: u32, _rhs: u32) -> u32 {
        lhs
    }
}

struct SumPair;

impl ReductionOp<(u32, u32)> for SumPair {
    fn combine(lhs: (u32, u32), rhs: (u32, u32)) -> (u32, u32) {
        Self::apply(lhs, rhs)
    }

    fn associative(_a: (u32, u32), _b: (u32, u32), _c: (u32, u32)) {}

    fn apply(lhs: (u32, u32), rhs: (u32, u32)) -> (u32, u32) {
        (lhs.0 + rhs.0, lhs.1 + rhs.1)
    }
}

struct SumSevenItems;

impl ReductionOp<Seven> for SumSevenItems {
    fn combine(lhs: Seven, rhs: Seven) -> Seven {
        Self::apply(lhs, rhs)
    }

    fn associative(_a: Seven, _b: Seven, _c: Seven) {}

    fn apply(lhs: Seven, rhs: Seven) -> Seven {
        (
            lhs.0 + rhs.0,
            lhs.1 + rhs.1,
            lhs.2 + rhs.2,
            lhs.3 + rhs.3,
            lhs.4 + rhs.4,
            lhs.5 + rhs.5,
            lhs.6 + rhs.6,
        )
    }
}

struct SumSeven;

impl UnaryOp<Seven> for SumSeven {
    type Output = u32;

    fn spec_apply(input: Seven) -> u32 {
        Self::apply(input)
    }

    fn apply(input: Seven) -> u32 {
        input.0 + input.1 + input.2 + input.3 + input.4 + input.5 + input.6
    }
}

struct IsTrue;

impl UnaryOp<u32> for IsTrue {
    type Output = u32;

    fn spec_apply(input: u32) -> u32 {
        Self::apply(input)
    }

    fn apply(input: u32) -> u32 {
        lib::flag::from_bool(lib::flag::is_set(input))
    }
}

fn seven_of(value: u32, len: usize) -> Vec<Seven> {
    vec![(value, value, value, value, value, value, value); len]
}

#[test]
fn inclusive_u32_scan_crosses_block_and_recursive_boundaries() {
    let input = vec![1_u32; 70_001];
    let actual = inclusive_scan(&input, SumU32);
    assert_eq!(actual[0], 1);
    assert_eq!(actual[255], 256);
    assert_eq!(actual[256], 257);
    assert_eq!(actual[65_535], 65_536);
    assert_eq!(actual[70_000], 70_001);
    assert_eq!(last_u32(&actual), 70_001);
}

#[test]
fn inclusive_pair_scan_crosses_recursive_block_boundary() {
    let len = 70_001;
    let input = vec![(1_u32, 2_u32); len];
    let actual = inclusive_scan(&input, SumPair);
    for &index in &[0, 255, 256, 65_535, 70_000] {
        assert_eq!(actual[index].0, index as u32 + 1);
        assert_eq!(actual[index].1, 2 * (index as u32 + 1));
    }
}

#[test]
fn inclusive_s7_scan_dispatches_eval8_and_normalizes_output_shape() {
    let input: Vec<Seven> = vec![(1, 2, 3, 4, 5, 6, 7); 600];
    let actual = inclusive_scan(&input, SumSevenItems);
    assert_eq!(actual[599], (600, 1_200, 1_800, 2_400, 3_000, 3_600, 4_200));
}

#[test]
fn inclusive_scalar_scan_dispatches_eval8() {
    let input = lib::transform::map(&seven_of(1, 600), SumSeven);
    let mut output = vec![0_u32; 600];
    inclusive_scan_into(&input, Sum, &mut output).unwrap();
    assert_eq!(output[0], 7);
    assert_eq!(output[255], 7 * 256);
    assert_eq!(output[256], 7 * 257);
    assert_eq!(output[599], 7 * 600);
}

#[test]
fn exclusive_scalar_scan_applies_init_once() {
    let mut ids = ExecutorIds::new();
    let exec = ids.create();
    let input = exec.to_device(&[1_u32, 2, 3, 4]);
    let output = exec.to_device(&[99_u32; 6]);
    let mut window = output.slice_mut(1, 5);
    lib::device::exclusive_scan(&exec, &input, 10, Sum, &mut window).unwrap();
    let output = window.into_column();
    assert_eq!(exec.to_host(&output).unwrap(), vec![99, 10, 11, 13, 16, 99]);
}

#[test]
fn exclusive_scan_crosses_recursive_boundaries_in_operand_order() {
    let len = 70_001usize;
    let input = vec![1_u32; len];
    let actual = exclusive_scan(&input, 10, Sum);
    for &index in &[0, 255, 256, 65_535, 70_000] {
        assert_eq!(actual[index], 10 + index as u32);
    }
    let prefix = input[..600].to_vec();
    let ordered = exclusive_scan(&prefix, 42, TakeLeft);
    assert_eq!(ordered, vec![42; 600]);
}

#[test]
fn adjacent_difference_is_a_regular_fused_read_expression() {
    let input = vec![1_u32, 3, 6, 10];
    assert_eq!(adjacent_difference(&input, Sum), vec![1, 4, 9, 16]);
}

#[test]
fn exclusive_storage7_accepts_eval8_and_preserves_semantic_init() {
    let input: Vec<Seven> = vec![(1, 2, 3, 4, 5, 6, 7); 4];
    let actual = exclusive_scan(&input, (10, 20, 30, 40, 50, 60, 70), SumSevenItems);
    let first: Vec<u32> = actual.iter().map(|row| row.0).collect();
    let last: Vec<u32> = actual.iter().map(|row| row.6).collect();
    assert_eq!(first, vec![10, 11, 12, 13]);
    assert_eq!(last, vec![70, 77, 84, 91]);
}

#[test]
fn scan_rejects_mismatched_output_tree_and_foreign_storage() {
    let mut ids = ExecutorIds::new();
    let exec = ids.create();
    let left = exec.to_device(&[1_u32, 2, 3]);
    let right = exec.to_device(&[4_u32, 5, 6]);
    let mut output = Zip::new(exec.to_device(&[0_u32; 3]), exec.to_device(&[0_u32; 2]));
    assert_eq!(
        lib::device::inclusive_scan(&exec, &Zip::new(left, right), SumPair, &mut output),
        Err(Error::LengthMismatch { left: 3, right: 2 })
    );
    assert_eq!(exec.to_host(&output.0), Ok(vec![0, 0, 0]));
    assert_eq!(exec.to_host(&output.1), Ok(vec![0, 0]));

    let input = exec.to_device(&[1_u32, 2, 3]);
    let other = ids.create();
    let mut foreign_output = other.to_device(&[0_u32; 3]);
    assert_eq!(
        lib::device::inclusive_scan(&exec, &input, Sum, &mut foreign_output),
        Err(Error::ForeignExecutor)
    );
    assert_eq!(other.to_host(&foreign_output), Ok(vec![0, 0, 0]));
}

#[test]
fn device_scans_write_zipped_columns() {
    let mut ids = ExecutorIds::new();
    let exec = ids.create();
    let input = Zip::new(exec.to_device(&[1_u32, 2, 3]), exec.to_device(&[4_u32, 5, 6]));
    let mut output = Zip::new(exec.to_device(&[0_u32; 3]), exec.to_device(&[0_u32; 3]));
    lib::device::inclusive_scan(&exec, &input, SumPair, &mut output).unwrap();
    assert_eq!(exec.to_host(&output.0), Ok(vec![1, 3, 6]));
    assert_eq!(exec.to_host(&output.1), Ok(vec![4, 9, 15]));

    let column = exec.to_device(&[5_u32, 1, 2, 9]);
    let mut scanned = exec.to_device(&[0_u32; 2]);
    lib::device::exclusive_scan(&exec, &column.slice(1, 3), 10, Sum, &mut scanned).unwrap();
    assert_eq!(exec.to_host(&scanned), Ok(vec![10, 11]));
}

#[test]
fn scan_into_rejects_a_mismatched_output() {
    let input = vec![1_u32, 2, 3];
    let mut output = vec![0_u32; 2];
    assert_eq!(
        inclusive_scan_into(&input, Sum, &mut output),
        Err(Error::LengthMismatch { left: 3, right: 2 })
    );
    assert_eq!(output, vec![0, 0]);
    assert_eq!(
        exclusive_scan_into(&input, 0, Sum, &mut output),
        Err(Error::LengthMismatch { left: 3, right: 2 })
    );
}

#[test]
fn fused_stencil_scan_produces_binary_positions() {
    let flags = vec![0_u32, 7, 3, 0];
    let positions = inclusive_scan(&lib::transform::map(&flags, IsTrue), SumU32);
    assert_eq!(positions, vec![0, 1, 2, 2]);
}

#[test]
fn empty_scans_are_empty() {
    let input: Vec<u32> = Vec::new();
    assert!(inclusive_scan(&input, SumU32).is_empty());
    assert!(exclusive_scan(&input, 5, SumU32).is_empty());
    assert_eq!(last_u32(&input), 0);
}

#[test]
fn scans_into_a_window_check_its_length() {
    let mut ids = ExecutorIds::new();
    let exec = ids.create();
    let input = exec.to_device(&[1_u32, 2]);
    let output = exec.to_device(&[7_u32; 4]);
    let mut window = output.slice_mut(1, 4);
    assert_eq!(
        lib::device::inclusive_scan(&exec, &input, Sum, &mut window),
        Err(Error::LengthMismatch { left: 2, right: 3 })
    );
    let mut window = window.into_column().slice_mut(2, 4);
    lib::device::inclusive_scan(&exec, &input, Sum, &mut window).unwrap();
    assert_eq!(exec.to_host(&window.into_column()).unwrap(), vec![7, 7, 1, 3]);
}
