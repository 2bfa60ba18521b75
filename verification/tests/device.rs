use lib::device::{reduce, Constant, Counting, Permute, Reverse, SetOperation, Transform};
use lib::error::Error;
use lib::op::{Identity, SumU32, UnaryOp};
use lib::output::Zip;
use lib::runtime::ExecutorIds;

#[derive(Clone, Copy)]
struct AddPair;

impl UnaryOp<(u32, u32)> for AddPair {
    type Output = u32;

    fn spec_apply(input: (u32, u32)) -> u32 {
        Self::apply(input)
    }

    fn apply(input: (u32, u32)) -> u32 {
        input.0 + input.1
    }
}

#[test]
fn lazy_inputs_are_read_by_the_consuming_algorithm() {
    let mut ids = ExecutorIds::new();
    let exec = ids.create();
    let column = exec.to_device(&[1_u32, 2, 3]);
    let reversed = lib::device::map(&exec, &Reverse { input: column.slice(0, 3) }, Identity).unwrap();
    assert_eq!(exec.to_host(&reversed), Ok(vec![3, 2, 1]));

    let counting = Counting { start: 5, len: 4 };
    assert_eq!(reduce(&exec, &counting, 0, SumU32), Ok(5 + 6 + 7 + 8));
    let wrapped = lib::device::map(&exec, &Counting { start: u32::MAX - 1, len: 3 }, Identity).unwrap();
    assert_eq!(exec.to_host(&wrapped), Ok(vec![u32::MAX - 1, u32::MAX, 0]));

    let paired = Transform::new(Zip::new(Constant { value: 10_u32, len: 3 }, column), AddPair);
    let sums = lib::device::map(&exec, &paired, Identity).unwrap();
    assert_eq!(exec.to_host(&sums), Ok(vec![11, 12, 13]));
}

#[test]
fn lazy_inputs_keep_the_checks_of_their_columns() {
    let mut ids = ExecutorIds::new();
    let exec = ids.create();
    let short = exec.to_device(&[1_u32, 2]);
    let paired = Zip::new(Constant { value: 0_u32, len: 3 }, short);
    assert!(matches!(reduce(&exec, &Transform::new(paired, AddPair), 0, SumU32), Err(Error::LengthMismatch { left: 3, right: 2 })));

    let other = ids.create();
    let foreign = other.to_device(&[1_u32]);
    assert_eq!(reduce(&exec, &Reverse { input: foreign }, 0, SumU32), Err(Error::ForeignExecutor));
    assert_eq!(reduce(&other, &Constant { value: 4_u32, len: 2 }, 1, SumU32), Ok(9));
}

#[derive(Clone, Copy)]
struct IsOdd;

impl lib::op::PredicateOp<u32> for IsOdd {
    fn spec_apply(input: u32) -> u32 {
        Self::apply(input)
    }

    fn apply(input: u32) -> u32 {
        input % 2
    }
}

#[test]
fn device_sort_and_count_check_their_columns() {
    let mut ids = ExecutorIds::new();
    let exec = ids.create();
    let column = exec.to_device(&[4_u32, 1, 3, 1, 2]);
    let sorted = lib::device::sort(&exec, &column, lib::op::LessU32).unwrap();
    assert_eq!(exec.to_host(&sorted), Ok(vec![1, 1, 2, 3, 4]));
    assert_eq!(lib::device::count_if(&exec, &column.slice(1, 4), IsOdd), Ok(3));

    let other = ids.create();
    assert!(matches!(lib::device::sort(&other, &column, lib::op::LessU32), Err(Error::ForeignExecutor)));
    assert_eq!(lib::device::count_if(&other, &column, IsOdd), Err(Error::ForeignExecutor));
}

#[test]
fn device_copy_where_writes_the_front_of_a_window() {
    let mut ids = ExecutorIds::new();
    let exec = ids.create();
    let input = exec.to_device(&[10_u32, 11, 12, 13]);
    let stencil = exec.to_device(&[1_u32, 0, 7, 0]);
    let mut window = exec.to_device(&[0_u32; 6]).slice_mut(1, 5);
    assert_eq!(lib::device::copy_where(&exec, &input, &stencil, &mut window), Ok(2));
    let mut output = window.into_column();
    assert_eq!(exec.to_host(&output), Ok(vec![0, 10, 12, 0, 0, 0]));

    let short = exec.to_device(&[1_u32, 0]);
    assert_eq!(
        lib::device::copy_where(&exec, &input, &short, &mut output),
        Err(Error::LengthMismatch { left: 4, right: 2 })
    );
    let other = ids.create();
    let mut foreign = other.to_device(&[0_u32; 4]);
    assert_eq!(lib::device::copy_where(&exec, &input, &stencil, &mut foreign), Err(Error::ForeignExecutor));
    assert_eq!(other.to_host(&foreign), Ok(vec![0, 0, 0, 0]));
}

#[test]
fn device_gather_and_scatter_move_rows_through_indices() {
    let mut ids = ExecutorIds::new();
    let exec = ids.create();
    let values = exec.to_device(&[5_u32, 6, 7]);
    let indices = exec.to_device(&[2_u32, 0]);
    let mut output = exec.to_device(&[9_u32; 3]);
    lib::device::gather(&exec, &values, &indices, &mut output).unwrap();
    assert_eq!(exec.to_host(&output), Ok(vec![7, 5, 9]));
    let mut short = exec.to_device(&[0_u32; 1]);
    assert_eq!(
        lib::device::gather(&exec, &values, &indices, &mut short),
        Err(Error::OutputTooShort { input: 2, output: 1 })
    );

    let targets = exec.to_device(&[1_u32, 3, 0]);
    let mut scattered = exec.to_device(&[0_u32; 4]);
    lib::device::scatter(&exec, &values, &targets, &mut scattered).unwrap();
    assert_eq!(exec.to_host(&scattered), Ok(vec![7, 5, 0, 6]));
    assert_eq!(
        lib::device::scatter(&exec, &values, &indices, &mut scattered),
        Err(Error::LengthMismatch { left: 3, right: 2 })
    );
    let other = ids.create();
    assert_eq!(lib::device::gather(&other, &values, &indices, &mut output), Err(Error::ForeignExecutor));
}

#[test]
fn device_merge_is_stable_and_checks_its_output() {
    let mut ids = ExecutorIds::new();
    let exec = ids.create();
    let left = exec.to_device(&[1_u32, 3, 5]);
    let right = exec.to_device(&[2_u32, 3]);
    let mut output = exec.to_device(&[0_u32; 6]);
    lib::device::merge(&exec, &left, &right, lib::op::LessU32, &mut output).unwrap();
    assert_eq!(exec.to_host(&output), Ok(vec![1, 2, 3, 3, 5, 0]));
    let mut short = exec.to_device(&[0_u32; 4]);
    assert_eq!(
        lib::device::merge(&exec, &left, &right, lib::op::LessU32, &mut short),
        Err(Error::OutputTooShort { input: 5, output: 4 })
    );
}

#[test]
fn permute_reads_values_through_indices() {
    let mut ids = ExecutorIds::new();
    let exec = ids.create();
    let contexts = exec.to_device(&[100_u32, 200, 300]);
    let segment_ids = exec.to_device(&[0_u32, 1, 1, 2, 2, 2]);
    let broadcast = Permute::new(contexts.slice(0, 3), segment_ids.slice(0, 6));
    let column = lib::device::map(&exec, &broadcast, Identity).unwrap();
    assert_eq!(exec.to_host(&column), Ok(vec![100, 200, 200, 300, 300, 300]));
    let other = ids.create();
    assert_eq!(reduce(&other, &broadcast, 0, SumU32), Err(Error::ForeignExecutor));
}

#[test]
fn device_partition_and_set_operations_fill_the_output_front() {
    let mut ids = ExecutorIds::new();
    let exec = ids.create();
    let input = exec.to_device(&[1_u32, 2, 3, 4, 5]);
    let mut output = exec.to_device(&[0_u32; 6]);
    assert_eq!(lib::device::partition(&exec, &input, IsOdd, &mut output), Ok(3));
    assert_eq!(exec.to_host(&output), Ok(vec![1, 3, 5, 2, 4, 0]));

    let left = exec.to_device(&[1_u32, 2, 2, 2, 4]);
    let right = exec.to_device(&[2_u32, 2, 3, 4, 4]);
    let mut union = exec.to_device(&[0_u32; 10]);
    let n = lib::device::set_operation(&exec, SetOperation::Union, &left, &right, lib::op::LessU32, &mut union);
    assert_eq!(n, Ok(7));
    assert_eq!(exec.to_host(&union.slice(0, 7)), Ok(vec![1, 2, 2, 2, 3, 4, 4]));
    let mut short = exec.to_device(&[0_u32; 9]);
    assert_eq!(
        lib::device::set_operation(&exec, SetOperation::Union, &left, &right, lib::op::LessU32, &mut short),
        Err(Error::OutputTooShort { input: 10, output: 9 })
    );
    let mut both = exec.to_device(&[0_u32; 5]);
    assert_eq!(
        lib::device::set_operation(&exec, SetOperation::Intersection, &left, &right, lib::op::LessU32, &mut both),
        Ok(3)
    );
    assert_eq!(exec.to_host(&both.slice(0, 3)), Ok(vec![2, 2, 4]));
    let mut only_left = exec.to_device(&[0_u32; 5]);
    assert_eq!(
        lib::device::set_operation(&exec, SetOperation::Difference, &left, &right, lib::op::LessU32, &mut only_left),
        Ok(2)
    );
    assert_eq!(exec.to_host(&only_left.slice(0, 2)), Ok(vec![1, 2]));

    let other = ids.create();
    assert_eq!(lib::device::partition(&other, &input, IsOdd, &mut output), Err(Error::ForeignExecutor));
}

#[test]
fn device_reduce_by_key_reduces_every_run() {
    let mut ids = ExecutorIds::new();
    let exec = ids.create();
    let keys = exec.to_device(&[1_u32, 1, 2, 2, 2, 1]);
    let values = exec.to_device(&[1_u32, 2, 3, 4, 5, 6]);
    let (heads, sums) = lib::device::reduce_by_key(&exec, &keys, &values, lib::op::EqualU32, 10, SumU32).unwrap();
    assert_eq!(exec.to_host(&heads), Ok(vec![1, 2, 1]));
    assert_eq!(exec.to_host(&sums), Ok(vec![13, 22, 16]));
    let short = exec.to_device(&[1_u32]);
    assert!(matches!(
        lib::device::reduce_by_key(&exec, &keys, &short, lib::op::EqualU32, 0, SumU32),
        Err(Error::LengthMismatch { left: 6, right: 1 })
    ));
    let other = ids.create();
    assert!(matches!(
        lib::device::reduce_by_key(&other, &keys, &values, lib::op::EqualU32, 0, SumU32),
        Err(Error::ForeignExecutor)
    ));
}

#[derive(Clone, Copy)]
struct Negate;

impl UnaryOp<u32> for Negate {
    type Output = u32;

    fn spec_apply(input: u32) -> u32 {
        Self::apply(input)
    }

    fn apply(input: u32) -> u32 {
        0_u32.wrapping_sub(input)
    }
}

#[test]
fn device_fill_replace_and_transform_write_windows() {
    let mut ids = ExecutorIds::new();
    let exec = ids.create();
    let mut window = exec.to_device(&[1_u32, 2, 3, 4, 5]).slice_mut(1, 4);
    lib::device::fill(&exec, 7, &mut window).unwrap();
    let column = window.into_column();
    assert_eq!(exec.to_host(&column), Ok(vec![1, 7, 7, 7, 5]));

    let stencil = exec.to_device(&[1_u32, 0, 3, 0, 0]);
    let mut output = column;
    lib::device::replace_where(&exec, 0, &stencil, &mut output).unwrap();
    assert_eq!(exec.to_host(&output), Ok(vec![0, 7, 0, 7, 5]));
    let short = exec.to_device(&[1_u32]);
    assert_eq!(
        lib::device::replace_where(&exec, 0, &short, &mut output),
        Err(Error::LengthMismatch { left: 1, right: 5 })
    );

    let input = exec.to_device(&[1_u32, 2, 3, 4, 5]);
    lib::device::transform_where(&exec, &input, Negate, &stencil, &mut output).unwrap();
    assert_eq!(exec.to_host(&output), Ok(vec![u32::MAX, 7, u32::MAX - 2, 7, 5]));

    let other = ids.create();
    assert_eq!(lib::device::fill(&other, 1, &mut output), Err(Error::ForeignExecutor));
}

#[test]
fn device_remove_where_and_scatter_where_follow_the_stencil() {
    let mut ids = ExecutorIds::new();
    let exec = ids.create();
    let input = exec.to_device(&[10_u32, 11, 12, 13]);
    let stencil = exec.to_device(&[1_u32, 0, 7, 0]);
    let mut output = exec.to_device(&[0_u32; 4]);
    assert_eq!(lib::device::remove_where(&exec, &input, &stencil, &mut output), Ok(2));
    assert_eq!(exec.to_host(&output), Ok(vec![11, 13, 0, 0]));

    let targets = exec.to_device(&[3_u32, 9, 0, 9]);
    lib::device::scatter_where(&exec, &input, &targets, &stencil, &mut output).unwrap();
    assert_eq!(exec.to_host(&output), Ok(vec![12, 13, 0, 10]));
    let short = exec.to_device(&[1_u32]);
    assert_eq!(
        lib::device::scatter_where(&exec, &input, &targets, &short, &mut output),
        Err(Error::LengthMismatch { left: 4, right: 1 })
    );
}

#[test]
fn device_by_key_scans_and_unique_by_key() {
    let mut ids = ExecutorIds::new();
    let exec = ids.create();
    let keys = exec.to_device(&[1_u32, 1, 2, 2, 2, 1]);
    let values = exec.to_device(&[1_u32, 2, 3, 4, 5, 6]);
    let inclusive = lib::device::scan_by_key(&exec, &keys, &values, lib::op::EqualU32, None, SumU32).unwrap();
    assert_eq!(exec.to_host(&inclusive), Ok(vec![1, 3, 3, 7, 12, 6]));
    let exclusive = lib::device::scan_by_key(&exec, &keys, &values, lib::op::EqualU32, Some(10), SumU32).unwrap();
    assert_eq!(exec.to_host(&exclusive), Ok(vec![10, 11, 10, 13, 17, 10]));

    let mut output = exec.to_device(&[0_u32; 6]);
    assert_eq!(lib::device::unique_by_key(&exec, &keys, &values, lib::op::EqualU32, &mut output), Ok(3));
    assert_eq!(exec.to_host(&output), Ok(vec![1, 3, 6, 0, 0, 0]));
    let mut short = exec.to_device(&[0_u32; 5]);
    assert_eq!(
        lib::device::unique_by_key(&exec, &keys, &values, lib::op::EqualU32, &mut short),
        Err(Error::OutputTooShort { input: 6, output: 5 })
    );
    let other = ids.create();
    assert!(matches!(
        lib::device::scan_by_key(&other, &keys, &values, lib::op::EqualU32, None, SumU32),
        Err(Error::ForeignExecutor)
    ));
}

#[test]
fn device_gather_writes_through_a_zipped_window() {
    let mut ids = ExecutorIds::new();
    let exec = ids.create();
    let values = Zip::new(exec.to_device(&[1_u32, 2, 3]), exec.to_device(&[10_u32, 20, 30]));
    let indices = exec.to_device(&[2_u32, 0]);
    let mut output = Zip::new(exec.to_device(&[0_u32; 4]).slice_mut(1, 3), exec.to_device(&[0_u32; 2]));
    lib::device::gather(&exec, &values, &indices, &mut output).unwrap();
    assert_eq!(exec.to_host(&output.0.into_column()), Ok(vec![0, 3, 1, 0]));
    assert_eq!(exec.to_host(&output.1), Ok(vec![30, 10]));
}
