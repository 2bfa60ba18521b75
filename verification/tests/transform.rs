use lib::error::Error;
use lib::op::{ExpandOp, ReductionOp, SumU32, UnaryOp};
use lib::runtime::ExecutorIds;
use lib::seg::algorithms::{AdjacentDifference, Executable, FlatMap, ForEachSegment, MapItems};
use lib::seg::segmentation::Segmentation;
use lib::transform::expand;

struct Repeat;

impl ExpandOp<u32> for Repeat {
    type Output = u32;

    fn spec_count(input: u32) -> u32 {
        Self::count(input)
    }

    fn spec_generate(input: u32, local_index: u32) -> u32 {
        Self::generate(input, local_index)
    }

    fn count(input: u32) -> u32 {
        input
    }

    fn generate(input: u32, local_index: u32) -> u32 {
        input * 10 + local_index
    }
}

struct Huge;

impl ExpandOp<u32> for Huge {
    type Output = u32;

    fn spec_count(input: u32) -> u32 {
        Self::count(input)
    }

    fn spec_generate(input: u32, local_index: u32) -> u32 {
        Self::generate(input, local_index)
    }

    fn count(_input: u32) -> u32 {
        u32::MAX
    }

    fn generate(_input: u32, local_index: u32) -> u32 {
        local_index
    }
}

struct Double;

impl UnaryOp<u32> for Double {
    type Output = u32;

    fn spec_apply(input: u32) -> u32 {
        Self::apply(input)
    }

    fn apply(input: u32) -> u32 {
        input * 2
    }
}

struct Difference;

impl ReductionOp<u32> for Difference {
    fn combine(lhs: u32, rhs: u32) -> u32 {
        Self::apply(lhs, rhs)
    }

    fn associative(_a: u32, _b: u32, _c: u32) {}

    fn apply(lhs: u32, rhs: u32) -> u32 {
        rhs.wrapping_sub(lhs)
    }
}

#[test]
fn expand_concatenates_every_item_expansion() {
    let (output, offsets) = expand(&vec![2_u32, 0, 3], Repeat).unwrap();
    assert_eq!(output, vec![20, 21, 30, 31, 32]);
    assert_eq!(offsets, vec![0, 2, 2, 5]);
}

#[test]
fn expand_rejects_an_output_beyond_mindex() {
    assert!(matches!(expand(&vec![1_u32, 2], Huge), Err(Error::LengthTooLarge { .. })));
}

#[test]
fn map_applies_the_operation_to_every_item() {
    assert_eq!(lib::transform::map(&vec![1_u32, 2, 3], Double), vec![2, 4, 6]);
}

#[test]
fn segment_map_and_flat_map_keep_or_rebuild_offsets() {
    let mut ids = ExecutorIds::new();
    let exec = ids.create();
    let seg = Segmentation::from_lengths(&exec, &exec.to_device(&[2_u32, 1])).unwrap();
    let mapped = ForEachSegment(MapItems(Double)).run(&exec, seg.segments(exec.to_device(&[1_u32, 2, 3])).unwrap()).unwrap();
    assert_eq!(exec.to_host(mapped.values()).unwrap(), vec![2, 4, 6]);
    assert_eq!(exec.to_host(mapped.offsets().offsets()).unwrap(), vec![0, 2, 3]);

    let expanded = ForEachSegment(FlatMap(Repeat)).run(&exec, seg.segments(exec.to_device(&[2_u32, 0, 3])).unwrap()).unwrap();
    assert_eq!(exec.to_host(expanded.values()).unwrap(), vec![20, 21, 30, 31, 32]);
    assert_eq!(exec.to_host(expanded.offsets().offsets()).unwrap(), vec![0, 2, 5]);
}

#[test]
fn segment_adjacent_difference_restarts_in_every_segment() {
    let mut ids = ExecutorIds::new();
    let exec = ids.create();
    let seg = Segmentation::from_lengths(&exec, &exec.to_device(&[3_u32, 2])).unwrap();
    let input = seg.segments(exec.to_device(&[1_u32, 4, 9, 10, 15])).unwrap();
    let differences = ForEachSegment(AdjacentDifference(Difference)).run(&exec, input).unwrap();
    assert_eq!(exec.to_host(differences.values()).unwrap(), vec![1, 3, 5, 10, 5]);
    let _ = SumU32;
}
