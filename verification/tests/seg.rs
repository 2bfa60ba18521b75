use lib::error::Error;
use lib::op::{EqualU32, LessU32, PredicateOp, SumU32};
use lib::runtime::{Executor, ExecutorIds};
use lib::seg::algorithms::{
    AdjacentFind, AllOf, AnyOf, CountIf, Executable, ExclusiveScan, Filter, FindIf, ForEachSegment, InclusiveScan,
    IsSorted, IsSortedUntil, NoneOf, Reduce, Reverse, Sort, Take, Unique,
};
use lib::seg::segmentation::Segmentation;
use lib::MFlag;

struct IsEven;

impl PredicateOp<u32> for IsEven {
    fn spec_apply(input: u32) -> MFlag {
        Self::apply(input)
    }

    fn apply(input: u32) -> MFlag {
        lib::flag::from_bool(input % 2 == 0)
    }
}

fn host(exec: &Executor, column: &lib::runtime::DeviceVec<u32>) -> Vec<u32> {
    exec.to_host(column).unwrap()
}

#[test]
fn lengths_ids_and_offsets_are_interchangeable() {
    let mut ids = ExecutorIds::new();
    let exec = ids.create();
    let seg = Segmentation::from_lengths(&exec, &exec.to_device(&[1_u32, 2, 3])).unwrap();
    assert_eq!(host(&exec, seg.offsets()), vec![0, 1, 3, 6]);
    assert_eq!(host(&exec, &seg.segment_ids(&exec).unwrap()), vec![0, 1, 1, 2, 2, 2]);
    assert_eq!(host(&exec, &seg.lengths(&exec).unwrap()), vec![1, 2, 3]);
    assert_eq!(seg.segment_count(), 3);
    assert_eq!(seg.value_count(), 6);
}

#[test]
fn segment_ids_with_a_count_encode_empty_segments() {
    let mut ids = ExecutorIds::new();
    let exec = ids.create();
    let seg = Segmentation::from_segment_ids(&exec, &exec.to_device(&[0_u32, 2, 2]), 4).unwrap();
    assert_eq!(host(&exec, &seg.lengths(&exec).unwrap()), vec![1, 0, 2, 0]);
    assert_eq!(host(&exec, seg.offsets()), vec![0, 1, 1, 3, 3]);
}

#[test]
fn local_indices_restart_in_every_segment() {
    let mut ids = ExecutorIds::new();
    let exec = ids.create();
    let seg = Segmentation::from_offsets(&exec, &exec.to_device(&[0_u32, 2, 2, 5])).unwrap();
    assert_eq!(host(&exec, &seg.local_indices(&exec).unwrap()), vec![0, 1, 0, 1, 2]);
}

#[test]
fn invalid_partitions_are_rejected() {
    let mut ids = ExecutorIds::new();
    let exec = ids.create();
    assert!(matches!(
        Segmentation::from_offsets(&exec, &exec.to_device(&[1_u32, 2])),
        Err(Error::InvalidSegmentation)
    ));
    assert!(matches!(
        Segmentation::from_offsets(&exec, &exec.to_device(&[0_u32, 3, 2])),
        Err(Error::InvalidSegmentation)
    ));
    assert!(matches!(
        Segmentation::from_segment_ids(&exec, &exec.to_device(&[1_u32, 0]), 2),
        Err(Error::InvalidSegmentation)
    ));
    let other = ids.create();
    assert!(matches!(
        Segmentation::from_offsets(&exec, &other.to_device(&[0_u32, 1])),
        Err(Error::ForeignExecutor)
    ));
}

#[test]
fn overflowing_lengths_report_the_overflow() {
    let mut ids = ExecutorIds::new();
    let exec = ids.create();
    let result = Segmentation::from_lengths(&exec, &exec.to_device(&[u32::MAX, 1]));
    assert!(matches!(result, Err(Error::LengthTooLarge { len }) if len == u32::MAX as usize + 1));
}

#[test]
fn segments_reject_a_mismatched_value_column() {
    let mut ids = ExecutorIds::new();
    let exec = ids.create();
    let seg = Segmentation::from_lengths(&exec, &exec.to_device(&[1_u32, 2])).unwrap();
    assert!(matches!(
        seg.segments(exec.to_device(&[1_u32, 2])),
        Err(Error::LengthMismatch { left: 2, right: 3 })
    ));
}

fn input(exec: &Executor, values: &[u32], lengths: &[u32]) -> lib::seg::SegmentIterator<lib::runtime::DeviceVec<u32>, Segmentation> {
    let seg = Segmentation::from_lengths(exec, &exec.to_device(lengths)).unwrap();
    seg.segments(exec.to_device(values)).unwrap()
}

#[test]
fn segment_summaries_are_computed_per_segment() {
    let mut ids = ExecutorIds::new();
    let exec = ids.create();
    let values = [4_u32, 1, 2, 2, 3, 8];
    let lengths = [2_u32, 0, 4];
    let reduced = ForEachSegment(Reduce(SumU32, 10_u32)).run(&exec, input(&exec, &values, &lengths)).unwrap();
    assert_eq!(host(&exec, &reduced), vec![15, 10, 25]);
    let counted = ForEachSegment(CountIf(IsEven)).run(&exec, input(&exec, &values, &lengths)).unwrap();
    assert_eq!(host(&exec, &counted), vec![1, 0, 3]);
    let found = ForEachSegment(FindIf(IsEven)).run(&exec, input(&exec, &values, &lengths)).unwrap();
    assert_eq!(host(&exec, &found), vec![0, 0, 0]);
    let adjacent = ForEachSegment(AdjacentFind(EqualU32)).run(&exec, input(&exec, &values, &lengths)).unwrap();
    assert_eq!(host(&exec, &adjacent), vec![2, 0, 0]);
    let all = ForEachSegment(AllOf(IsEven)).run(&exec, input(&exec, &values, &lengths)).unwrap();
    assert_eq!(host(&exec, &all), vec![0, 1, 0]);
    let any = ForEachSegment(AnyOf(IsEven)).run(&exec, input(&exec, &values, &lengths)).unwrap();
    assert_eq!(host(&exec, &any), vec![1, 0, 1]);
    let none = ForEachSegment(NoneOf(IsEven)).run(&exec, input(&exec, &values, &lengths)).unwrap();
    assert_eq!(host(&exec, &none), vec![0, 1, 0]);
    let sorted = ForEachSegment(IsSorted(LessU32)).run(&exec, input(&exec, &values, &lengths)).unwrap();
    assert_eq!(host(&exec, &sorted), vec![0, 1, 1]);
    let until = ForEachSegment(IsSortedUntil(LessU32)).run(&exec, input(&exec, &values, &lengths)).unwrap();
    assert_eq!(host(&exec, &until), vec![1, 0, 4]);
}

#[test]
fn length_preserving_segment_algorithms_keep_offsets() {
    let mut ids = ExecutorIds::new();
    let exec = ids.create();
    let values = [3_u32, 1, 2, 5, 4, 4];
    let lengths = [3_u32, 3];
    let sorted = ForEachSegment(Sort(LessU32)).run(&exec, input(&exec, &values, &lengths)).unwrap();
    assert_eq!(host(&exec, sorted.values()), vec![1, 2, 3, 4, 4, 5]);
    assert_eq!(host(&exec, sorted.offsets().offsets()), vec![0, 3, 6]);
    let reversed = ForEachSegment(Reverse).run(&exec, input(&exec, &values, &lengths)).unwrap();
    assert_eq!(host(&exec, reversed.values()), vec![2, 1, 3, 4, 4, 5]);
    let inclusive = ForEachSegment(InclusiveScan(SumU32)).run(&exec, input(&exec, &values, &lengths)).unwrap();
    assert_eq!(host(&exec, inclusive.values()), vec![3, 4, 6, 5, 9, 13]);
    let exclusive = ForEachSegment(ExclusiveScan(SumU32, 100_u32)).run(&exec, input(&exec, &values, &lengths)).unwrap();
    assert_eq!(host(&exec, exclusive.values()), vec![100, 103, 104, 100, 105, 109]);
}

#[test]
fn compacting_segment_algorithms_rebuild_offsets() {
    let mut ids = ExecutorIds::new();
    let exec = ids.create();
    let values = [1_u32, 1, 2, 4, 4, 5, 6];
    let lengths = [3_u32, 0, 4];
    let unique = ForEachSegment(Unique(EqualU32)).run(&exec, input(&exec, &values, &lengths)).unwrap();
    assert_eq!(host(&exec, unique.values()), vec![1, 2, 4, 5, 6]);
    assert_eq!(host(&exec, unique.offsets().offsets()), vec![0, 2, 2, 5]);
    let filtered = ForEachSegment(Filter(IsEven)).run(&exec, input(&exec, &values, &lengths)).unwrap();
    assert_eq!(host(&exec, filtered.values()), vec![2, 4, 4, 6]);
    assert_eq!(host(&exec, filtered.offsets().offsets()), vec![0, 1, 1, 4]);
    let taken = ForEachSegment(Take(2)).run(&exec, input(&exec, &values, &lengths)).unwrap();
    assert_eq!(host(&exec, taken.values()), vec![1, 1, 4, 4]);
    assert_eq!(host(&exec, taken.offsets().offsets()), vec![0, 2, 2, 4]);
}

#[test]
fn segment_algorithms_reject_foreign_inputs() {
    let mut ids = ExecutorIds::new();
    let exec = ids.create();
    let other = ids.create();
    let result = ForEachSegment(Reduce(SumU32, 0_u32)).run(&other, input(&exec, &[1, 2], &[2]));
    assert!(matches!(result, Err(Error::ForeignExecutor)));
}
