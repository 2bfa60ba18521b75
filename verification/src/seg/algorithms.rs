//! The segment algorithms: each runs one ordinary algorithm independently on
//! every segment of a segmented input.

use core::marker::PhantomData;

use vstd::prelude::*;

use crate::error::Error;
use crate::op::{BinaryPredicateOp, ExpandOp, PredicateOp, ReductionOp, StrictWeakOrder, UnaryOp};
use crate::runtime::{DeviceVec, Executor};
use crate::sort::{gather_items, merge_sort_order};
use crate::transform::expand_offset;
use crate::{MFlag, MIndex};

use super::each::{
    adjacent_difference_segments, all_flagged, all_of_segments, any_flagged, any_of_segments, count_if_segments,
    counted, differenced, exclusive_scan_segments, exclusive_scanned, inclusive_scan_segments,
    inclusive_scanned, none_flagged, none_of_segments, reduce_segments, reduced, reverse_segments, reversed,
    segment_items,
};
use super::local::{
    adjacent_find_segments, compacted_by, filter_segments, find_if_segments, first_by, flat_map_segments,
    is_sorted_segments, is_sorted_until_segments, sort_segments, take_segments, unique_segments, AdjacentRule,
    BreakRule, FilterRule, TakeRule, UniqueRule,
};
use super::segmentation::{valid_offsets, Segmentation};
use super::SegmentIterator;

verus! {

/// Lifts one ordinary algorithm so it runs independently for every segment.
#[derive(Debug)]
pub struct ForEachSegment<Algorithm>(pub Algorithm);

/// Maps every item; the offsets are kept.
#[derive(Debug)]
pub struct MapItems<Op>(pub Op);

/// Expands every item and rebuilds the offsets for each segment.
#[derive(Debug)]
pub struct FlatMap<Op>(pub Op);

/// Stably sorts the items within every segment; the offsets are kept.
#[derive(Debug)]
pub struct Sort<Less>(pub Less);

/// Reverses the items within every segment; the offsets are kept.
#[derive(Debug)]
pub struct Reverse;

/// Computes an inclusive scan within every segment; the offsets are kept.
#[derive(Debug)]
pub struct InclusiveScan<Op>(pub Op);

/// Computes an exclusive scan within every segment, each starting from `init`;
/// the offsets are kept.
#[derive(Debug)]
pub struct ExclusiveScan<Op, Init>(pub Op, pub Init);

/// Computes adjacent differences within every segment; the offsets are kept.
#[derive(Debug)]
pub struct AdjacentDifference<Op>(pub Op);

/// Keeps the first item of each adjacent-equal run within every segment.
#[derive(Debug)]
pub struct Unique<Equal>(pub Equal);

/// Keeps the items satisfying a predicate within every segment.
#[derive(Debug)]
pub struct Filter<Pred>(pub Pred);

/// Keeps at most the first `n` items of every segment.
#[derive(Debug)]
pub struct Take(pub MIndex);

/// Reduces every segment to one item, starting from `init`.
#[derive(Debug)]
pub struct Reduce<Op, Init>(pub Op, pub Init);

/// Counts the items satisfying a predicate within every segment.
#[derive(Debug)]
pub struct CountIf<Pred>(pub Pred);

/// Finds the first matching local index in every segment; a segment with no
/// match gives its length.
#[derive(Debug)]
pub struct FindIf<Pred>(pub Pred);

/// Finds the first local index whose item equals its successor in every
/// segment; a segment with no adjacent equal pair gives its length.
#[derive(Debug)]
pub struct AdjacentFind<Equal>(pub Equal);

/// Tests whether every item satisfies a predicate within every segment.
#[derive(Debug)]
pub struct AllOf<Pred>(pub Pred);

/// Tests whether any item satisfies a predicate within every segment.
#[derive(Debug)]
pub struct AnyOf<Pred>(pub Pred);

/// Tests whether no item satisfies a predicate within every segment.
#[derive(Debug)]
pub struct NoneOf<Pred>(pub Pred);

/// Tests whether every segment is sorted.
#[derive(Debug)]
pub struct IsSorted<Less>(pub Less);

/// Finds the sorted prefix length of every segment.
#[derive(Debug)]
pub struct IsSortedUntil<Less>(pub Less);

/// A segmented input whose values fill its segmentation exactly.
pub open spec fn input_wf<T>(input: SegmentIterator<DeviceVec<T>, Segmentation>) -> bool {
    &&& input.offsets_view().wf()
    &&& input.values_view().items().len() == input.offsets_view().value_count_view()
}

/// The values or the offsets of the input belong to another executor.
pub open spec fn foreign<T>(exec: Executor, input: SegmentIterator<DeviceVec<T>, Segmentation>) -> bool {
    input.offsets_view().owner_id() != exec.id() || input.values_view().owner_id() != exec.id()
}

/// The input values.
pub open spec fn vals<T>(input: SegmentIterator<DeviceVec<T>, Segmentation>) -> Seq<T> {
    input.values_view().items()
}

/// The input offsets.
pub open spec fn offs<T>(input: SegmentIterator<DeviceVec<T>, Segmentation>) -> Seq<u32> {
    input.offsets_view().offsets_view()
}

/// Rejects an input of another executor, else borrows its host columns.
fn open_input<'a, T>(exec: &Executor, input: &'a SegmentIterator<DeviceVec<T>, Segmentation>) -> (result:
    Result<(&'a Vec<T>, &'a Vec<u32>), Error>)
    requires
        input_wf(*input),
    ensures
        foreign(*exec, *input) ==> result == Err::<(&'a Vec<T>, &'a Vec<u32>), Error>(
            Error::ForeignExecutor,
        ),
        !foreign(*exec, *input) ==> (result matches Ok(parts) && parts.0@ == vals(*input) && parts.1@
            == offs(*input) && super::each::segmented(parts.0@, parts.1@) && parts.0.len() <= u32::MAX),
{
    let offsets = input.offsets().offsets();
    if offsets.owner() != exec.identity() {
        return Err(Error::ForeignExecutor);
    }
    let values = input.values();
    if values.owner() != exec.identity() {
        return Err(Error::ForeignExecutor);
    }
    Ok((values.as_vec(), offsets.as_vec()))
}

/// Runs one algorithm independently for every segment of an input.
pub trait Executable<T>: Sized {
    /// The complete owned result of the algorithm.
    type Output;

    /// Executes this algorithm for every input segment.
    fn run(self, exec: &Executor, input: SegmentIterator<DeviceVec<T>, Segmentation>) -> (result: Result<
        Self::Output,
        Error,
    >)
        requires
            input_wf(input),
        ensures
            foreign(*exec, input) ==> result is Err && result->Err_0 == Error::ForeignExecutor,
    ;
}

impl<T: Copy, Op: UnaryOp<T>> Executable<T> for ForEachSegment<MapItems<Op>> {
    type Output = SegmentIterator<DeviceVec<Op::Output>, Segmentation>;

    fn run(self, exec: &Executor, input: SegmentIterator<DeviceVec<T>, Segmentation>) -> (result: Result<
        SegmentIterator<DeviceVec<Op::Output>, Segmentation>,
        Error,
    >)
        ensures
            foreign(*exec, input) ==> result is Err && result->Err_0 == Error::ForeignExecutor,
            !foreign(*exec, input) ==> (result matches Ok(out) && out.values_view().items() == vals(
                input,
            ).map_values(|x: T| Op::spec_apply(x)) && out.offsets_view() == input.offsets_view()
                && out.values_view().owner_id() == exec.id()),
    {
        let mapped = match open_input(exec, &input) {
            Ok((values, offsets)) => crate::transform::map(values, self.0.0),
            Err(e) => return Err(e),
        };
        let (_, segmentation) = input.into_parts();
        Ok(SegmentIterator::new(exec.adopt(mapped), segmentation))
    }
}

impl<T: Copy, Less: StrictWeakOrder<T>> Executable<T> for ForEachSegment<Sort<Less>> {
    type Output = SegmentIterator<DeviceVec<T>, Segmentation>;

    fn run(self, exec: &Executor, input: SegmentIterator<DeviceVec<T>, Segmentation>) -> (result: Result<
        SegmentIterator<DeviceVec<T>, Segmentation>,
        Error,
    >)
        ensures
            foreign(*exec, input) ==> result is Err && result->Err_0 == Error::ForeignExecutor,
            !foreign(*exec, input) ==> (result matches Ok(out) && out.offsets_view() == input.offsets_view()
                && out.values_view().owner_id() == exec.id() && out.values_view().items().len() == vals(input).len() && forall|k: int|
                0 <= k < offs(input).len() - 1 ==> #[trigger] segment_items(out.values_view().items(), offs(input), k)
                    == gather_items(vals(input), merge_sort_order::<T, Less>(vals(input), offs(input)[k] as int, offs(input)[k + 1] as int))),
    {
        let output = match open_input(exec, &input) {
            Ok((values, offsets)) => sort_segments(values, offsets, self.0.0),
            Err(e) => return Err(e),
        };
        let (_, segmentation) = input.into_parts();
        Ok(SegmentIterator::new(exec.adopt(output), segmentation))
    }
}

impl<T: Copy> Executable<T> for ForEachSegment<Reverse> {
    type Output = SegmentIterator<DeviceVec<T>, Segmentation>;

    fn run(self, exec: &Executor, input: SegmentIterator<DeviceVec<T>, Segmentation>) -> (result: Result<
        SegmentIterator<DeviceVec<T>, Segmentation>,
        Error,
    >)
        ensures
            foreign(*exec, input) ==> result is Err && result->Err_0 == Error::ForeignExecutor,
            !foreign(*exec, input) ==> (result matches Ok(out) && out.offsets_view() == input.offsets_view()
                && out.values_view().owner_id() == exec.id() && reversed(vals(input), offs(input), out.values_view().items())),
    {
        let output = match open_input(exec, &input) {
            Ok((values, offsets)) => reverse_segments(values, offsets),
            Err(e) => return Err(e),
        };
        let (_, segmentation) = input.into_parts();
        Ok(SegmentIterator::new(exec.adopt(output), segmentation))
    }
}

impl<T: Copy, Op: ReductionOp<T>> Executable<T> for ForEachSegment<InclusiveScan<Op>> {
    type Output = SegmentIterator<DeviceVec<T>, Segmentation>;

    fn run(self, exec: &Executor, input: SegmentIterator<DeviceVec<T>, Segmentation>) -> (result: Result<
        SegmentIterator<DeviceVec<T>, Segmentation>,
        Error,
    >)
        ensures
            foreign(*exec, input) ==> result is Err && result->Err_0 == Error::ForeignExecutor,
            !foreign(*exec, input) ==> (result matches Ok(out) && out.offsets_view() == input.offsets_view()
                && out.values_view().owner_id() == exec.id() && inclusive_scanned::<T, Op>(vals(input), offs(input), out.values_view().items())),
    {
        let output = match open_input(exec, &input) {
            Ok((values, offsets)) => inclusive_scan_segments::<T, Op>(values, offsets),
            Err(e) => return Err(e),
        };
        let (_, segmentation) = input.into_parts();
        Ok(SegmentIterator::new(exec.adopt(output), segmentation))
    }
}

impl<T: Copy, Op: ReductionOp<T>> Executable<T> for ForEachSegment<ExclusiveScan<Op, T>> {
    type Output = SegmentIterator<DeviceVec<T>, Segmentation>;

    fn run(self, exec: &Executor, input: SegmentIterator<DeviceVec<T>, Segmentation>) -> (result: Result<
        SegmentIterator<DeviceVec<T>, Segmentation>,
        Error,
    >)
        ensures
            foreign(*exec, input) ==> result is Err && result->Err_0 == Error::ForeignExecutor,
            !foreign(*exec, input) ==> (result matches Ok(out) && out.offsets_view() == input.offsets_view()
                && out.values_view().owner_id() == exec.id() && exclusive_scanned::<T, Op>(vals(input), offs(input), self.0.1, out.values_view().items())),
    {
        let output = match open_input(exec, &input) {
            Ok((values, offsets)) => exclusive_scan_segments::<T, Op>(values, offsets, self.0.1),
            Err(e) => return Err(e),
        };
        let (_, segmentation) = input.into_parts();
        Ok(SegmentIterator::new(exec.adopt(output), segmentation))
    }
}

impl<T: Copy, Op: ReductionOp<T>> Executable<T> for ForEachSegment<AdjacentDifference<Op>> {
    type Output = SegmentIterator<DeviceVec<T>, Segmentation>;

    fn run(self, exec: &Executor, input: SegmentIterator<DeviceVec<T>, Segmentation>) -> (result: Result<
        SegmentIterator<DeviceVec<T>, Segmentation>,
        Error,
    >)
        ensures
            foreign(*exec, input) ==> result is Err && result->Err_0 == Error::ForeignExecutor,
            !foreign(*exec, input) ==> (result matches Ok(out) && out.offsets_view() == input.offsets_view()
                && out.values_view().owner_id() == exec.id() && differenced::<T, Op>(vals(input), offs(input), out.values_view().items())),
    {
        let output = match open_input(exec, &input) {
            Ok((values, offsets)) => adjacent_difference_segments::<T, Op>(values, offsets),
            Err(e) => return Err(e),
        };
        let (_, segmentation) = input.into_parts();
        Ok(SegmentIterator::new(exec.adopt(output), segmentation))
    }
}

impl<T: Copy, Equal: BinaryPredicateOp<T>> Executable<T> for ForEachSegment<Unique<Equal>> {
    type Output = SegmentIterator<DeviceVec<T>, Segmentation>;

    fn run(self, exec: &Executor, input: SegmentIterator<DeviceVec<T>, Segmentation>) -> (result: Result<
        SegmentIterator<DeviceVec<T>, Segmentation>,
        Error,
    >)
        ensures
            foreign(*exec, input) ==> result is Err && result->Err_0 == Error::ForeignExecutor,
            !foreign(*exec, input) ==> (result matches Ok(out) && out.offsets_view().wf()
                && out.offsets_view().owner_id() == exec.id() && out.values_view().owner_id() == exec.id()
                && compacted_by(UniqueRule::<Equal>(PhantomData), vals(input), offs(input), out.values_view().items(), out.offsets_view().offsets_view())),
    {
        let (kept, new_offsets) = match open_input(exec, &input) {
            Ok((values, offsets)) => unique_segments(values, offsets, self.0.0),
            Err(e) => return Err(e),
        };
        let segmentation = Segmentation::from_generated_offsets(exec, new_offsets);
        Ok(SegmentIterator::new(exec.adopt(kept), segmentation))
    }
}

impl<T: Copy, Pred: PredicateOp<T>> Executable<T> for ForEachSegment<Filter<Pred>> {
    type Output = SegmentIterator<DeviceVec<T>, Segmentation>;

    fn run(self, exec: &Executor, input: SegmentIterator<DeviceVec<T>, Segmentation>) -> (result: Result<
        SegmentIterator<DeviceVec<T>, Segmentation>,
        Error,
    >)
        ensures
            foreign(*exec, input) ==> result is Err && result->Err_0 == Error::ForeignExecutor,
            !foreign(*exec, input) ==> (result matches Ok(out) && out.offsets_view().wf()
                && out.offsets_view().owner_id() == exec.id() && out.values_view().owner_id() == exec.id()
                && compacted_by(FilterRule::<Pred>(PhantomData), vals(input), offs(input), out.values_view().items(), out.offsets_view().offsets_view())),
    {
        let (kept, new_offsets) = match open_input(exec, &input) {
            Ok((values, offsets)) => filter_segments(values, offsets, self.0.0),
            Err(e) => return Err(e),
        };
        let segmentation = Segmentation::from_generated_offsets(exec, new_offsets);
        Ok(SegmentIterator::new(exec.adopt(kept), segmentation))
    }
}

impl<T: Copy> Executable<T> for ForEachSegment<Take> {
    type Output = SegmentIterator<DeviceVec<T>, Segmentation>;

    fn run(self, exec: &Executor, input: SegmentIterator<DeviceVec<T>, Segmentation>) -> (result: Result<
        SegmentIterator<DeviceVec<T>, Segmentation>,
        Error,
    >)
        ensures
            foreign(*exec, input) ==> result is Err && result->Err_0 == Error::ForeignExecutor,
            !foreign(*exec, input) ==> (result matches Ok(out) && out.offsets_view().wf()
                && out.offsets_view().owner_id() == exec.id() && out.values_view().owner_id() == exec.id()
                && compacted_by(TakeRule(self.0.0), vals(input), offs(input), out.values_view().items(), out.offsets_view().offsets_view())),
    {
        let (kept, new_offsets) = match open_input(exec, &input) {
            Ok((values, offsets)) => take_segments(values, offsets, self.0.0),
            Err(e) => return Err(e),
        };
        let segmentation = Segmentation::from_generated_offsets(exec, new_offsets);
        Ok(SegmentIterator::new(exec.adopt(kept), segmentation))
    }
}

impl<T: Copy, Op: ReductionOp<T>> Executable<T> for ForEachSegment<Reduce<Op, T>> {
    type Output = DeviceVec<T>;

    fn run(self, exec: &Executor, input: SegmentIterator<DeviceVec<T>, Segmentation>) -> (result: Result<
        DeviceVec<T>,
        Error,
    >)
        ensures
            foreign(*exec, input) ==> result is Err && result->Err_0 == Error::ForeignExecutor,
            !foreign(*exec, input) ==> (result matches Ok(out) && out.owner_id() == exec.id() && reduced::<T, Op>(vals(input), offs(input), self.0.1, out.items())),
    {
        let output = match open_input(exec, &input) {
            Ok((values, offsets)) => reduce_segments::<T, Op>(values, offsets, self.0.1),
            Err(e) => return Err(e),
        };
        Ok(exec.adopt(output))
    }
}

impl<T: Copy, Pred: PredicateOp<T>> Executable<T> for ForEachSegment<CountIf<Pred>> {
    type Output = DeviceVec<u32>;

    fn run(self, exec: &Executor, input: SegmentIterator<DeviceVec<T>, Segmentation>) -> (result: Result<
        DeviceVec<u32>,
        Error,
    >)
        ensures
            foreign(*exec, input) ==> result is Err && result->Err_0 == Error::ForeignExecutor,
            !foreign(*exec, input) ==> (result matches Ok(out) && out.owner_id() == exec.id() && counted::<T, Pred>(vals(input), offs(input), out.items())),
    {
        let output = match open_input(exec, &input) {
            Ok((values, offsets)) => count_if_segments(values, offsets, self.0.0),
            Err(e) => return Err(e),
        };
        Ok(exec.adopt(output))
    }
}

impl<T: Copy, Pred: PredicateOp<T>> Executable<T> for ForEachSegment<AllOf<Pred>> {
    type Output = DeviceVec<MFlag>;

    fn run(self, exec: &Executor, input: SegmentIterator<DeviceVec<T>, Segmentation>) -> (result: Result<
        DeviceVec<MFlag>,
        Error,
    >)
        ensures
            foreign(*exec, input) ==> result is Err && result->Err_0 == Error::ForeignExecutor,
            !foreign(*exec, input) ==> (result matches Ok(out) && out.owner_id() == exec.id() && all_flagged::<T, Pred>(vals(input), offs(input), out.items())),
    {
        let output = match open_input(exec, &input) {
            Ok((values, offsets)) => all_of_segments(values, offsets, self.0.0),
            Err(e) => return Err(e),
        };
        Ok(exec.adopt(output))
    }
}

impl<T: Copy, Pred: PredicateOp<T>> Executable<T> for ForEachSegment<AnyOf<Pred>> {
    type Output = DeviceVec<MFlag>;

    fn run(self, exec: &Executor, input: SegmentIterator<DeviceVec<T>, Segmentation>) -> (result: Result<
        DeviceVec<MFlag>,
        Error,
    >)
        ensures
            foreign(*exec, input) ==> result is Err && result->Err_0 == Error::ForeignExecutor,
            !foreign(*exec, input) ==> (result matches Ok(out) && out.owner_id() == exec.id() && any_flagged::<T, Pred>(vals(input), offs(input), out.items())),
    {
        let output = match open_input(exec, &input) {
            Ok((values, offsets)) => any_of_segments(values, offsets, self.0.0),
            Err(e) => return Err(e),
        };
        Ok(exec.adopt(output))
    }
}

impl<T: Copy, Pred: PredicateOp<T>> Executable<T> for ForEachSegment<NoneOf<Pred>> {
    type Output = DeviceVec<MFlag>;

    fn run(self, exec: &Executor, input: SegmentIterator<DeviceVec<T>, Segmentation>) -> (result: Result<
        DeviceVec<MFlag>,
        Error,
    >)
        ensures
            foreign(*exec, input) ==> result is Err && result->Err_0 == Error::ForeignExecutor,
            !foreign(*exec, input) ==> (result matches Ok(out) && out.owner_id() == exec.id() && none_flagged::<T, Pred>(vals(input), offs(input), out.items())),
    {
        let output = match open_input(exec, &input) {
            Ok((values, offsets)) => none_of_segments(values, offsets, self.0.0),
            Err(e) => return Err(e),
        };
        Ok(exec.adopt(output))
    }
}

impl<T: Copy, Pred: PredicateOp<T>> Executable<T> for ForEachSegment<FindIf<Pred>> {
    type Output = DeviceVec<u32>;

    fn run(self, exec: &Executor, input: SegmentIterator<DeviceVec<T>, Segmentation>) -> (result: Result<
        DeviceVec<u32>,
        Error,
    >)
        ensures
            foreign(*exec, input) ==> result is Err && result->Err_0 == Error::ForeignExecutor,
            !foreign(*exec, input) ==> (result matches Ok(out) && out.owner_id() == exec.id() && out.items().len() == offs(input).len() - 1 && forall|k: int|
                0 <= k < out.items().len() ==> #[trigger] out.items()[k] == first_by(FilterRule::<Pred>(PhantomData), vals(input), offs(input), k)),
    {
        let output = match open_input(exec, &input) {
            Ok((values, offsets)) => find_if_segments(values, offsets, self.0.0),
            Err(e) => return Err(e),
        };
        Ok(exec.adopt(output))
    }
}

impl<T: Copy, Equal: BinaryPredicateOp<T>> Executable<T> for ForEachSegment<AdjacentFind<Equal>> {
    type Output = DeviceVec<u32>;

    fn run(self, exec: &Executor, input: SegmentIterator<DeviceVec<T>, Segmentation>) -> (result: Result<
        DeviceVec<u32>,
        Error,
    >)
        ensures
            foreign(*exec, input) ==> result is Err && result->Err_0 == Error::ForeignExecutor,
            !foreign(*exec, input) ==> (result matches Ok(out) && out.owner_id() == exec.id() && out.items().len() == offs(input).len() - 1 && forall|k: int|
                0 <= k < out.items().len() ==> #[trigger] out.items()[k] == first_by(AdjacentRule::<Equal>(PhantomData), vals(input), offs(input), k)),
    {
        let output = match open_input(exec, &input) {
            Ok((values, offsets)) => adjacent_find_segments(values, offsets, self.0.0),
            Err(e) => return Err(e),
        };
        Ok(exec.adopt(output))
    }
}

impl<T: Copy, Less: BinaryPredicateOp<T>> Executable<T> for ForEachSegment<IsSortedUntil<Less>> {
    type Output = DeviceVec<u32>;

    fn run(self, exec: &Executor, input: SegmentIterator<DeviceVec<T>, Segmentation>) -> (result: Result<
        DeviceVec<u32>,
        Error,
    >)
        ensures
            foreign(*exec, input) ==> result is Err && result->Err_0 == Error::ForeignExecutor,
            !foreign(*exec, input) ==> (result matches Ok(out) && out.owner_id() == exec.id() && out.items().len() == offs(input).len() - 1 && forall|k: int|
                0 <= k < out.items().len() ==> #[trigger] out.items()[k] == first_by(BreakRule::<Less>(PhantomData), vals(input), offs(input), k)),
    {
        let output = match open_input(exec, &input) {
            Ok((values, offsets)) => is_sorted_until_segments(values, offsets, self.0.0),
            Err(e) => return Err(e),
        };
        Ok(exec.adopt(output))
    }
}

impl<T: Copy, Less: BinaryPredicateOp<T>> Executable<T> for ForEachSegment<IsSorted<Less>> {
    type Output = DeviceVec<MFlag>;

    fn run(self, exec: &Executor, input: SegmentIterator<DeviceVec<T>, Segmentation>) -> (result: Result<
        DeviceVec<MFlag>,
        Error,
    >)
        ensures
            foreign(*exec, input) ==> result is Err && result->Err_0 == Error::ForeignExecutor,
            !foreign(*exec, input) ==> (result matches Ok(out) && out.owner_id() == exec.id() && out.items().len() == offs(input).len() - 1 && forall|k: int|
                0 <= k < out.items().len() ==> #[trigger] out.items()[k] == (if forall|i: int|
                    0 < i < segment_items(vals(input), offs(input), k).len() ==> !crate::merge::before::<T, Less>(
                        #[trigger] segment_items(vals(input), offs(input), k)[i],
                        segment_items(vals(input), offs(input), k)[i - 1],
                    ) {
                    1u32
                } else {
                    0u32
                })),
    {
        let output = match open_input(exec, &input) {
            Ok((values, offsets)) => is_sorted_segments(values, offsets, self.0.0),
            Err(e) => return Err(e),
        };
        Ok(exec.adopt(output))
    }
}

/// `out` and `out_offsets` are the per-segment expansion of `values`: the
/// outputs of every item in order, and offset `k` counting the outputs of
/// the items before segment `k`.
pub open spec fn flat_mapped<T, Op: ExpandOp<T>>(
    values: Seq<T>,
    o: Seq<u32>,
    out: Seq<Op::Output>,
    out_offsets: Seq<u32>,
) -> bool {
    &&& out.len() == expand_offset::<T, Op>(values, values.len() as int)
    &&& forall|i: int, j: int|
        #![trigger out[expand_offset::<T, Op>(values, i) + j]]
        0 <= i < values.len() && 0 <= j < Op::spec_count(values[i]) ==> out[expand_offset::<T, Op>(values, i) + j]
            == Op::spec_generate(values[i], j as u32)
    &&& out_offsets.len() == o.len()
    &&& forall|k: int| 0 <= k < o.len() ==> #[trigger] out_offsets[k] == expand_offset::<T, Op>(values, o[k] as int)
}

/// The output length of an expansion overflows `MIndex`.
pub open spec fn expansion_overflows<T, Op: ExpandOp<T>>(values: Seq<T>) -> bool {
    expand_offset::<T, Op>(values, values.len() as int) > u32::MAX
}

impl<T: Copy, Op: ExpandOp<T>> Executable<T> for ForEachSegment<FlatMap<Op>> {
    type Output = SegmentIterator<DeviceVec<Op::Output>, Segmentation>;

    fn run(self, exec: &Executor, input: SegmentIterator<DeviceVec<T>, Segmentation>) -> (result: Result<
        SegmentIterator<DeviceVec<Op::Output>, Segmentation>,
        Error,
    >)
        ensures
            foreign(*exec, input) ==> result is Err && result->Err_0 == Error::ForeignExecutor,
            !foreign(*exec, input) && expansion_overflows::<T, Op>(vals(input)) ==> result is Err
                && result->Err_0 == (Error::LengthTooLarge { len: super::segmentation::overflow_len() }),
            !foreign(*exec, input) && !expansion_overflows::<T, Op>(vals(input)) ==> (result matches Ok(out)
                && out.offsets_view().wf() && flat_mapped::<T, Op>(
                vals(input),
                offs(input),
                out.values_view().items(),
                out.offsets_view().offsets_view(),
            )),
    {
        let (output, new_offsets) = match open_input(exec, &input) {
            Ok((values, offsets)) => match flat_map_segments(values, offsets, self.0.0) {
                Ok(parts) => parts,
                Err(e) => return Err(e),
            },
            Err(e) => return Err(e),
        };
        let segmentation = Segmentation::from_generated_offsets(exec, new_offsets);
        Ok(SegmentIterator::new(exec.adopt(output), segmentation))
    }
}

} // verus!
