//! Per-segment computations over host columns and valid offsets.

use vstd::prelude::*;

use crate::op::{BinaryPredicateOp, MaxU32, MinU32, PredicateOp, ReductionOp, SumU32, UnaryOp};
use crate::reduce::{fold, lemma_reduce1_push, lemma_reduce1_single, reduce1};
use crate::predicate::{first_set_index, index_or_max, lemma_min_fold_first, lemma_sum_fold_count};
use crate::selection::{count_set, falsity, lemma_selected_take, predicate_flags, selected, truth};
use crate::MFlag;

use super::segmentation::{in_segment, lemma_find_segment, lemma_segment_unique, valid_offsets};

verus! {

/// The items of segment `k`.
pub open spec fn segment_items<T>(s: Seq<T>, o: Seq<u32>, k: int) -> Seq<T> {
    s.subrange(o[k] as int, o[k + 1] as int)
}

/// Values and offsets that fit together: the offsets are valid and the last
/// offset is the number of values.
pub open spec fn segmented<T>(s: Seq<T>, o: Seq<u32>) -> bool {
    &&& valid_offsets(o)
    &&& s.len() == o.last()
}

/// `out` holds, for every segment, `init ⊕ segment[0] ⊕ … ⊕ segment[last]`.
pub open spec fn reduced<T, Op: ReductionOp<T>>(values: Seq<T>, o: Seq<u32>, init: T, out: Seq<T>) -> bool {
    &&& out.len() == o.len() - 1
    &&& forall|k: int| 0 <= k < out.len() ==> #[trigger] out[k] == fold::<T, Op>(init, segment_items(values, o, k))
}

/// `out` is the inclusive scan of every segment.
pub open spec fn inclusive_scanned<T, Op: ReductionOp<T>>(values: Seq<T>, o: Seq<u32>, out: Seq<T>) -> bool {
    &&& out.len() == values.len()
    &&& forall|i: int, k: int|
        #![trigger out[i], in_segment(o, k, i)]
        0 <= i < values.len() && in_segment(o, k, i) ==> out[i] == reduce1::<T, Op>(values.subrange(o[k] as int, i + 1))
}

/// `out` is the exclusive scan of every segment, each starting from `init`.
pub open spec fn exclusive_scanned<T, Op: ReductionOp<T>>(values: Seq<T>, o: Seq<u32>, init: T, out: Seq<T>) -> bool {
    &&& out.len() == values.len()
    &&& forall|i: int, k: int|
        #![trigger out[i], in_segment(o, k, i)]
        0 <= i < values.len() && in_segment(o, k, i) ==> out[i] == fold::<T, Op>(init, values.subrange(o[k] as int, i))
}

/// `out` reverses every segment.
pub open spec fn reversed<T>(values: Seq<T>, o: Seq<u32>, out: Seq<T>) -> bool {
    &&& out.len() == values.len()
    &&& forall|i: int, k: int|
        #![trigger out[i], in_segment(o, k, i)]
        0 <= i < values.len() && in_segment(o, k, i) ==> out[i] == values[o[k] + o[k + 1] - 1 - i]
}

/// `out` holds the adjacent differences of every segment: a segment's first
/// item is kept, each later item is combined with its predecessor.
pub open spec fn differenced<T, Op: ReductionOp<T>>(values: Seq<T>, o: Seq<u32>, out: Seq<T>) -> bool {
    &&& out.len() == values.len()
    &&& forall|i: int, k: int|
        #![trigger out[i], in_segment(o, k, i)]
        0 <= i < values.len() && in_segment(o, k, i) ==> out[i] == if i == o[k] {
            values[i]
        } else {
            Op::combine(values[i - 1], values[i])
        }
}

/// `out` counts, for every segment, the items satisfying `Pred`.
pub open spec fn counted<T, Pred: PredicateOp<T>>(values: Seq<T>, o: Seq<u32>, out: Seq<u32>) -> bool {
    &&& out.len() == o.len() - 1
    &&& forall|k: int|
        0 <= k < out.len() ==> #[trigger] out[k] == count_set(predicate_flags::<T, Pred>(segment_items(values, o, k)))
}

/// `out` flags, for every segment, whether all its items satisfy `Pred`.
pub open spec fn all_flagged<T, Pred: PredicateOp<T>>(values: Seq<T>, o: Seq<u32>, out: Seq<MFlag>) -> bool {
    &&& out.len() == o.len() - 1
    &&& forall|k: int|
        0 <= k < out.len() ==> #[trigger] out[k] == if forall|j: int|
            0 <= j < segment_items(values, o, k).len() ==> #[trigger] Pred::spec_apply(segment_items(values, o, k)[j]) != 0 {
            1u32
        } else {
            0u32
        }
}

/// `out` flags, for every segment, whether some item satisfies `Pred`.
pub open spec fn any_flagged<T, Pred: PredicateOp<T>>(values: Seq<T>, o: Seq<u32>, out: Seq<MFlag>) -> bool {
    &&& out.len() == o.len() - 1
    &&& forall|k: int|
        0 <= k < out.len() ==> #[trigger] out[k] == if exists|j: int|
            0 <= j < segment_items(values, o, k).len() && #[trigger] Pred::spec_apply(segment_items(values, o, k)[j]) != 0 {
            1u32
        } else {
            0u32
        }
}

/// `out` flags, for every segment, whether no item satisfies `Pred`.
pub open spec fn none_flagged<T, Pred: PredicateOp<T>>(values: Seq<T>, o: Seq<u32>, out: Seq<MFlag>) -> bool {
    &&& out.len() == o.len() - 1
    &&& forall|k: int|
        0 <= k < out.len() ==> #[trigger] out[k] == if forall|j: int|
            0 <= j < segment_items(values, o, k).len() ==> #[trigger] Pred::spec_apply(segment_items(values, o, k)[j]) == 0 {
            1u32
        } else {
            0u32
        }
}

/// Reduces every segment to one item, starting from `init`: item `k` is
/// `init ⊕ segment_k[0] ⊕ … ⊕ segment_k[last]`, and an empty segment gives `init`.
pub fn reduce_segments<T: Copy, Op: ReductionOp<T>>(values: &Vec<T>, offsets: &Vec<u32>, init: T) -> (output:
    Vec<T>)
    requires
        segmented(values@, offsets@),
    ensures
        output.len() == offsets.len() - 1,
        forall|k: int|
            0 <= k < output.len() ==> #[trigger] output@[k] == fold::<T, Op>(
                init,
                segment_items(values@, offsets@, k),
            ),
{
    let count = offsets.len() - 1;
    let mut output: Vec<T> = Vec::new();
    let mut k: usize = 0;
    while k < count
        invariant
            segmented(values@, offsets@),
            count == offsets.len() - 1,
            k <= count,
            output.len() == k,
            forall|j: int|
                0 <= j < k ==> #[trigger] output@[j] == fold::<T, Op>(
                    init,
                    segment_items(values@, offsets@, j),
                ),
        decreases count - k,
    {
        let start = offsets[k] as usize;
        let end = offsets[k + 1] as usize;
        proof {
            assert(offsets@[k as int] <= offsets@[k + 1]);
            assert(offsets@[k + 1] <= offsets@.last());
            assert(values@.subrange(start as int, start as int) =~= Seq::<T>::empty());
        }
        let mut acc = init;
        let mut i = start;
        while i < end
            invariant
                start <= i <= end <= values.len(),
                acc == fold::<T, Op>(init, values@.subrange(start as int, i as int)),
            decreases end - i,
        {
            proof {
                assert(values@.subrange(start as int, i + 1).drop_last() =~= values@.subrange(
                    start as int,
                    i as int,
                ));
            }
            acc = Op::apply(acc, values[i]);
            i = i + 1;
        }
        output.push(acc);
        k = k + 1;
    }
    output
}

/// Inclusive scan within every segment: item `i` of segment `k` is
/// `values[offsets[k]] ⊕ … ⊕ values[i]`.
pub fn inclusive_scan_segments<T: Copy, Op: ReductionOp<T>>(values: &Vec<T>, offsets: &Vec<u32>) -> (output:
    Vec<T>)
    requires
        segmented(values@, offsets@),
    ensures
        output.len() == values.len(),
        forall|i: int, k: int|
            #![trigger output@[i], in_segment(offsets@, k, i)]
            0 <= i < values.len() && in_segment(offsets@, k, i) ==> output@[i] == reduce1::<T, Op>(
                values@.subrange(offsets@[k] as int, i + 1),
            ),
{
    let count = offsets.len() - 1;
    let mut output: Vec<T> = Vec::new();
    let mut k: usize = 0;
    while k < count
        invariant
            segmented(values@, offsets@),
            count == offsets.len() - 1,
            k <= count,
            output.len() == offsets@[k as int],
            forall|i: int, j: int|
                #![trigger output@[i], in_segment(offsets@, j, i)]
                0 <= i < output.len() && in_segment(offsets@, j, i) ==> output@[i]
                    == reduce1::<T, Op>(values@.subrange(offsets@[j] as int, i + 1)),
        decreases count - k,
    {
        let start = offsets[k] as usize;
        let end = offsets[k + 1] as usize;
        proof {
            assert(offsets@[k as int] <= offsets@[k + 1]);
            assert(offsets@[k + 1] <= offsets@.last());
        }
        let mut i = start;
        while i < end
            invariant
                segmented(values@, offsets@),
                k < count,
                count == offsets.len() - 1,
                start == offsets@[k as int],
                end == offsets@[k + 1],
                start <= i <= end <= values.len(),
                output.len() == i,
                forall|a: int, j: int|
                    #![trigger output@[a], in_segment(offsets@, j, a)]
                    0 <= a < output.len() && in_segment(offsets@, j, a) ==> output@[a]
                        == reduce1::<T, Op>(values@.subrange(offsets@[j] as int, a + 1)),
            decreases end - i,
        {
            let value = if i == start {
                values[i]
            } else {
                Op::apply(output[i - 1], values[i])
            };
            proof {
                let part = values@.subrange(start as int, i + 1);
                if i == start {
                    assert(part =~= seq![values@[i as int]]);
                    lemma_reduce1_single::<T, Op>(values@[i as int]);
                } else {
                    assert(in_segment(offsets@, k as int, i - 1));
                    assert(part =~= values@.subrange(start as int, i as int).push(values@[i as int]));
                    lemma_reduce1_push::<T, Op>(
                        values@.subrange(start as int, i as int),
                        values@[i as int],
                    );
                }
                assert forall|j: int| #[trigger] in_segment(offsets@, j, i as int) implies j == k by {
                    lemma_segment_unique(offsets@, i as int, j, k as int);
                }
            }
            output.push(value);
            i = i + 1;
        }
        k = k + 1;
    }
    output
}

/// Exclusive scan within every segment, each segment starting from `init`:
/// item `i` of segment `k` is `init ⊕ values[offsets[k]] ⊕ … ⊕ values[i - 1]`.
pub fn exclusive_scan_segments<T: Copy, Op: ReductionOp<T>>(
    values: &Vec<T>,
    offsets: &Vec<u32>,
    init: T,
) -> (output: Vec<T>)
    requires
        segmented(values@, offsets@),
    ensures
        output.len() == values.len(),
        forall|i: int, k: int|
            #![trigger output@[i], in_segment(offsets@, k, i)]
            0 <= i < values.len() && in_segment(offsets@, k, i) ==> output@[i] == fold::<T, Op>(
                init,
                values@.subrange(offsets@[k] as int, i),
            ),
{
    let count = offsets.len() - 1;
    let mut output: Vec<T> = Vec::new();
    let mut k: usize = 0;
    while k < count
        invariant
            segmented(values@, offsets@),
            count == offsets.len() - 1,
            k <= count,
            output.len() == offsets@[k as int],
            forall|i: int, j: int|
                #![trigger output@[i], in_segment(offsets@, j, i)]
                0 <= i < output.len() && in_segment(offsets@, j, i) ==> output@[i] == fold::<
                    T,
                    Op,
                >(init, values@.subrange(offsets@[j] as int, i)),
        decreases count - k,
    {
        let start = offsets[k] as usize;
        let end = offsets[k + 1] as usize;
        proof {
            assert(offsets@[k as int] <= offsets@[k + 1]);
            assert(offsets@[k + 1] <= offsets@.last());
        }
        let mut acc = init;
        let mut i = start;
        proof {
            assert(values@.subrange(start as int, start as int) =~= Seq::<T>::empty());
        }
        while i < end
            invariant
                segmented(values@, offsets@),
                k < count,
                count == offsets.len() - 1,
                start == offsets@[k as int],
                end == offsets@[k + 1],
                start <= i <= end <= values.len(),
                output.len() == i,
                acc == fold::<T, Op>(init, values@.subrange(start as int, i as int)),
                forall|a: int, j: int|
                    #![trigger output@[a], in_segment(offsets@, j, a)]
                    0 <= a < output.len() && in_segment(offsets@, j, a) ==> output@[a] == fold::<
                        T,
                        Op,
                    >(init, values@.subrange(offsets@[j] as int, a)),
            decreases end - i,
        {
            proof {
                assert forall|j: int| #[trigger] in_segment(offsets@, j, i as int) implies j == k by {
                    lemma_segment_unique(offsets@, i as int, j, k as int);
                }
                assert(values@.subrange(start as int, i + 1).drop_last() =~= values@.subrange(
                    start as int,
                    i as int,
                ));
            }
            output.push(acc);
            acc = Op::apply(acc, values[i]);
            i = i + 1;
        }
        k = k + 1;
    }
    output
}

/// Reverses the items within every segment: item `i` of segment `k` is
/// `values[offsets[k] + offsets[k + 1] - 1 - i]`.
pub fn reverse_segments<T: Copy>(values: &Vec<T>, offsets: &Vec<u32>) -> (output: Vec<T>)
    requires
        segmented(values@, offsets@),
    ensures
        output.len() == values.len(),
        forall|i: int, k: int|
            #![trigger output@[i], in_segment(offsets@, k, i)]
            0 <= i < values.len() && in_segment(offsets@, k, i) ==> output@[i] == values@[offsets@[k]
                + offsets@[k + 1] - 1 - i],
{
    let count = offsets.len() - 1;
    let mut output: Vec<T> = Vec::new();
    let mut k: usize = 0;
    while k < count
        invariant
            segmented(values@, offsets@),
            count == offsets.len() - 1,
            k <= count,
            output.len() == offsets@[k as int],
            forall|i: int, j: int|
                #![trigger output@[i], in_segment(offsets@, j, i)]
                0 <= i < output.len() && in_segment(offsets@, j, i) ==> output@[i]
                    == values@[offsets@[j] + offsets@[j + 1] - 1 - i],
        decreases count - k,
    {
        let start = offsets[k] as usize;
        let end = offsets[k + 1] as usize;
        proof {
            assert(offsets@[k as int] <= offsets@[k + 1]);
            assert(offsets@[k + 1] <= offsets@.last());
        }
        let mut i = start;
        while i < end
            invariant
                segmented(values@, offsets@),
                k < count,
                count == offsets.len() - 1,
                start == offsets@[k as int],
                end == offsets@[k + 1],
                start <= i <= end <= values.len(),
                output.len() == i,
                forall|a: int, j: int|
                    #![trigger output@[a], in_segment(offsets@, j, a)]
                    0 <= a < output.len() && in_segment(offsets@, j, a) ==> output@[a]
                        == values@[offsets@[j] + offsets@[j + 1] - 1 - a],
            decreases end - i,
        {
            proof {
                assert forall|j: int| #[trigger] in_segment(offsets@, j, i as int) implies j == k by {
                    lemma_segment_unique(offsets@, i as int, j, k as int);
                }
            }
            output.push(values[end - 1 - (i - start)]);
            i = i + 1;
        }
        k = k + 1;
    }
    output
}

/// Combines every item with its predecessor within its segment; the first
/// item of each segment is kept.
pub fn adjacent_difference_segments<T: Copy, Op: ReductionOp<T>>(
    values: &Vec<T>,
    offsets: &Vec<u32>,
) -> (output: Vec<T>)
    requires
        segmented(values@, offsets@),
    ensures
        output.len() == values.len(),
        forall|i: int, k: int|
            #![trigger output@[i], in_segment(offsets@, k, i)]
            0 <= i < values.len() && in_segment(offsets@, k, i) ==> output@[i] == if i
                == offsets@[k] {
                values@[i]
            } else {
                Op::combine(values@[i - 1], values@[i])
            },
{
    let count = offsets.len() - 1;
    let mut output: Vec<T> = Vec::new();
    let mut k: usize = 0;
    while k < count
        invariant
            segmented(values@, offsets@),
            count == offsets.len() - 1,
            k <= count,
            output.len() == offsets@[k as int],
            forall|i: int, j: int|
                #![trigger output@[i], in_segment(offsets@, j, i)]
                0 <= i < output.len() && in_segment(offsets@, j, i) ==> output@[i] == if i
                    == offsets@[j] {
                    values@[i]
                } else {
                    Op::combine(values@[i - 1], values@[i])
                },
        decreases count - k,
    {
        let start = offsets[k] as usize;
        let end = offsets[k + 1] as usize;
        proof {
            assert(offsets@[k as int] <= offsets@[k + 1]);
            assert(offsets@[k + 1] <= offsets@.last());
        }
        let mut i = start;
        while i < end
            invariant
                segmented(values@, offsets@),
                k < count,
                count == offsets.len() - 1,
                start == offsets@[k as int],
                end == offsets@[k + 1],
                start <= i <= end <= values.len(),
                output.len() == i,
                forall|a: int, j: int|
                    #![trigger output@[a], in_segment(offsets@, j, a)]
                    0 <= a < output.len() && in_segment(offsets@, j, a) ==> output@[a] == if a
                        == offsets@[j] {
                        values@[a]
                    } else {
                        Op::combine(values@[a - 1], values@[a])
                    },
            decreases end - i,
        {
            proof {
                assert forall|j: int| #[trigger] in_segment(offsets@, j, i as int) implies j == k by {
                    lemma_segment_unique(offsets@, i as int, j, k as int);
                }
            }
            let value = if i == start {
                values[i]
            } else {
                Op::apply(values[i - 1], values[i])
            };
            output.push(value);
            i = i + 1;
        }
        k = k + 1;
    }
    output
}

/// Offsets of a compaction: offset `k` counts the kept items before segment `k`.
pub open spec fn compacted_offsets(o: Seq<u32>, flags: Seq<MFlag>) -> Seq<u32> {
    Seq::new(o.len(), |k: int| count_set(flags.take(o[k] as int)) as u32)
}

/// Compacts every segment independently, keeping the items whose flag is set.
///
/// The kept values are the stable selection of all values; the new offset
/// `k` is the number of kept values before segment `k`.
pub fn compact_segments<T: Copy>(values: &Vec<T>, offsets: &Vec<u32>, flags: &Vec<MFlag>) -> (result: (
    Vec<T>,
    Vec<u32>,
))
    requires
        segmented(values@, offsets@),
        flags.len() == values.len(),
    ensures
        result.0@ == selected(values@, flags@),
        result.1@ == compacted_offsets(offsets@, flags@),
        valid_offsets(result.1@),
        result.1@.last() == result.0.len(),
{
    let n = values.len();
    let mut kept: Vec<T> = Vec::new();
    let mut prefix_counts: Vec<u32> = Vec::new();
    let mut i: usize = 0;
    proof {
        assert(flags@.take(0) =~= Seq::<MFlag>::empty());
    }
    while i < n
        invariant
            n == values.len(),
            n == flags.len(),
            n <= u32::MAX,
            i <= n,
            kept@ == selected(values@, flags@.take(i as int)),
            kept.len() == count_set(flags@.take(i as int)),
            kept.len() <= i,
            prefix_counts.len() == i,
            forall|j: int|
                0 <= j < i ==> #[trigger] prefix_counts@[j] == count_set(flags@.take(j)),
        decreases n - i,
    {
        proof {
            lemma_selected_take(values@, flags@, i as int);
            crate::selection::lemma_selected_indices(values@, flags@.take(i as int));
        }
        prefix_counts.push(kept.len() as u32);
        if flags[i] != 0u32 {
            kept.push(values[i]);
        }
        i = i + 1;
    }
    proof {
        assert(flags@.take(n as int) =~= flags@);
    }
    let total = kept.len() as u32;
    let count = offsets.len() - 1;
    let mut new_offsets: Vec<u32> = Vec::new();
    let mut k: usize = 0;
    while k <= count
        invariant
            segmented(values@, offsets@),
            count == offsets.len() - 1,
            n == values.len(),
            n == flags.len(),
            prefix_counts.len() == n,
            forall|j: int|
                0 <= j < n ==> #[trigger] prefix_counts@[j] == count_set(flags@.take(j)),
            total == count_set(flags@),
            total == count_set(flags@.take(n as int)),
            k <= count + 1,
            new_offsets.len() == k,
            forall|j: int|
                0 <= j < k ==> #[trigger] new_offsets@[j] == compacted_offsets(offsets@, flags@)[j],
        decreases count + 1 - k,
    {
        let boundary = offsets[k] as usize;
        proof {
            assert(offsets@[k as int] <= offsets@.last());
            crate::selection::lemma_count_monotone(flags@, 0, boundary as int);
            crate::selection::lemma_count_monotone(flags@, boundary as int, n as int);
        }
        let value = if boundary == n { total } else { prefix_counts[boundary] };
        new_offsets.push(value);
        k = k + 1;
    }
    proof {
        assert(new_offsets@ =~= compacted_offsets(offsets@, flags@));
        assert(offsets@[0] == 0);
        assert(flags@.take(0) =~= Seq::<MFlag>::empty());
        assert forall|a: int, b: int| 0 <= a <= b < new_offsets.len() implies new_offsets@[a]
            <= new_offsets@[b] by {
            assert(offsets@[a] <= offsets@[b]);
            assert(offsets@[b] <= offsets@.last());
            crate::selection::lemma_count_monotone(flags@, offsets@[a] as int, offsets@[b] as int);
            crate::selection::lemma_count_monotone(flags@, 0, offsets@[b] as int);
            crate::selection::lemma_count_monotone(flags@, 0, offsets@[a] as int);
        }
    }
    (kept, new_offsets)
}

/// A minimum from `1` over `0`/`1` flags is `1` exactly when every flag is set.
pub proof fn lemma_min_fold_all(flags: Seq<MFlag>)
    requires
        forall|j: int| 0 <= j < flags.len() ==> #[trigger] flags[j] <= 1,
    ensures
        fold::<u32, MinU32>(1u32, flags) == if forall|j: int|
            0 <= j < flags.len() ==> #[trigger] flags[j] != 0 {
            1u32
        } else {
            0u32
        },
    decreases flags.len(),
{
    if flags.len() > 0 {
        let prev = flags.drop_last();
        lemma_min_fold_all(prev);
        if !(forall|j: int| 0 <= j < prev.len() ==> #[trigger] prev[j] != 0) {
            let w = choose|j: int| 0 <= j < prev.len() && #[trigger] prev[j] == 0;
            assert(flags[w] == 0);
        }
        if forall|j: int| 0 <= j < prev.len() ==> #[trigger] prev[j] != 0 {
            assert forall|j: int| 0 <= j < flags.len() - 1 implies #[trigger] flags[j] != 0 by {
                assert(prev[j] == flags[j]);
            }
        }
    }
}

/// A maximum from `0` over `0`/`1` flags is `1` exactly when some flag is set.
pub proof fn lemma_max_fold_any(flags: Seq<MFlag>)
    requires
        forall|j: int| 0 <= j < flags.len() ==> #[trigger] flags[j] <= 1,
    ensures
        fold::<u32, MaxU32>(0u32, flags) == if exists|j: int|
            0 <= j < flags.len() && #[trigger] flags[j] != 0 {
            1u32
        } else {
            0u32
        },
    decreases flags.len(),
{
    if flags.len() > 0 {
        let prev = flags.drop_last();
        lemma_max_fold_any(prev);
        if exists|j: int| 0 <= j < prev.len() && #[trigger] prev[j] != 0 {
            let w = choose|j: int| 0 <= j < prev.len() && #[trigger] prev[j] != 0;
            assert(flags[w] != 0);
        }
        if exists|j: int| 0 <= j < flags.len() && #[trigger] flags[j] != 0 {
            let w = choose|j: int| 0 <= j < flags.len() && #[trigger] flags[j] != 0;
            if w < flags.len() - 1 {
                assert(prev[w] != 0);
            }
        }
    }
}

/// Counts, for every segment, the items satisfying `pred`.
pub fn count_if_segments<T: Copy, Pred: PredicateOp<T>>(values: &Vec<T>, offsets: &Vec<u32>, pred: Pred) -> (output:
    Vec<u32>)
    requires
        segmented(values@, offsets@),
    ensures
        output.len() == offsets.len() - 1,
        forall|k: int|
            0 <= k < output.len() ==> #[trigger] output@[k] == count_set(
                predicate_flags::<T, Pred>(segment_items(values@, offsets@, k)),
            ),
{
    let flags = crate::predicate::predicate_map(values, pred);
    let output = reduce_segments::<u32, SumU32>(&flags, offsets, 0u32);
    proof {
        assert forall|k: int| 0 <= k < output.len() implies #[trigger] output@[k] == count_set(
            predicate_flags::<T, Pred>(segment_items(values@, offsets@, k)),
        ) by {
            let seg = segment_items(values@, offsets@, k);
            assert(offsets@[k] <= offsets@[k + 1]);
            assert(offsets@[k + 1] <= offsets@.last());
            assert(segment_items(flags@, offsets@, k) =~= truth(predicate_flags::<T, Pred>(seg)));
            lemma_sum_fold_count(segment_items(flags@, offsets@, k));
            crate::selection::lemma_truth_same(seg, predicate_flags::<T, Pred>(seg));
        }
    }
    output
}

/// For every segment, `1` when every item satisfies `pred`, else `0`
/// (an empty segment gives `1`).
pub fn all_of_segments<T: Copy, Pred: PredicateOp<T>>(values: &Vec<T>, offsets: &Vec<u32>, pred: Pred) -> (output:
    Vec<MFlag>)
    requires
        segmented(values@, offsets@),
    ensures
        output.len() == offsets.len() - 1,
        forall|k: int|
            0 <= k < output.len() ==> #[trigger] output@[k] == if forall|j: int|
                0 <= j < segment_items(values@, offsets@, k).len() ==> #[trigger] Pred::spec_apply(
                    segment_items(values@, offsets@, k)[j],
                ) != 0 {
                1u32
            } else {
                0u32
            },
{
    let flags = crate::predicate::predicate_map(values, pred);
    let output = reduce_segments::<u32, MinU32>(&flags, offsets, 1u32);
    proof {
        assert forall|k: int| 0 <= k < output.len() implies #[trigger] output@[k] == if forall|j: int|
            0 <= j < segment_items(values@, offsets@, k).len() ==> #[trigger] Pred::spec_apply(
                segment_items(values@, offsets@, k)[j],
            ) != 0 {
            1u32
        } else {
            0u32
        } by {
            let seg = segment_items(values@, offsets@, k);
            let sf = segment_items(flags@, offsets@, k);
            assert(offsets@[k] <= offsets@[k + 1]);
            assert(offsets@[k + 1] <= offsets@.last());
            assert(sf =~= truth(predicate_flags::<T, Pred>(seg)));
            lemma_min_fold_all(sf);
            let c1 = forall|j: int| 0 <= j < sf.len() ==> #[trigger] sf[j] != 0;
            let c2 = forall|j: int| 0 <= j < seg.len() ==> #[trigger] Pred::spec_apply(seg[j]) != 0;
            if c1 {
                assert forall|j: int| 0 <= j < seg.len() implies #[trigger] Pred::spec_apply(seg[j])
                    != 0 by {
                    assert(sf[j] != 0);
                }
            }
            if c2 {
                assert forall|j: int| 0 <= j < sf.len() implies #[trigger] sf[j] != 0 by {
                    assert(Pred::spec_apply(seg[j]) != 0);
                }
            }
        }
    }
    output
}

/// For every segment, `1` when some item satisfies `pred`, else `0`.
pub fn any_of_segments<T: Copy, Pred: PredicateOp<T>>(values: &Vec<T>, offsets: &Vec<u32>, pred: Pred) -> (output:
    Vec<MFlag>)
    requires
        segmented(values@, offsets@),
    ensures
        output.len() == offsets.len() - 1,
        forall|k: int|
            0 <= k < output.len() ==> #[trigger] output@[k] == if exists|j: int|
                0 <= j < segment_items(values@, offsets@, k).len() && #[trigger] Pred::spec_apply(
                    segment_items(values@, offsets@, k)[j],
                ) != 0 {
                1u32
            } else {
                0u32
            },
{
    let flags = crate::predicate::predicate_map(values, pred);
    let output = reduce_segments::<u32, MaxU32>(&flags, offsets, 0u32);
    proof {
        assert forall|k: int| 0 <= k < output.len() implies #[trigger] output@[k] == if exists|j: int|
            0 <= j < segment_items(values@, offsets@, k).len() && #[trigger] Pred::spec_apply(
                segment_items(values@, offsets@, k)[j],
            ) != 0 {
            1u32
        } else {
            0u32
        } by {
            let seg = segment_items(values@, offsets@, k);
            let sf = segment_items(flags@, offsets@, k);
            assert(offsets@[k] <= offsets@[k + 1]);
            assert(offsets@[k + 1] <= offsets@.last());
            assert(sf =~= truth(predicate_flags::<T, Pred>(seg)));
            lemma_max_fold_any(sf);
            let c1 = exists|j: int| 0 <= j < sf.len() && #[trigger] sf[j] != 0;
            let c2 = exists|j: int| 0 <= j < seg.len() && #[trigger] Pred::spec_apply(seg[j]) != 0;
            if c1 {
                let w = choose|j: int| 0 <= j < sf.len() && #[trigger] sf[j] != 0;
                assert(Pred::spec_apply(seg[w]) != 0);
            }
            if c2 {
                let w = choose|j: int| 0 <= j < seg.len() && #[trigger] Pred::spec_apply(seg[j]) != 0;
                assert(sf[w] != 0);
            }
        }
    }
    output
}

/// For every segment, `1` when no item satisfies `pred`, else `0`.
pub fn none_of_segments<T: Copy, Pred: PredicateOp<T>>(values: &Vec<T>, offsets: &Vec<u32>, pred: Pred) -> (output:
    Vec<MFlag>)
    requires
        segmented(values@, offsets@),
    ensures
        output.len() == offsets.len() - 1,
        forall|k: int|
            0 <= k < output.len() ==> #[trigger] output@[k] == if forall|j: int|
                0 <= j < segment_items(values@, offsets@, k).len() ==> #[trigger] Pred::spec_apply(
                    segment_items(values@, offsets@, k)[j],
                ) == 0 {
                1u32
            } else {
                0u32
            },
{
    let passing = crate::predicate::predicate_map(values, pred);
    let n = passing.len();
    let mut flags: Vec<MFlag> = Vec::new();
    let mut i: usize = 0;
    while i < n
        invariant
            n == passing.len(),
            i <= n,
            flags.len() == i,
            forall|j: int| 0 <= j < i ==> #[trigger] flags@[j] == falsity(passing@)[j],
        decreases n - i,
    {
        flags.push(if passing[i] == 0u32 { 1u32 } else { 0u32 });
        i = i + 1;
    }
    let output = reduce_segments::<u32, MinU32>(&flags, offsets, 1u32);
    proof {
        assert forall|k: int| 0 <= k < output.len() implies #[trigger] output@[k] == if forall|j: int|
            0 <= j < segment_items(values@, offsets@, k).len() ==> #[trigger] Pred::spec_apply(
                segment_items(values@, offsets@, k)[j],
            ) == 0 {
            1u32
        } else {
            0u32
        } by {
            let seg = segment_items(values@, offsets@, k);
            let sf = segment_items(flags@, offsets@, k);
            assert(offsets@[k] <= offsets@[k + 1]);
            assert(offsets@[k + 1] <= offsets@.last());
            assert(sf =~= falsity(truth(predicate_flags::<T, Pred>(seg))));
            lemma_min_fold_all(sf);
            let c1 = forall|j: int| 0 <= j < sf.len() ==> #[trigger] sf[j] != 0;
            let c2 = forall|j: int| 0 <= j < seg.len() ==> #[trigger] Pred::spec_apply(seg[j]) == 0;
            if c1 {
                assert forall|j: int| 0 <= j < seg.len() implies #[trigger] Pred::spec_apply(seg[j])
                    == 0 by {
                    assert(sf[j] != 0);
                }
            }
            if c2 {
                assert forall|j: int| 0 <= j < sf.len() implies #[trigger] sf[j] != 0 by {
                    assert(Pred::spec_apply(seg[j]) == 0);
                }
            }
        }
    }
    output
}

} // verus!
