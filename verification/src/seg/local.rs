//! Segment-local flags: flags computed from each segment on its own, the
//! first flagged local index of each segment, and per-segment compaction.

use core::marker::PhantomData;

use vstd::prelude::*;

use crate::merge::before;
use crate::op::{BinaryPredicateOp, ExpandOp, PredicateOp, StrictWeakOrder};
use crate::sort::{gather_items, lemma_merge_sort_member, merge_sort_order, sort_range};
use crate::transform::{expand, expand_offset, lemma_expand_offset_mono};
use crate::error::Error;
use crate::ordering::{adjacent_match_flags, sorted_break_flags, unique_head_flags};
use crate::predicate::{first_set_index, lemma_first_set_index};
use crate::selection::{count_set, lemma_selected_indices, lemma_selected_take, predicate_flags, selected, truth};
use crate::MFlag;

use super::each::{compact_segments, compacted_offsets, segment_items, segmented};
use super::segmentation::valid_offsets;

verus! {

/// A rule giving every item of a segment a `0`/`1` flag from that segment alone.
pub trait LocalFlags<T> {
    /// The flags of one segment.
    spec fn local(&self, seg: Seq<T>) -> Seq<MFlag>;

    /// One flag per item.
    proof fn local_len(&self, seg: Seq<T>)
        ensures
            self.local(seg).len() == seg.len(),
    ;

    /// The flag of item `i` of the segment `values[start..end]`.
    fn flag(&self, values: &Vec<T>, start: usize, end: usize, i: usize) -> (flag: MFlag)
        requires
            start <= i < end <= values.len(),
        ensures
            flag == self.local(values@.subrange(start as int, end as int))[i - start],
    ;
}

/// The first item of every run of equal items.
pub struct UniqueRule<Equal>(pub PhantomData<Equal>);

/// The items satisfying a predicate.
pub struct FilterRule<Pred>(pub PhantomData<Pred>);

/// The first `count` items.
pub struct TakeRule(pub u32);

/// The items equal to their successor.
pub struct AdjacentRule<Equal>(pub PhantomData<Equal>);

/// The items strictly less than their predecessor.
pub struct BreakRule<Less>(pub PhantomData<Less>);

/// The first `count` local positions of a segment of length `len`.
pub open spec fn take_flags(len: nat, count: u32) -> Seq<MFlag> {
    Seq::new(len, |i: int| if i < count { 1u32 } else { 0u32 })
}

impl<T: Copy, Equal: BinaryPredicateOp<T>> LocalFlags<T> for UniqueRule<Equal> {
    open spec fn local(&self, seg: Seq<T>) -> Seq<MFlag> {
        unique_head_flags::<T, Equal>(seg)
    }

    proof fn local_len(&self, seg: Seq<T>) {
    }

    fn flag(&self, values: &Vec<T>, start: usize, end: usize, i: usize) -> (flag: MFlag) {
        if i == start || Equal::apply(values[i - 1], values[i]) == 0 {
            1
        } else {
            0
        }
    }
}

impl<T: Copy, Pred: PredicateOp<T>> LocalFlags<T> for FilterRule<Pred> {
    open spec fn local(&self, seg: Seq<T>) -> Seq<MFlag> {
        truth(predicate_flags::<T, Pred>(seg))
    }

    proof fn local_len(&self, seg: Seq<T>) {
    }

    fn flag(&self, values: &Vec<T>, start: usize, end: usize, i: usize) -> (flag: MFlag) {
        if Pred::apply(values[i]) != 0 {
            1
        } else {
            0
        }
    }
}

impl<T> LocalFlags<T> for TakeRule {
    open spec fn local(&self, seg: Seq<T>) -> Seq<MFlag> {
        take_flags(seg.len(), self.0)
    }

    proof fn local_len(&self, seg: Seq<T>) {
    }

    fn flag(&self, values: &Vec<T>, start: usize, end: usize, i: usize) -> (flag: MFlag) {
        if i - start < self.0 as usize {
            1
        } else {
            0
        }
    }
}

impl<T: Copy, Equal: BinaryPredicateOp<T>> LocalFlags<T> for AdjacentRule<Equal> {
    open spec fn local(&self, seg: Seq<T>) -> Seq<MFlag> {
        adjacent_match_flags::<T, Equal>(seg)
    }

    proof fn local_len(&self, seg: Seq<T>) {
    }

    fn flag(&self, values: &Vec<T>, start: usize, end: usize, i: usize) -> (flag: MFlag) {
        if i + 1 < end && Equal::apply(values[i], values[i + 1]) != 0 {
            1
        } else {
            0
        }
    }
}

impl<T: Copy, Less: BinaryPredicateOp<T>> LocalFlags<T> for BreakRule<Less> {
    open spec fn local(&self, seg: Seq<T>) -> Seq<MFlag> {
        sorted_break_flags::<T, Less>(seg)
    }

    proof fn local_len(&self, seg: Seq<T>) {
    }

    fn flag(&self, values: &Vec<T>, start: usize, end: usize, i: usize) -> (flag: MFlag) {
        if i > start && Less::apply(values[i], values[i - 1]) != 0 {
            1
        } else {
            0
        }
    }
}

/// `flags` holds, segment by segment, the local flags of `rule`.
pub open spec fn flags_by_segment<T, R: LocalFlags<T>>(
    rule: R,
    values: Seq<T>,
    o: Seq<u32>,
    flags: Seq<MFlag>,
) -> bool {
    &&& flags.len() == values.len()
    &&& forall|k: int|
        0 <= k < o.len() - 1 ==> #[trigger] flags.subrange(o[k] as int, o[k + 1] as int) == rule.local(
            segment_items(values, o, k),
        )
}

/// Computes the local flags of `rule` for every segment.
pub fn local_flags<T, R: LocalFlags<T>>(values: &Vec<T>, offsets: &Vec<u32>, rule: &R) -> (flags: Vec<
    MFlag,
>)
    requires
        segmented(values@, offsets@),
    ensures
        flags_by_segment(*rule, values@, offsets@, flags@),
{
    let count = offsets.len() - 1;
    let mut flags: Vec<MFlag> = Vec::new();
    let mut k: usize = 0;
    while k < count
        invariant
            segmented(values@, offsets@),
            count == offsets.len() - 1,
            k <= count,
            flags.len() == offsets@[k as int],
            forall|j: int|
                0 <= j < k ==> #[trigger] flags@.subrange(offsets@[j] as int, offsets@[j + 1] as int)
                    == rule.local(segment_items(values@, offsets@, j)),
        decreases count - k,
    {
        let start = offsets[k] as usize;
        let end = offsets[k + 1] as usize;
        proof {
            assert(offsets@[k as int] <= offsets@[k + 1]);
            assert(offsets@[k + 1] <= offsets@.last());
            rule.local_len(values@.subrange(start as int, end as int));
        }
        let ghost before = flags@;
        let mut i = start;
        while i < end
            invariant
                segmented(values@, offsets@),
                start <= i <= end <= values.len(),
                flags.len() == i,
                flags@.take(start as int) == before,
                rule.local(values@.subrange(start as int, end as int)).len() == end - start,
                forall|t: int|
                    start <= t < i ==> #[trigger] flags@[t] == rule.local(
                        values@.subrange(start as int, end as int),
                    )[t - start],
            decreases end - i,
        {
            let flag = rule.flag(values, start, end, i);
            flags.push(flag);
            proof {
                assert(flags@.take(start as int) =~= before);
            }
            i = i + 1;
        }
        proof {
            assert(flags@.subrange(start as int, end as int) =~= rule.local(
                segment_items(values@, offsets@, k as int),
            ));
            assert forall|j: int| 0 <= j < k + 1 implies #[trigger] flags@.subrange(
                offsets@[j] as int,
                offsets@[j + 1] as int,
            ) == rule.local(segment_items(values@, offsets@, j)) by {
                if j < k {
                    assert(offsets@[j + 1] <= offsets@[k as int]);
                    assert(flags@.subrange(offsets@[j] as int, offsets@[j + 1] as int) =~= before.subrange(
                        offsets@[j] as int,
                        offsets@[j + 1] as int,
                    ));
                }
            }
        }
        k = k + 1;
    }
    proof {
        assert(offsets@[count as int] == offsets@.last());
    }
    flags
}

/// The first set index of the flags, or their length when none is set.
pub open spec fn first_or_len(flags: Seq<MFlag>) -> u32 {
    if first_set_index(flags) == u32::MAX {
        flags.len() as u32
    } else {
        first_set_index(flags)
    }
}

/// For every segment, the first local index whose flag is set, or the
/// segment length when none is.
pub fn first_flag_by_segment(flags: &Vec<MFlag>, offsets: &Vec<u32>) -> (output: Vec<u32>)
    requires
        segmented(flags@, offsets@),
    ensures
        output.len() == offsets.len() - 1,
        forall|k: int|
            0 <= k < output.len() ==> #[trigger] output@[k] == first_or_len(
                segment_items(flags@, offsets@, k),
            ),
{
    let count = offsets.len() - 1;
    let mut output: Vec<u32> = Vec::new();
    let mut k: usize = 0;
    while k < count
        invariant
            segmented(flags@, offsets@),
            count == offsets.len() - 1,
            k <= count,
            output.len() == k,
            forall|j: int|
                0 <= j < k ==> #[trigger] output@[j] == first_or_len(segment_items(flags@, offsets@, j)),
        decreases count - k,
    {
        let start = offsets[k] as usize;
        let end = offsets[k + 1] as usize;
        proof {
            assert(offsets@[k as int] <= offsets@[k + 1]);
            assert(offsets@[k + 1] <= offsets@.last());
        }
        let ghost seg = segment_items(flags@, offsets@, k as int);
        let mut i = start;
        while i < end && flags[i] == 0
            invariant
                start <= i <= end <= flags.len(),
                flags.len() <= u32::MAX,
                seg == flags@.subrange(start as int, end as int),
                forall|t: int| 0 <= t < i - start ==> #[trigger] seg[t] == 0,
            decreases end - i,
        {
            i = i + 1;
        }
        proof {
            lemma_first_set_index(seg);
            if i < end {
                assert(seg[i - start] != 0);
                if first_set_index(seg) < i - start {
                    assert(seg[first_set_index(seg) as int] == 0);
                }
                if first_set_index(seg) > i - start {
                    assert(seg[(i - start) as int] == 0);
                }
            } else {
                assert forall|t: int| 0 <= t < seg.len() implies #[trigger] seg[t] == 0 by {}
            }
        }
        output.push((i - start) as u32);
        k = k + 1;
    }
    output
}

/// Selecting a prefix extended by a range selects the prefix, then the range.
pub proof fn lemma_selected_split<T>(s: Seq<T>, flags: Seq<MFlag>, a: int, b: int)
    requires
        0 <= a <= b <= flags.len(),
        flags.len() == s.len(),
    ensures
        selected(s, flags.take(b)) == selected(s, flags.take(a)) + selected(
            s.subrange(a, b),
            flags.subrange(a, b),
        ),
    decreases b - a,
{
    if a == b {
        assert(flags.subrange(a, b) =~= Seq::<MFlag>::empty());
        assert(selected(s.subrange(a, b), flags.subrange(a, b)) =~= Seq::<T>::empty());
        assert(selected(s, flags.take(b)) + Seq::<T>::empty() =~= selected(s, flags.take(b)));
    } else {
        lemma_selected_split(s, flags, a, b - 1);
        lemma_selected_take(s, flags, b - 1);
        let sub = s.subrange(a, b);
        let fsub = flags.subrange(a, b);
        assert(fsub.drop_last() =~= flags.subrange(a, b - 1));
        assert(fsub.take(fsub.len() - 1) =~= flags.subrange(a, b - 1));
        assert(fsub.take(fsub.len() as int) =~= fsub);
        lemma_selected_take(sub, fsub, fsub.len() - 1);
        assert(sub.subrange(0, 0) =~= Seq::<T>::empty());
        assert(selected(sub, fsub) == selected(sub, fsub.take(fsub.len() as int)));
        lemma_selected_prefix_view(s, sub, flags.subrange(a, b - 1), a);
        assert(sub[fsub.len() - 1] == s[b - 1]);
        assert(fsub[fsub.len() - 1] == flags[b - 1]);
    }
}

/// Selection from a range only reads the range.
proof fn lemma_selected_prefix_view<T>(s: Seq<T>, sub: Seq<T>, f: Seq<MFlag>, a: int)
    requires
        0 <= a,
        a + f.len() <= s.len(),
        f.len() <= sub.len(),
        forall|t: int| 0 <= t < f.len() ==> #[trigger] sub[t] == s[a + t],
    ensures
        selected(sub, f) == selected(s.subrange(a, a + f.len()), f),
    decreases f.len(),
{
    if f.len() > 0 {
        lemma_selected_prefix_view(s, sub, f.drop_last(), a);
        lemma_selected_prefix_view_tail(s, f.drop_last(), a, f.len() as int);
    }
}

/// Selecting with a shorter flag prefix does not depend on the range length.
proof fn lemma_selected_prefix_view_tail<T>(s: Seq<T>, f: Seq<MFlag>, a: int, m: int)
    requires
        0 <= a,
        f.len() <= m,
        a + m <= s.len(),
    ensures
        selected(s.subrange(a, a + f.len()), f) == selected(s.subrange(a, a + m), f),
    decreases f.len(),
{
    if f.len() > 0 {
        lemma_selected_prefix_view_tail(s, f.drop_last(), a, m);
        lemma_selected_prefix_view_tail(s, f.drop_last(), a, f.len() as int);
    }
}

/// The values a compaction keeps from segment `k` are that segment's own
/// selection.
pub proof fn lemma_compacted_segment<T>(values: Seq<T>, o: Seq<u32>, flags: Seq<MFlag>, k: int)
    requires
        segmented(values, o),
        flags.len() == values.len(),
        0 <= k < o.len() - 1,
    ensures
        ({
            let kept = selected(values, flags);
            let c = compacted_offsets(o, flags);
            &&& c[k] <= c[k + 1] <= kept.len()
            &&& kept.subrange(c[k] as int, c[k + 1] as int) == selected(
                segment_items(values, o, k),
                flags.subrange(o[k] as int, o[k + 1] as int),
            )
        }),
{
    let n = values.len() as int;
    let a = o[k] as int;
    let b = o[k + 1] as int;
    assert(o[k] <= o[k + 1]);
    assert(o[k + 1] <= o.last());
    lemma_selected_split(values, flags, a, b);
    lemma_selected_split(values, flags, b, n);
    assert(flags.take(n) =~= flags);
    lemma_selected_indices(values, flags.take(a));
    lemma_selected_indices(values, flags.take(b));
    lemma_selected_indices(values, flags);
    let kept = selected(values, flags);
    let pa = selected(values, flags.take(a));
    let pb = selected(values, flags.take(b));
    assert(kept.take(pb.len() as int) =~= pb);
    assert(pb.subrange(pa.len() as int, pb.len() as int) =~= selected(
        values.subrange(a, b),
        flags.subrange(a, b),
    ));
    assert(kept.subrange(pa.len() as int, pb.len() as int) =~= pb.subrange(
        pa.len() as int,
        pb.len() as int,
    ));
}

/// The outcome of compacting every segment with the local flags of `rule`:
/// valid offsets ending at the kept count, and segment `k` of the result is the
/// selection of segment `k` of the input by its local flags.
pub open spec fn compacted_by<T, R: LocalFlags<T>>(
    rule: R,
    values: Seq<T>,
    o: Seq<u32>,
    kept: Seq<T>,
    new_offsets: Seq<u32>,
) -> bool {
    &&& valid_offsets(new_offsets)
    &&& new_offsets.len() == o.len()
    &&& new_offsets.last() == kept.len()
    &&& forall|k: int|
        0 <= k < o.len() - 1 ==> #[trigger] kept.subrange(
            new_offsets[k] as int,
            new_offsets[k + 1] as int,
        ) == selected(segment_items(values, o, k), rule.local(segment_items(values, o, k)))
}

/// Compacts every segment with the local flags of `rule`.
fn compact_by<T: Copy, R: LocalFlags<T>>(values: &Vec<T>, offsets: &Vec<u32>, rule: &R) -> (result: (
    Vec<T>,
    Vec<u32>,
))
    requires
        segmented(values@, offsets@),
    ensures
        compacted_by(*rule, values@, offsets@, result.0@, result.1@),
{
    let flags = local_flags(values, offsets, rule);
    let (kept, new_offsets) = compact_segments(values, offsets, &flags);
    proof {
        assert forall|k: int| 0 <= k < offsets.len() - 1 implies #[trigger] kept@.subrange(
            new_offsets@[k] as int,
            new_offsets@[k + 1] as int,
        ) == selected(
            segment_items(values@, offsets@, k),
            rule.local(segment_items(values@, offsets@, k)),
        ) by {
            lemma_compacted_segment(values@, offsets@, flags@, k);
        }
    }
    (kept, new_offsets)
}

/// Keeps the first item of each run of equal items within every segment.
/// Returns the kept values and their offsets.
pub fn unique_segments<T: Copy, Equal: BinaryPredicateOp<T>>(
    values: &Vec<T>,
    offsets: &Vec<u32>,
    equal: Equal,
) -> (result: (Vec<T>, Vec<u32>))
    requires
        segmented(values@, offsets@),
    ensures
        compacted_by(UniqueRule::<Equal>(PhantomData), values@, offsets@, result.0@, result.1@),
{
    compact_by(values, offsets, &UniqueRule::<Equal>(PhantomData))
}

/// Keeps the items satisfying `pred` within every segment. Returns the kept
/// values and their offsets.
pub fn filter_segments<T: Copy, Pred: PredicateOp<T>>(
    values: &Vec<T>,
    offsets: &Vec<u32>,
    pred: Pred,
) -> (result: (Vec<T>, Vec<u32>))
    requires
        segmented(values@, offsets@),
    ensures
        compacted_by(FilterRule::<Pred>(PhantomData), values@, offsets@, result.0@, result.1@),
{
    compact_by(values, offsets, &FilterRule::<Pred>(PhantomData))
}

/// Keeps at most the first `count` items of every segment. Returns the kept
/// values and their offsets.
pub fn take_segments<T: Copy>(values: &Vec<T>, offsets: &Vec<u32>, count: u32) -> (result: (
    Vec<T>,
    Vec<u32>,
))
    requires
        segmented(values@, offsets@),
    ensures
        compacted_by(TakeRule(count), values@, offsets@, result.0@, result.1@),
{
    compact_by(values, offsets, &TakeRule(count))
}

/// For every segment, the first local index flagged by `rule`, or the segment
/// length when none is.
pub open spec fn first_by<T, R: LocalFlags<T>>(rule: R, values: Seq<T>, o: Seq<u32>, k: int) -> u32 {
    first_or_len(rule.local(segment_items(values, o, k)))
}

/// Computes `first_by` for every segment.
fn first_by_segment<T, R: LocalFlags<T>>(values: &Vec<T>, offsets: &Vec<u32>, rule: &R) -> (output: Vec<
    u32,
>)
    requires
        segmented(values@, offsets@),
    ensures
        output.len() == offsets.len() - 1,
        forall|k: int|
            0 <= k < output.len() ==> #[trigger] output@[k] == first_by(*rule, values@, offsets@, k),
{
    let flags = local_flags(values, offsets, rule);
    let output = first_flag_by_segment(&flags, offsets);
    proof {
        assert forall|k: int| 0 <= k < output.len() implies #[trigger] output@[k] == first_by(
            *rule,
            values@,
            offsets@,
            k,
        ) by {
            assert(segment_items(flags@, offsets@, k) == flags@.subrange(
                offsets@[k] as int,
                offsets@[k + 1] as int,
            ));
        }
    }
    output
}

/// For every segment, the local index of the first item satisfying `pred`, or
/// the segment length when no item does.
pub fn find_if_segments<T: Copy, Pred: PredicateOp<T>>(
    values: &Vec<T>,
    offsets: &Vec<u32>,
    pred: Pred,
) -> (output: Vec<u32>)
    requires
        segmented(values@, offsets@),
    ensures
        output.len() == offsets.len() - 1,
        forall|k: int|
            0 <= k < output.len() ==> #[trigger] output@[k] == first_by(
                FilterRule::<Pred>(PhantomData),
                values@,
                offsets@,
                k,
            ),
{
    first_by_segment(values, offsets, &FilterRule::<Pred>(PhantomData))
}

/// For every segment, the first local index whose item equals its successor,
/// or the segment length when no two adjacent items are equal.
pub fn adjacent_find_segments<T: Copy, Equal: BinaryPredicateOp<T>>(
    values: &Vec<T>,
    offsets: &Vec<u32>,
    equal: Equal,
) -> (output: Vec<u32>)
    requires
        segmented(values@, offsets@),
    ensures
        output.len() == offsets.len() - 1,
        forall|k: int|
            0 <= k < output.len() ==> #[trigger] output@[k] == first_by(
                AdjacentRule::<Equal>(PhantomData),
                values@,
                offsets@,
                k,
            ),
{
    first_by_segment(values, offsets, &AdjacentRule::<Equal>(PhantomData))
}

/// For every segment, the length of its sorted prefix: the first local index
/// whose item is strictly less than its predecessor, or the segment length.
pub fn is_sorted_until_segments<T: Copy, Less: BinaryPredicateOp<T>>(
    values: &Vec<T>,
    offsets: &Vec<u32>,
    less: Less,
) -> (output: Vec<u32>)
    requires
        segmented(values@, offsets@),
    ensures
        output.len() == offsets.len() - 1,
        forall|k: int|
            0 <= k < output.len() ==> #[trigger] output@[k] == first_by(
                BreakRule::<Less>(PhantomData),
                values@,
                offsets@,
                k,
            ),
{
    first_by_segment(values, offsets, &BreakRule::<Less>(PhantomData))
}

/// For every segment, `1` when it is sorted (no item strictly less than its
/// predecessor) and `0` otherwise.
pub fn is_sorted_segments<T: Copy, Less: BinaryPredicateOp<T>>(
    values: &Vec<T>,
    offsets: &Vec<u32>,
    less: Less,
) -> (output: Vec<MFlag>)
    requires
        segmented(values@, offsets@),
    ensures
        output.len() == offsets.len() - 1,
        forall|k: int|
            0 <= k < output.len() ==> #[trigger] output@[k] == (if forall|i: int|
                0 < i < segment_items(values@, offsets@, k).len() ==> !before::<T, Less>(
                    #[trigger] segment_items(values@, offsets@, k)[i],
                    segment_items(values@, offsets@, k)[i - 1],
                ) {
                1u32
            } else {
                0u32
            }),
{
    let until = first_by_segment(values, offsets, &BreakRule::<Less>(PhantomData));
    let count = until.len();
    let mut output: Vec<MFlag> = Vec::new();
    let mut k: usize = 0;
    while k < count
        invariant
            segmented(values@, offsets@),
            count == until.len(),
            count == offsets.len() - 1,
            k <= count,
            output.len() == k,
            forall|j: int|
                0 <= j < count ==> #[trigger] until@[j] == first_by(
                    BreakRule::<Less>(PhantomData),
                    values@,
                    offsets@,
                    j,
                ),
            forall|j: int|
                0 <= j < k ==> #[trigger] output@[j] == (if forall|i: int|
                    0 < i < segment_items(values@, offsets@, j).len() ==> !before::<T, Less>(
                        #[trigger] segment_items(values@, offsets@, j)[i],
                        segment_items(values@, offsets@, j)[i - 1],
                    ) {
                    1u32
                } else {
                    0u32
                }),
        decreases count - k,
    {
        let len = offsets[k + 1] - offsets[k];
        let flag: MFlag = if until[k] == len {
            1
        } else {
            0
        };
        proof {
            let seg = segment_items(values@, offsets@, k as int);
            let f = sorted_break_flags::<T, Less>(seg);
            assert(offsets@[k as int] <= offsets@[k + 1]);
            assert(offsets@[k + 1] <= offsets@.last());
            lemma_first_set_index(f);
            if forall|i: int| 0 < i < seg.len() ==> !before::<T, Less>(#[trigger] seg[i], seg[i - 1]) {
                assert forall|t: int| 0 <= t < f.len() implies #[trigger] f[t] == 0 by {}
            } else {
                let i = choose|i: int| 0 < i < seg.len() && before::<T, Less>(#[trigger] seg[i], seg[i - 1]);
                assert(f[i] != 0);
            }
        }
        output.push(flag);
        k = k + 1;
    }
    output
}

/// Stably sorts the items within every segment; offsets are unchanged.
pub fn sort_segments<T: Copy, Less: StrictWeakOrder<T>>(
    values: &Vec<T>,
    offsets: &Vec<u32>,
    less: Less,
) -> (output: Vec<T>)
    requires
        segmented(values@, offsets@),
    ensures
        output.len() == values.len(),
        forall|k: int|
            0 <= k < offsets.len() - 1 ==> #[trigger] segment_items(output@, offsets@, k) == gather_items(
                values@,
                merge_sort_order::<T, Less>(values@, offsets@[k] as int, offsets@[k + 1] as int),
            ),
{
    let count = offsets.len() - 1;
    let mut output: Vec<T> = Vec::new();
    let mut k: usize = 0;
    while k < count
        invariant
            segmented(values@, offsets@),
            count == offsets.len() - 1,
            k <= count,
            output.len() == offsets@[k as int],
            forall|j: int|
                0 <= j < k ==> #[trigger] output@.subrange(offsets@[j] as int, offsets@[j + 1] as int)
                    == gather_items(
                    values@,
                    merge_sort_order::<T, Less>(values@, offsets@[j] as int, offsets@[j + 1] as int),
                ),
        decreases count - k,
    {
        let start = offsets[k] as usize;
        let end = offsets[k + 1] as usize;
        proof {
            assert(offsets@[k as int] <= offsets@[k + 1]);
            assert(offsets@[k + 1] <= offsets@.last());
            lemma_merge_sort_member::<T, Less>(values@, start as int, end as int);
            crate::sort::law_merge_sort_is_stable_order::<T, Less>(values@, start as int, end as int);
        }
        let order = sort_range::<T, Less>(values, start, end);
        let ghost before = output@;
        let mut t: usize = 0;
        while t < order.len()
            invariant
                segmented(values@, offsets@),
                start + order.len() == end,
                end <= values.len(),
                t <= order.len(),
                output.len() == start + t,
                output@.take(start as int) == before,
                before.len() == start,
                forall|q: int| 0 <= q < order.len() ==> #[trigger] order@[q] < values.len(),
                forall|q: int| 0 <= q < t ==> #[trigger] output@[start + q] == values@[order@[q] as int],
            decreases order.len() - t,
        {
            output.push(values[order[t] as usize]);
            proof {
                assert(output@.take(start as int) =~= before);
            }
            t = t + 1;
        }
        proof {
            assert forall|q: int| 0 <= q < order.len() implies #[trigger] output@.subrange(
                start as int,
                end as int,
            )[q] == gather_items(values@, order@)[q] by {
                assert(output@[start + q] == values@[order@[q] as int]);
            }
            assert(output@.subrange(start as int, end as int) =~= gather_items(values@, order@));
            assert forall|j: int| 0 <= j < k + 1 implies #[trigger] output@.subrange(
                offsets@[j] as int,
                offsets@[j + 1] as int,
            ) == gather_items(
                values@,
                merge_sort_order::<T, Less>(values@, offsets@[j] as int, offsets@[j + 1] as int),
            ) by {
                if j < k {
                    assert(offsets@[j + 1] <= offsets@[k as int]);
                    assert(output@.subrange(offsets@[j] as int, offsets@[j + 1] as int) =~= before.subrange(
                        offsets@[j] as int,
                        offsets@[j + 1] as int,
                    ));
                }
            }
        }
        k = k + 1;
    }
    proof {
        assert(offsets@[count as int] == offsets@.last());
    }
    output
}

/// Expands every item within every segment. Returns the outputs and their
/// offsets: new offset `k` is the number of outputs of the items before
/// segment `k`.
///
/// Error: `LengthTooLarge { len }` when the output length does not fit in
/// `MIndex`, as for `expand`.
pub fn flat_map_segments<T: Copy, Op: ExpandOp<T>>(values: &Vec<T>, offsets: &Vec<u32>, op: Op) -> (result:
    Result<(Vec<Op::Output>, Vec<u32>), Error>)
    requires
        segmented(values@, offsets@),
    ensures
        expand_offset::<T, Op>(values@, values.len() as int) > u32::MAX ==> result == Err::<
            (Vec<Op::Output>, Vec<u32>),
            Error,
        >(Error::LengthTooLarge { len: crate::seg::segmentation::overflow_len() }),
        expand_offset::<T, Op>(values@, values.len() as int) <= u32::MAX ==> (result matches Ok(parts)
            && parts.0.len() == expand_offset::<T, Op>(values@, values.len() as int) && (forall|
            i: int,
            j: int,
        |
            #![trigger parts.0@[expand_offset::<T, Op>(values@, i) + j]]
            0 <= i < values.len() && 0 <= j < Op::spec_count(values@[i]) ==> parts.0@[expand_offset::<
                T,
                Op,
            >(values@, i) + j] == Op::spec_generate(values@[i], j as u32)) && parts.1.len()
            == offsets.len() && valid_offsets(parts.1@) && parts.1@.last() == parts.0.len() && forall|
            k: int,
        |
            0 <= k < offsets.len() ==> #[trigger] parts.1@[k] == expand_offset::<T, Op>(
                values@,
                offsets@[k] as int,
            )),
{
    let (output, element_offsets) = match expand(values, op) {
        Ok(parts) => parts,
        Err(e) => return Err(e),
    };
    let n = offsets.len();
    let mut new_offsets: Vec<u32> = Vec::new();
    let mut k: usize = 0;
    while k < n
        invariant
            segmented(values@, offsets@),
            n == offsets.len(),
            k <= n,
            element_offsets@ == crate::transform::expand_offsets::<T, Op>(values@),
            expand_offset::<T, Op>(values@, values.len() as int) <= u32::MAX,
            new_offsets.len() == k,
            forall|j: int|
                0 <= j < k ==> #[trigger] new_offsets@[j] == expand_offset::<T, Op>(
                    values@,
                    offsets@[j] as int,
                ),
        decreases n - k,
    {
        proof {
            assert(offsets@[k as int] <= offsets@.last());
            lemma_expand_offset_mono::<T, Op>(values@, offsets@[k as int] as int, values.len() as int);
        }
        new_offsets.push(element_offsets[offsets[k] as usize]);
        k = k + 1;
    }
    proof {
        assert(offsets@[0] == 0);
        assert forall|a: int, b: int| 0 <= a <= b < new_offsets.len() implies new_offsets@[a]
            <= new_offsets@[b] by {
            assert(offsets@[a] <= offsets@[b]);
            assert(offsets@[b] <= offsets@.last());
            lemma_expand_offset_mono::<T, Op>(values@, offsets@[a] as int, offsets@[b] as int);
            lemma_expand_offset_mono::<T, Op>(values@, offsets@[b] as int, values.len() as int);
        }
    }
    Ok((output, new_offsets))
}

} // verus!

verus! {

/// A segment of segmented values holds at most `u32::MAX` items.
proof fn lemma_segment_len<T>(values: Seq<T>, o: Seq<u32>, k: int)
    requires
        segmented(values, o),
        0 <= k < o.len() - 1,
    ensures
        segment_items(values, o, k).len() == o[k + 1] - o[k],
        segment_items(values, o, k).len() <= u32::MAX,
        forall|j: int|
            0 <= j < o[k + 1] - o[k] ==> #[trigger] segment_items(values, o, k)[j] == values[o[k] + j],
{
    assert(o[k] <= o[k + 1]);
    assert(o[k + 1] <= o[o.len() - 1]);
}

/// `first_or_len` is the least set index, or the flag count when none is set.
proof fn lemma_first_or_len(flags: Seq<MFlag>)
    requires
        flags.len() <= u32::MAX,
    ensures
        first_or_len(flags) <= flags.len(),
        forall|j: int| 0 <= j < first_or_len(flags) ==> #[trigger] flags[j] == 0,
        first_or_len(flags) < flags.len() ==> flags[first_or_len(flags) as int] != 0,
{
    lemma_first_set_index(flags);
}

/// In every segment, adjacent find reports the first local index whose item
/// equals its successor: no earlier item equals its successor, and, unless it
/// is the segment length, the reported item does.
pub proof fn law_adjacent_find_segments_is_first_match<T: Copy, Equal: BinaryPredicateOp<T>>(
    values: Seq<T>,
    o: Seq<u32>,
    k: int,
)
    requires
        segmented(values, o),
        0 <= k < o.len() - 1,
    ensures
        ({
            let seg = segment_items(values, o, k);
            let r = first_by(AdjacentRule::<Equal>(PhantomData), values, o, k) as int;
            &&& r <= seg.len()
            &&& forall|j: int| 0 <= j < r && j + 1 < seg.len() ==> #[trigger] Equal::spec_apply(seg[j], seg[j + 1]) == 0
            &&& r < seg.len() ==> r + 1 < seg.len() && Equal::spec_apply(seg[r], seg[r + 1]) != 0
        }),
{
    let seg = segment_items(values, o, k);
    let flags = AdjacentRule::<Equal>(PhantomData).local(seg);
    lemma_segment_len(values, o, k);
    AdjacentRule::<Equal>(PhantomData).local_len(seg);
    lemma_first_or_len(flags);
    let r = first_or_len(flags) as int;
    assert forall|j: int| 0 <= j < r && j + 1 < seg.len() implies #[trigger] Equal::spec_apply(seg[j], seg[j + 1]) == 0 by {
        assert(flags[j] == 0);
    }
    if r < seg.len() {
        assert(flags[r] != 0);
    }
}

/// In every segment, the sorted prefix ends at the first local index whose item
/// is strictly less than its predecessor: no earlier item is, and, unless it
/// is the segment length, the reported item is.
pub proof fn law_is_sorted_until_segments_is_first_break<T: Copy, Less: BinaryPredicateOp<T>>(
    values: Seq<T>,
    o: Seq<u32>,
    k: int,
)
    requires
        segmented(values, o),
        0 <= k < o.len() - 1,
    ensures
        ({
            let seg = segment_items(values, o, k);
            let r = first_by(BreakRule::<Less>(PhantomData), values, o, k) as int;
            &&& r <= seg.len()
            &&& forall|j: int| 0 < j < r ==> !before::<T, Less>(#[trigger] seg[j], seg[j - 1])
            &&& r < seg.len() ==> r > 0 && before::<T, Less>(seg[r], seg[r - 1])
        }),
{
    let seg = segment_items(values, o, k);
    let flags = BreakRule::<Less>(PhantomData).local(seg);
    lemma_segment_len(values, o, k);
    BreakRule::<Less>(PhantomData).local_len(seg);
    lemma_first_or_len(flags);
    let r = first_or_len(flags) as int;
    assert forall|j: int| 0 < j < r implies !before::<T, Less>(#[trigger] seg[j], seg[j - 1]) by {
        assert(flags[j] == 0);
    }
    if r < seg.len() {
        assert(flags[r] != 0);
    }
}

/// In every segment, find-if reports the first local index whose item passes
/// `pred`: no earlier item passes, and, unless it is the segment length, the
/// reported item does.
pub proof fn law_find_if_segments_is_first_pass<T: Copy, Pred: PredicateOp<T>>(values: Seq<T>, o: Seq<u32>, k: int)
    requires
        segmented(values, o),
        0 <= k < o.len() - 1,
    ensures
        ({
            let seg = segment_items(values, o, k);
            let r = first_by(FilterRule::<Pred>(PhantomData), values, o, k) as int;
            &&& r <= seg.len()
            &&& forall|j: int| 0 <= j < r ==> #[trigger] Pred::spec_apply(seg[j]) == 0
            &&& r < seg.len() ==> Pred::spec_apply(seg[r]) != 0
        }),
{
    let seg = segment_items(values, o, k);
    let flags = FilterRule::<Pred>(PhantomData).local(seg);
    lemma_segment_len(values, o, k);
    FilterRule::<Pred>(PhantomData).local_len(seg);
    lemma_first_or_len(flags);
    let r = first_or_len(flags) as int;
    assert forall|j: int| 0 <= j < r implies #[trigger] Pred::spec_apply(seg[j]) == 0 by {
        assert(flags[j] == 0);
    }
    if r < seg.len() {
        assert(flags[r] != 0);
    }
}

/// Unique keeps, in every segment, exactly the items that start a run of
/// equal items: the first item, and each item not equal to its predecessor.
pub proof fn law_unique_segments_keep_run_heads<T: Copy, Equal: BinaryPredicateOp<T>>(seg: Seq<T>)
    ensures
        UniqueRule::<Equal>(PhantomData).local(seg).len() == seg.len(),
        forall|i: int|
            0 <= i < seg.len() ==> (#[trigger] UniqueRule::<Equal>(PhantomData).local(seg)[i] != 0 <==> (i == 0
                || Equal::spec_apply(seg[i - 1], seg[i]) == 0)),
{
    UniqueRule::<Equal>(PhantomData).local_len(seg);
}

/// Filter keeps, in every segment, exactly the items that pass `pred`.
pub proof fn law_filter_segments_keep_passing_items<T: Copy, Pred: PredicateOp<T>>(seg: Seq<T>)
    ensures
        FilterRule::<Pred>(PhantomData).local(seg).len() == seg.len(),
        forall|i: int|
            0 <= i < seg.len() ==> (#[trigger] FilterRule::<Pred>(PhantomData).local(seg)[i] != 0
                <==> Pred::spec_apply(seg[i]) != 0),
{
    FilterRule::<Pred>(PhantomData).local_len(seg);
}

/// Selecting by take flags keeps the first `min(count, n)` items.
proof fn lemma_take_selects_prefix<T>(s: Seq<T>, n: nat, count: u32)
    requires
        n <= s.len(),
    ensures
        selected(s, take_flags(n, count)) == s.take(if count < n { count as int } else { n as int }),
    decreases n,
{
    if n > 0 {
        let flags = take_flags(n, count);
        assert(flags.drop_last() =~= take_flags((n - 1) as nat, count));
        lemma_take_selects_prefix(s, (n - 1) as nat, count);
        if n - 1 < count {
            assert(s.take(n - 1).push(s[n - 1]) =~= s.take(n as int));
        }
    } else {
        assert(s.take(0) =~= Seq::<T>::empty());
    }
}

/// Take keeps, of every segment, its first `min(count, length)` items: the new
/// segment has that length and holds that prefix, short segments whole.
pub proof fn law_take_segments_keep_prefixes<T>(
    values: Seq<T>,
    o: Seq<u32>,
    kept: Seq<T>,
    new_offsets: Seq<u32>,
    count: u32,
)
    requires
        segmented(values, o),
        compacted_by(TakeRule(count), values, o, kept, new_offsets),
    ensures
        forall|k: int|
            0 <= k < o.len() - 1 ==> {
                let len = o[k + 1] - o[k];
                let m = if count < len { count as int } else { len };
                &&& #[trigger] new_offsets[k + 1] - new_offsets[k] == m
                &&& kept.subrange(new_offsets[k] as int, new_offsets[k + 1] as int) == segment_items(
                    values,
                    o,
                    k,
                ).take(m)
            },
{
    assert forall|k: int| 0 <= k < o.len() - 1 implies {
        let len = o[k + 1] - o[k];
        let m = if count < len { count as int } else { len };
        &&& #[trigger] new_offsets[k + 1] - new_offsets[k] == m
        &&& kept.subrange(new_offsets[k] as int, new_offsets[k + 1] as int) == segment_items(values, o, k).take(m)
    } by {
        let seg = segment_items(values, o, k);
        lemma_segment_len(values, o, k);
        lemma_take_selects_prefix(seg, seg.len(), count);
        assert(TakeRule(count).local(seg) == take_flags(seg.len(), count));
        assert(new_offsets[k] <= new_offsets[k + 1]);
        assert(new_offsets[k + 1] <= new_offsets[new_offsets.len() - 1]);
        let piece = kept.subrange(new_offsets[k] as int, new_offsets[k + 1] as int);
        assert(piece == selected(seg, TakeRule(count).local(seg)));
        let m = if count < seg.len() { count as int } else { seg.len() as int };
        assert(piece == seg.take(m));
        assert(piece.len() == new_offsets[k + 1] - new_offsets[k]);
    }
}

} // verus!
