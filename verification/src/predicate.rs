//! Predicate queries composed from a per-item map and a reduction.

use vstd::prelude::*;

use crate::op::{MinU32, PredicateOp, ReductionOp, SumU32};
use crate::reduce::{fold, reduce};
use crate::scan::inclusive_at;
use crate::selection::{count_set, lemma_positions_count, predicate_flags, truth};
use crate::scan::inclusive_scan;
use crate::{MFlag, MIndex};

verus! {

/// The first index whose flag is set, or `u32::MAX` when none is.
pub open spec fn first_set_index(flags: Seq<MFlag>) -> u32
    decreases flags.len(),
{
    if flags.len() == 0 {
        u32::MAX
    } else if first_set_index(flags.drop_last()) != u32::MAX {
        first_set_index(flags.drop_last())
    } else if flags.last() != 0 {
        (flags.len() - 1) as u32
    } else {
        u32::MAX
    }
}

/// Each item's index where its flag is set, `u32::MAX` elsewhere.
pub open spec fn index_or_max(flags: Seq<MFlag>) -> Seq<u32> {
    Seq::new(flags.len(), |i: int| if flags[i] != 0 { i as u32 } else { u32::MAX })
}

/// `first_set_index` is the least set index, or `u32::MAX` when no flag is set.
pub proof fn lemma_first_set_index(flags: Seq<MFlag>)
    requires
        flags.len() <= u32::MAX,
    ensures
        first_set_index(flags) == u32::MAX <==> forall|k: int|
            0 <= k < flags.len() ==> #[trigger] flags[k] == 0,
        first_set_index(flags) != u32::MAX ==> first_set_index(flags) < flags.len() && flags[first_set_index(flags) as int] != 0
            && forall|k: int| 0 <= k < first_set_index(flags) ==> #[trigger] flags[k] == 0,
    decreases flags.len(),
{
    if flags.len() > 0 {
        let prev = flags.drop_last();
        lemma_first_set_index(prev);
        if first_set_index(prev) == u32::MAX {
            assert forall|k: int| 0 <= k < flags.len() - 1 implies #[trigger] flags[k] == 0 by {
                assert(prev[k] == flags[k]);
            }
        } else {
            assert(prev[first_set_index(prev) as int] == flags[first_set_index(prev) as int]);
            assert forall|k: int| 0 <= k < first_set_index(flags) implies #[trigger] flags[k] == 0 by {
                assert(prev[k] == flags[k]);
            }
        }
    }
}

/// A minimum reduction from `u32::MAX` over `index_or_max` finds the first set index.
pub proof fn lemma_min_fold_first(flags: Seq<MFlag>)
    requires
        flags.len() <= u32::MAX,
    ensures
        fold::<u32, MinU32>(u32::MAX, index_or_max(flags)) == first_set_index(flags),
    decreases flags.len(),
{
    if flags.len() > 0 {
        let prev = flags.drop_last();
        lemma_min_fold_first(prev);
        assert(index_or_max(flags).drop_last() =~= index_or_max(prev));
        lemma_first_set_index(prev);
    }
}

/// A sum from zero over `0`/`1` flags counts the set flags.
pub proof fn lemma_sum_fold_count(flags: Seq<MFlag>)
    requires
        flags.len() <= u32::MAX,
        forall|k: int| 0 <= k < flags.len() ==> #[trigger] flags[k] <= 1,
    ensures
        fold::<u32, SumU32>(0u32, flags) == count_set(flags),
    decreases flags.len(),
{
    if flags.len() > 0 {
        let prev = flags.drop_last();
        lemma_sum_fold_count(prev);
        crate::selection::lemma_selected_indices(flags, prev);
    }
}

/// Maps every item to its canonical `0`/`1` predicate flag.
pub fn predicate_map<T: Copy, Pred: PredicateOp<T>>(input: &Vec<T>, pred: Pred) -> (flags: Vec<
    MFlag,
>)
    ensures
        flags@ == truth(predicate_flags::<T, Pred>(input@)),
{
    let n = input.len();
    let mut flags: Vec<MFlag> = Vec::new();
    let mut i: usize = 0;
    while i < n
        invariant
            n == input.len(),
            i <= n,
            flags.len() == i,
            forall|k: int|
                0 <= k < i ==> #[trigger] flags@[k] == truth(predicate_flags::<T, Pred>(input@))[k],
        decreases n - i,
    {
        let passes = crate::flag::is_set(Pred::apply(input[i]));
        flags.push(crate::flag::from_bool(passes));
        i = i + 1;
    }
    proof {
        assert(flags@ =~= truth(predicate_flags::<T, Pred>(input@)));
    }
    flags
}

/// Counts the items satisfying `pred`.
pub fn count_if<T: Copy, Pred: PredicateOp<T>>(input: &Vec<T>, pred: Pred) -> (count: MIndex)
    requires
        input.len() <= u32::MAX,
    ensures
        count == count_set(predicate_flags::<T, Pred>(input@)),
{
    let flags = predicate_map(input, pred);
    let count = reduce::<u32, SumU32>(&flags, 0u32, SumU32);
    proof {
        lemma_sum_fold_count(flags@);
        crate::selection::lemma_truth_same(input@, predicate_flags::<T, Pred>(input@));
    }
    count
}

/// Maps every item to its index where its flag is set and `u32::MAX` elsewhere.
pub(crate) fn index_map(flags: &Vec<MFlag>) -> (indices: Vec<u32>)
    requires
        flags.len() <= u32::MAX,
    ensures
        indices@ == index_or_max(flags@),
{
    let n = flags.len();
    let mut indices: Vec<u32> = Vec::new();
    let mut i: usize = 0;
    while i < n
        invariant
            n == flags.len(),
            n <= u32::MAX,
            i <= n,
            indices.len() == i,
            forall|k: int| 0 <= k < i ==> #[trigger] indices@[k] == index_or_max(flags@)[k],
        decreases n - i,
    {
        indices.push(if flags[i] != 0u32 { i as u32 } else { u32::MAX });
        i = i + 1;
    }
    proof {
        assert(indices@ =~= index_or_max(flags@));
    }
    indices
}

/// Returns the index of the first item satisfying `pred`, or `u32::MAX` when
/// no item does.
pub fn find_if<T: Copy, Pred: PredicateOp<T>>(input: &Vec<T>, pred: Pred) -> (index: MIndex)
    requires
        input.len() <= u32::MAX,
    ensures
        index == first_set_index(predicate_flags::<T, Pred>(input@)),
        index == u32::MAX <==> forall|k: int|
            0 <= k < input.len() ==> #[trigger] Pred::spec_apply(input@[k]) == 0,
        index != u32::MAX ==> index < input.len() && Pred::spec_apply(input@[index as int]) != 0
            && forall|k: int| 0 <= k < index ==> #[trigger] Pred::spec_apply(input@[k]) == 0,
{
    let flags = predicate_map(input, pred);
    let indices = index_map(&flags);
    let index = reduce::<u32, MinU32>(&indices, u32::MAX, MinU32);
    proof {
        let raw = predicate_flags::<T, Pred>(input@);
        lemma_min_fold_first(flags@);
        lemma_first_set_index(flags@);
        lemma_first_set_index(raw);
        lemma_first_set_same(raw);
        assert forall|k: int| 0 <= k < input.len() implies #[trigger] Pred::spec_apply(input@[k])
            == raw[k] by {}
    }
    index
}

/// Normalizing the flags does not move the first set index.
proof fn lemma_first_set_same(flags: Seq<MFlag>)
    ensures
        first_set_index(truth(flags)) == first_set_index(flags),
    decreases flags.len(),
{
    if flags.len() > 0 {
        assert(truth(flags).drop_last() =~= truth(flags.drop_last()));
        lemma_first_set_same(flags.drop_last());
    }
}

/// Flags of the partition violations: item `i > 0` fails `pred` at `i - 1`
/// and passes it at `i`.
pub open spec fn violation_flags<T, Pred: PredicateOp<T>>(s: Seq<T>) -> Seq<MFlag> {
    Seq::new(
        s.len(),
        |i: int|
            if i > 0 && Pred::spec_apply(s[i - 1]) == 0 && Pred::spec_apply(s[i]) != 0 {
                1u32
            } else {
                0u32
            },
    )
}

/// Returns the first index at which a passing item follows a failing one, or
/// `u32::MAX` when every passing item precedes every failing item.
pub fn is_partitioned<T: Copy, Pred: PredicateOp<T>>(input: &Vec<T>, pred: Pred) -> (index: MIndex)
    requires
        input.len() <= u32::MAX,
    ensures
        index == first_set_index(violation_flags::<T, Pred>(input@)),
        index == u32::MAX <==> forall|i: int, j: int|
            #![trigger input@[i], input@[j]]
            0 <= i < j < input.len() && Pred::spec_apply(input@[i]) == 0 ==> Pred::spec_apply(
                input@[j],
            ) == 0,
{
    let n = input.len();
    let mut violations: Vec<MFlag> = Vec::new();
    let mut i: usize = 0;
    while i < n
        invariant
            n == input.len(),
            i <= n,
            violations.len() == i,
            forall|k: int|
                0 <= k < i ==> #[trigger] violations@[k] == violation_flags::<T, Pred>(input@)[k],
        decreases n - i,
    {
        let flag = if i > 0 && Pred::apply(input[i - 1]) == 0 && Pred::apply(input[i]) != 0 {
            1u32
        } else {
            0u32
        };
        violations.push(flag);
        i = i + 1;
    }
    proof {
        assert(violations@ =~= violation_flags::<T, Pred>(input@));
    }
    let indices = index_map(&violations);
    let index = reduce::<u32, MinU32>(&indices, u32::MAX, MinU32);
    proof {
        let v = violation_flags::<T, Pred>(input@);
        lemma_min_fold_first(v);
        lemma_first_set_index(v);
        if index == u32::MAX {
            // No violation: once an item fails, every later item fails.
            assert forall|a: int, b: int|
                #![trigger input@[a], input@[b]]
                0 <= a < b < input.len() && Pred::spec_apply(input@[a]) == 0 implies Pred::spec_apply(
                input@[b],
            ) == 0 by {
                lemma_fails_onward::<T, Pred>(input@, a, b);
            }
        } else {
            let w = index as int;
            assert(v[w] != 0);
            assert(Pred::spec_apply(input@[w - 1]) == 0 && Pred::spec_apply(input@[w]) != 0);
        }
    }
    index
}

proof fn lemma_fails_onward<T, Pred: PredicateOp<T>>(s: Seq<T>, a: int, b: int)
    requires
        0 <= a < b < s.len(),
        Pred::spec_apply(s[a]) == 0,
        forall|k: int| 0 <= k < s.len() ==> #[trigger] violation_flags::<T, Pred>(s)[k] == 0,
    ensures
        Pred::spec_apply(s[b]) == 0,
    decreases b - a,
{
    if b > a + 1 {
        lemma_fails_onward::<T, Pred>(s, a, b - 1);
    }
    assert(violation_flags::<T, Pred>(s)[b] == 0);
}

/// Inclusive scan of the predicate flags: item `i` counts the items in
/// `input[0..=i]` that satisfy `pred`.
pub fn predicate_positions<T: Copy, Pred: PredicateOp<T>>(input: &Vec<T>, pred: Pred) -> (positions:
    Vec<u32>)
    requires
        input.len() <= u32::MAX,
    ensures
        positions.len() == input.len(),
        forall|i: int|
            0 <= i < input.len() ==> #[trigger] positions@[i] == count_set(
                predicate_flags::<T, Pred>(input@).take(i + 1),
            ),
{
    let flags = predicate_map(input, pred);
    let positions = inclusive_scan::<u32, SumU32>(&flags, SumU32);
    proof {
        let raw = predicate_flags::<T, Pred>(input@);
        assert forall|i: int| 0 <= i < input.len() implies #[trigger] positions@[i] == count_set(
            raw.take(i + 1),
        ) by {
            lemma_positions_count(flags@, i);
            assert(flags@.take(i + 1) =~= truth(raw.take(i + 1)));
            crate::selection::lemma_truth_same(raw, raw.take(i + 1));
        }
    }
    positions
}

} // verus!
