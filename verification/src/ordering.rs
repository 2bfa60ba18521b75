//! Ordering queries and transforms: adjacent search, sortedness, stable
//! deduplication and extremum positions.

use vstd::prelude::*;

use crate::error::Error;
use crate::merge::before;
use crate::op::{BinaryPredicateOp, MinU32, StrictWeakOrder};
use crate::predicate::{first_set_index, index_map, lemma_first_set_index, lemma_min_fold_first};
use crate::reduce::reduce;
use crate::selection::{copy_selected, lemma_selected_indices, selected, SelectionControl, lemma_chosen_selected};
use crate::{MFlag, MIndex};

verus! {

/// Flag `i` is set when `equal(s[i], s[i + 1])` is.
pub open spec fn adjacent_match_flags<T, Equal: BinaryPredicateOp<T>>(s: Seq<T>) -> Seq<MFlag> {
    Seq::new(
        s.len(),
        |i: int|
            if i + 1 < s.len() && Equal::spec_apply(s[i], s[i + 1]) != 0 {
                1u32
            } else {
                0u32
            },
    )
}

/// Flag `i` is set when `i > 0` and `s[i]` is strictly less than `s[i - 1]`.
pub open spec fn sorted_break_flags<T, Less: BinaryPredicateOp<T>>(s: Seq<T>) -> Seq<MFlag> {
    Seq::new(
        s.len(),
        |i: int| if i > 0 && before::<T, Less>(s[i], s[i - 1]) { 1u32 } else { 0u32 },
    )
}

/// Flag `i` is set when `s[i]` starts a run of equal items: the first item,
/// and each item not equal to its predecessor.
pub open spec fn unique_head_flags<T, Equal: BinaryPredicateOp<T>>(s: Seq<T>) -> Seq<MFlag> {
    Seq::new(
        s.len(),
        |i: int| if i == 0 || Equal::spec_apply(s[i - 1], s[i]) == 0 { 1u32 } else { 0u32 },
    )
}

/// Run heads are exactly the first item and the items not equal to their
/// predecessor; `unique_into` keeps those items.
pub proof fn law_unique_heads_are_run_starts<T, Equal: BinaryPredicateOp<T>>(s: Seq<T>)
    ensures
        unique_head_flags::<T, Equal>(s).len() == s.len(),
        s.len() > 0 ==> unique_head_flags::<T, Equal>(s)[0] != 0,
        forall|i: int|
            0 < i < s.len() ==> (#[trigger] unique_head_flags::<T, Equal>(s)[i] != 0 <==> Equal::spec_apply(
                s[i - 1],
                s[i],
            ) == 0),
{
}

/// Computes `0`/`1` flags from a binary predicate over adjacent items.
fn adjacent_flags<T: Copy, Op: BinaryPredicateOp<T>>(input: &Vec<T>, heads: bool) -> (flags: Vec<
    MFlag,
>)
    ensures
        heads ==> flags@ == unique_head_flags::<T, Op>(input@),
        !heads ==> flags@ == adjacent_match_flags::<T, Op>(input@),
{
    let n = input.len();
    let mut flags: Vec<MFlag> = Vec::new();
    let mut i: usize = 0;
    while i < n
        invariant
            n == input.len(),
            i <= n,
            flags.len() == i,
            heads ==> forall|k: int|
                0 <= k < i ==> #[trigger] flags@[k] == unique_head_flags::<T, Op>(input@)[k],
            !heads ==> forall|k: int|
                0 <= k < i ==> #[trigger] flags@[k] == adjacent_match_flags::<T, Op>(input@)[k],
        decreases n - i,
    {
        let flag = if heads {
            if i == 0 || Op::apply(input[i - 1], input[i]) == 0 {
                1u32
            } else {
                0u32
            }
        } else if i + 1 < n && Op::apply(input[i], input[i + 1]) != 0 {
            1u32
        } else {
            0u32
        };
        flags.push(flag);
        i = i + 1;
    }
    proof {
        if heads {
            assert(flags@ =~= unique_head_flags::<T, Op>(input@));
        } else {
            assert(flags@ =~= adjacent_match_flags::<T, Op>(input@));
        }
    }
    flags
}

/// Returns the first `i` with `equal(input[i], input[i + 1])`, or `u32::MAX`
/// when no two adjacent items are equal.
pub fn adjacent_find<T: Copy, Equal: BinaryPredicateOp<T>>(input: &Vec<T>, equal: Equal) -> (index:
    MIndex)
    requires
        input.len() <= u32::MAX,
    ensures
        index == first_set_index(adjacent_match_flags::<T, Equal>(input@)),
        index == u32::MAX <==> forall|k: int|
            0 <= k < input.len() - 1 ==> #[trigger] Equal::spec_apply(input@[k], input@[k + 1]) == 0,
        index != u32::MAX ==> index + 1 < input.len() && Equal::spec_apply(
            input@[index as int],
            input@[index + 1],
        ) != 0 && forall|k: int|
            0 <= k < index ==> #[trigger] Equal::spec_apply(input@[k], input@[k + 1]) == 0,
{
    let flags = adjacent_flags::<T, Equal>(input, false);
    let indices = index_map(&flags);
    let index = reduce::<u32, MinU32>(&indices, u32::MAX, MinU32);
    proof {
        let f = adjacent_match_flags::<T, Equal>(input@);
        lemma_min_fold_first(f);
        lemma_first_set_index(f);
        assert forall|k: int| 0 <= k < input.len() - 1 implies #[trigger] Equal::spec_apply(
            input@[k],
            input@[k + 1],
        ) == 0 <==> f[k] == 0 by {}
        if index == u32::MAX {
            assert forall|k: int| 0 <= k < input.len() - 1 implies #[trigger] Equal::spec_apply(
                input@[k],
                input@[k + 1],
            ) == 0 by {
                assert(f[k] == 0);
            }
        }
        if forall|k: int|
            0 <= k < input.len() - 1 ==> #[trigger] Equal::spec_apply(input@[k], input@[k + 1]) == 0 {
            assert forall|k: int| 0 <= k < f.len() implies #[trigger] f[k] == 0 by {
                if k < input.len() - 1 {
                    assert(Equal::spec_apply(input@[k], input@[k + 1]) == 0);
                }
            }
        }
    }
    index
}

/// Returns the first index `i > 0` at which `input[i]` is strictly less than
/// `input[i - 1]`, or `u32::MAX` when the input is sorted.
pub fn is_sorted_until<T: Copy, Less: BinaryPredicateOp<T>>(input: &Vec<T>, less: Less) -> (index:
    MIndex)
    requires
        input.len() <= u32::MAX,
    ensures
        index == first_set_index(sorted_break_flags::<T, Less>(input@)),
        index == u32::MAX <==> forall|k: int|
            0 < k < input.len() ==> !before::<T, Less>(#[trigger] input@[k], input@[k - 1]),
        index != u32::MAX ==> 0 < index < input.len() && before::<T, Less>(
            input@[index as int],
            input@[index - 1],
        ) && forall|k: int|
            0 < k < index ==> !before::<T, Less>(#[trigger] input@[k], input@[k - 1]),
{
    let n = input.len();
    let mut flags: Vec<MFlag> = Vec::new();
    let mut i: usize = 0;
    while i < n
        invariant
            n == input.len(),
            i <= n,
            flags.len() == i,
            forall|k: int|
                0 <= k < i ==> #[trigger] flags@[k] == sorted_break_flags::<T, Less>(input@)[k],
        decreases n - i,
    {
        let flag = if i > 0 && Less::apply(input[i], input[i - 1]) != 0 {
            1u32
        } else {
            0u32
        };
        flags.push(flag);
        i = i + 1;
    }
    let indices = index_map(&flags);
    let index = reduce::<u32, MinU32>(&indices, u32::MAX, MinU32);
    proof {
        let f = sorted_break_flags::<T, Less>(input@);
        assert(flags@ =~= f);
        lemma_min_fold_first(f);
        lemma_first_set_index(f);
        if index == u32::MAX {
            assert forall|k: int| 0 < k < input.len() implies !before::<T, Less>(
                #[trigger] input@[k],
                input@[k - 1],
            ) by {
                assert(f[k] == 0);
            }
        }
        if forall|k: int| 0 < k < input.len() ==> !before::<T, Less>(#[trigger] input@[k], input@[k - 1]) {
            assert forall|k: int| 0 <= k < f.len() implies #[trigger] f[k] == 0 by {
                if k > 0 {
                    assert(!before::<T, Less>(input@[k], input@[k - 1]));
                }
            }
        }
        if index != u32::MAX {
            assert forall|k: int| 0 < k < index implies !before::<T, Less>(
                #[trigger] input@[k],
                input@[k - 1],
            ) by {
                assert(f[k] == 0);
            }
        }
    }
    index
}

/// Returns the first sorted break of `input`, as `is_sorted_until` does; the
/// input is sorted exactly when the result is `u32::MAX`.
pub fn is_sorted<T: Copy, Less: BinaryPredicateOp<T>>(input: &Vec<T>, less: Less) -> (index: MIndex)
    requires
        input.len() <= u32::MAX,
    ensures
        index == first_set_index(sorted_break_flags::<T, Less>(input@)),
        index == u32::MAX <==> forall|k: int|
            0 < k < input.len() ==> !before::<T, Less>(#[trigger] input@[k], input@[k - 1]),
{
    is_sorted_until(input, less)
}

/// Stably copies the first item of every run of equal items to the front of
/// `output` and returns how many were copied.
///
/// Error: `OutputTooShort { input: input length, output: output length }` when
/// the output is shorter than the input; the output is then unchanged.
pub fn unique_into<T: Copy, Equal: BinaryPredicateOp<T>>(
    input: &Vec<T>,
    equal: Equal,
    output: &mut Vec<T>,
) -> (result: Result<u32, Error>)
    requires
        input.len() <= u32::MAX,
    ensures
        old(output).len() < input.len() ==> result == Err::<u32, Error>(
            Error::OutputTooShort { input: input.len() as usize, output: old(output).len() as usize },
        ) && final(output)@ == old(output)@,
        old(output).len() >= input.len() ==> ({
            let kept = selected(input@, unique_head_flags::<T, Equal>(input@));
            &&& result == Ok::<u32, Error>(kept.len() as u32)
            &&& final(output).len() == old(output).len()
            &&& final(output)@.take(kept.len() as int) == kept
            &&& final(output)@.skip(kept.len() as int) == old(output)@.skip(kept.len() as int)
        }),
{
    let flags = adjacent_flags::<T, Equal>(input, true);
    proof {
        lemma_selected_indices(input@, flags@);
    }
    let control = SelectionControl::from_flags(&flags);
    proof {
        lemma_chosen_selected(input@, control, flags@);
    }
    copy_selected(input, &control, output)
}

/// The index a left-to-right scan of `s[0..n]` ends on, when the current pick
/// `b` is replaced by the next index `i` whenever `wins(s[b], s[i])`.
pub open spec fn arg_pick<T>(s: Seq<T>, n: int, wins: spec_fn(T, T) -> bool) -> int
    decreases n,
{
    if n <= 1 {
        0
    } else {
        let b = arg_pick(s, n - 1, wins);
        if wins(s[b], s[n - 1]) {
            n - 1
        } else {
            b
        }
    }
}

/// A candidate wins when strictly less: the first minimum.
pub open spec fn min_first_wins<T, Less: BinaryPredicateOp<T>>() -> spec_fn(T, T) -> bool {
    |current: T, candidate: T| before::<T, Less>(candidate, current)
}

/// A candidate wins unless strictly greater: the last minimum.
pub open spec fn min_last_wins<T, Less: BinaryPredicateOp<T>>() -> spec_fn(T, T) -> bool {
    |current: T, candidate: T| !before::<T, Less>(current, candidate)
}

/// A candidate wins when strictly greater: the first maximum.
pub open spec fn max_first_wins<T, Less: BinaryPredicateOp<T>>() -> spec_fn(T, T) -> bool {
    |current: T, candidate: T| before::<T, Less>(current, candidate)
}

/// Scans `input` for the position `arg_pick` describes; `mode` 0 keeps the
/// first minimum, 1 the last minimum and 2 the first maximum.
fn arg_scan<T: Copy, Less: BinaryPredicateOp<T>>(input: &Vec<T>, mode: u8) -> (index: usize)
    requires
        input.len() > 0,
        mode <= 2,
    ensures
        mode == 0 ==> index == arg_pick(input@, input.len() as int, min_first_wins::<T, Less>()),
        mode == 1 ==> index == arg_pick(input@, input.len() as int, min_last_wins::<T, Less>()),
        mode == 2 ==> index == arg_pick(input@, input.len() as int, max_first_wins::<T, Less>()),
        index < input.len(),
{
    let ghost wins = if mode == 0 {
        min_first_wins::<T, Less>()
    } else if mode == 1 {
        min_last_wins::<T, Less>()
    } else {
        max_first_wins::<T, Less>()
    };
    let n = input.len();
    let mut best: usize = 0;
    let mut i: usize = 1;
    while i < n
        invariant
            n == input.len(),
            1 <= i <= n,
            best < i,
            mode <= 2,
            wins == (if mode == 0 {
                min_first_wins::<T, Less>()
            } else if mode == 1 {
                min_last_wins::<T, Less>()
            } else {
                max_first_wins::<T, Less>()
            }),
            best == arg_pick(input@, i as int, wins),
        decreases n - i,
    {
        let candidate = input[i];
        let current = input[best];
        let replace = if mode == 0 {
            Less::apply(candidate, current) != 0
        } else if mode == 1 {
            Less::apply(current, candidate) == 0
        } else {
            Less::apply(current, candidate) != 0
        };
        if replace {
            best = i;
        }
        i = i + 1;
    }
    best
}

/// Returns the index of the first minimum of `input` under `less`, or
/// `u32::MAX` when the input is empty.
pub fn min_element<T: Copy, Less: BinaryPredicateOp<T>>(input: &Vec<T>, less: Less) -> (index: MIndex)
    requires
        input.len() <= u32::MAX,
    ensures
        input.len() == 0 ==> index == u32::MAX,
        input.len() > 0 ==> index == arg_pick(input@, input.len() as int, min_first_wins::<T, Less>()),
{
    if input.len() == 0 {
        return u32::MAX;
    }
    arg_scan::<T, Less>(input, 0) as u32
}

/// Returns the index of the first maximum of `input` under `less`, or
/// `u32::MAX` when the input is empty.
pub fn max_element<T: Copy, Less: BinaryPredicateOp<T>>(input: &Vec<T>, less: Less) -> (index: MIndex)
    requires
        input.len() <= u32::MAX,
    ensures
        input.len() == 0 ==> index == u32::MAX,
        input.len() > 0 ==> index == arg_pick(input@, input.len() as int, max_first_wins::<T, Less>()),
{
    if input.len() == 0 {
        return u32::MAX;
    }
    arg_scan::<T, Less>(input, 2) as u32
}

/// Returns the indices of the last minimum and the first maximum of `input`
/// under `less`, or `u32::MAX` for both when the input is empty.
pub fn minmax_element<T: Copy, Less: BinaryPredicateOp<T>>(input: &Vec<T>, less: Less) -> (indices: (
    MIndex,
    MIndex,
))
    requires
        input.len() <= u32::MAX,
    ensures
        input.len() == 0 ==> indices == (u32::MAX, u32::MAX),
        input.len() > 0 ==> indices.0 == arg_pick(input@, input.len() as int, min_last_wins::<T, Less>()),
        input.len() > 0 ==> indices.1 == arg_pick(input@, input.len() as int, max_first_wins::<T, Less>()),
{
    if input.len() == 0 {
        return (u32::MAX, u32::MAX);
    }
    let minimum = arg_scan::<T, Less>(input, 1) as u32;
    let maximum = arg_scan::<T, Less>(input, 2) as u32;
    (minimum, maximum)
}

/// Under a strict weak order the first-minimum scan ends on a minimum that no
/// earlier item equals: nothing is less than it, and it is less than every
/// earlier item.
pub proof fn law_min_element_is_first_minimum<T, Less: StrictWeakOrder<T>>(s: Seq<T>, n: int)
    requires
        0 < n <= s.len(),
    ensures
        ({
            let r = arg_pick(s, n, min_first_wins::<T, Less>());
            &&& 0 <= r < n
            &&& forall|j: int| 0 <= j < n ==> !before::<T, Less>(#[trigger] s[j], s[r])
            &&& forall|j: int| 0 <= j < r ==> before::<T, Less>(s[r], #[trigger] s[j])
        }),
    decreases n,
{
    if n > 1 {
        law_min_element_is_first_minimum::<T, Less>(s, n - 1);
        let b = arg_pick(s, n - 1, min_first_wins::<T, Less>());
        let r = arg_pick(s, n, min_first_wins::<T, Less>());
        if before::<T, Less>(s[n - 1], s[b]) {
            assert forall|j: int| 0 <= j < n implies !before::<T, Less>(#[trigger] s[j], s[r]) by {
                if j == n - 1 {
                    Less::irreflexive(s[j]);
                } else if before::<T, Less>(s[j], s[n - 1]) {
                    Less::transitive(s[j], s[n - 1], s[b]);
                }
            }
            assert forall|j: int| 0 <= j < r implies before::<T, Less>(s[r], #[trigger] s[j]) by {
                Less::weak(s[n - 1], s[j], s[b]);
            }
        }
    } else {
        Less::irreflexive(s[0]);
    }
}

/// Under a strict weak order the last-minimum scan ends on a minimum that no
/// later item equals: nothing is less than it, and it is less than every
/// later item.
pub proof fn law_minmax_element_is_last_minimum<T, Less: StrictWeakOrder<T>>(s: Seq<T>, n: int)
    requires
        0 < n <= s.len(),
    ensures
        ({
            let r = arg_pick(s, n, min_last_wins::<T, Less>());
            &&& 0 <= r < n
            &&& forall|j: int| 0 <= j < n ==> !before::<T, Less>(#[trigger] s[j], s[r])
            &&& forall|j: int| r < j < n ==> before::<T, Less>(s[r], #[trigger] s[j])
        }),
    decreases n,
{
    if n > 1 {
        law_minmax_element_is_last_minimum::<T, Less>(s, n - 1);
        let b = arg_pick(s, n - 1, min_last_wins::<T, Less>());
        let r = arg_pick(s, n, min_last_wins::<T, Less>());
        if !before::<T, Less>(s[b], s[n - 1]) {
            assert forall|j: int| 0 <= j < n implies !before::<T, Less>(#[trigger] s[j], s[r]) by {
                if j == n - 1 {
                    Less::irreflexive(s[j]);
                } else if before::<T, Less>(s[j], s[n - 1]) {
                    Less::weak(s[j], s[b], s[n - 1]);
                }
            }
        } else {
            if before::<T, Less>(s[n - 1], s[b]) {
                Less::transitive(s[b], s[n - 1], s[b]);
                Less::irreflexive(s[b]);
            }
            assert(before::<T, Less>(s[r], s[n - 1]));
        }
    } else {
        Less::irreflexive(s[0]);
    }
}

/// Under a strict weak order the first-maximum scan ends on a maximum that no
/// earlier item equals: it is less than nothing, and every earlier item is
/// less than it.
pub proof fn law_max_element_is_first_maximum<T, Less: StrictWeakOrder<T>>(s: Seq<T>, n: int)
    requires
        0 < n <= s.len(),
    ensures
        ({
            let r = arg_pick(s, n, max_first_wins::<T, Less>());
            &&& 0 <= r < n
            &&& forall|j: int| 0 <= j < n ==> !before::<T, Less>(s[r], #[trigger] s[j])
            &&& forall|j: int| 0 <= j < r ==> before::<T, Less>(#[trigger] s[j], s[r])
        }),
    decreases n,
{
    if n > 1 {
        law_max_element_is_first_maximum::<T, Less>(s, n - 1);
        let b = arg_pick(s, n - 1, max_first_wins::<T, Less>());
        let r = arg_pick(s, n, max_first_wins::<T, Less>());
        if before::<T, Less>(s[b], s[n - 1]) {
            assert forall|j: int| 0 <= j < n implies !before::<T, Less>(s[r], #[trigger] s[j]) by {
                if j == n - 1 {
                    Less::irreflexive(s[j]);
                } else if before::<T, Less>(s[n - 1], s[j]) {
                    Less::transitive(s[b], s[n - 1], s[j]);
                }
            }
            assert forall|j: int| 0 <= j < r implies before::<T, Less>(#[trigger] s[j], s[r]) by {
                Less::weak(s[b], s[j], s[n - 1]);
            }
        }
    } else {
        Less::irreflexive(s[0]);
    }
}

} // verus!
