//! Ordered multiset algorithms (union, intersection, difference) composed from
//! binary searches, stable selection and merge.

use vstd::prelude::*;

use crate::error::Error;
use crate::merge::{before, merge_into, merged, merged_by, sorted_by};
use crate::runtime::copy_items;
use crate::op::StrictWeakOrder;
use crate::selection::{copy_selected, count_set, lemma_selected_indices, selected, selected_indices, SelectionControl, lemma_chosen_selected};
use crate::MFlag;

verus! {

/// Neither item is less than the other.
pub open spec fn equiv<T, Less: StrictWeakOrder<T>>(x: T, y: T) -> bool {
    !before::<T, Less>(x, y) && !before::<T, Less>(y, x)
}

/// Number of items of `s` equivalent to `v`.
pub open spec fn count_equiv<T, Less: StrictWeakOrder<T>>(s: Seq<T>, v: T) -> nat
    decreases s.len(),
{
    if s.len() == 0 {
        0
    } else {
        count_equiv::<T, Less>(s.drop_last(), v) + if equiv::<T, Less>(s.last(), v) {
            1nat
        } else {
            0nat
        }
    }
}

/// Occurrence flags of `own` against `other`: the item at `i`, the `r`-th of
/// its equivalents in `own` (counting from zero), is flagged when `r` is below
/// the number of its equivalents in `other` exactly when `matched` is true.
pub open spec fn occurrence_flags<T, Less: StrictWeakOrder<T>>(
    own: Seq<T>,
    other: Seq<T>,
    matched: bool,
) -> Seq<MFlag> {
    Seq::new(
        own.len(),
        |i: int|
            if (count_equiv::<T, Less>(own.take(i), own[i]) < count_equiv::<T, Less>(other, own[i]))
                == matched {
                1u32
            } else {
                0u32
            },
    )
}

/// The items of the multiset intersection, in `left` order.
pub open spec fn intersection<T, Less: StrictWeakOrder<T>>(left: Seq<T>, right: Seq<T>) -> Seq<T> {
    selected(left, occurrence_flags::<T, Less>(left, right, true))
}

/// The items of the multiset difference `left - right`, in `left` order.
pub open spec fn difference<T, Less: StrictWeakOrder<T>>(left: Seq<T>, right: Seq<T>) -> Seq<T> {
    selected(left, occurrence_flags::<T, Less>(left, right, false))
}

/// The multiset union: `left` merged with the items of `right` beyond the
/// multiplicity `left` already has.
pub open spec fn union<T, Less: StrictWeakOrder<T>>(left: Seq<T>, right: Seq<T>) -> Seq<T> {
    merged::<T, Less>(left, selected(right, occurrence_flags::<T, Less>(right, left, false)))
}

/// An item before `v` in a sorted range has every earlier item before `v` too.
proof fn lemma_before_prefix<T, Less: StrictWeakOrder<T>>(s: Seq<T>, v: T, j: int, m: int)
    requires
        sorted_by::<T, Less>(s),
        0 <= j < m < s.len(),
        before::<T, Less>(s[m], v),
    ensures
        before::<T, Less>(s[j], v),
{
    Less::weak(s[m], s[j], v);
}

/// An item after `v` in a sorted range has every later item after `v` too.
proof fn lemma_after_suffix<T, Less: StrictWeakOrder<T>>(s: Seq<T>, v: T, m: int, j: int)
    requires
        sorted_by::<T, Less>(s),
        0 <= m < j < s.len(),
        before::<T, Less>(v, s[m]),
    ensures
        before::<T, Less>(v, s[j]),
{
    Less::weak(v, s[j], s[m]);
}

/// Counting equivalents when they fill exactly the positions `lo..hi`.
proof fn lemma_count_window<T, Less: StrictWeakOrder<T>>(s: Seq<T>, v: T, lo: int, hi: int)
    requires
        0 <= lo <= hi <= s.len(),
        forall|j: int| 0 <= j < s.len() ==> (equiv::<T, Less>(#[trigger] s[j], v) <==> lo <= j < hi),
    ensures
        count_equiv::<T, Less>(s, v) == hi - lo,
    decreases s.len(),
{
    if s.len() > 0 {
        let prev = s.drop_last();
        let n = s.len() - 1;
        assert forall|j: int| 0 <= j < prev.len() implies (equiv::<T, Less>(#[trigger] prev[j], v)
            <==> lo <= j < (if hi > n { n } else { hi })) by {
            assert(prev[j] == s[j]);
        }
        if hi > n {
            lemma_count_window::<T, Less>(prev, v, if lo > n { n } else { lo }, n);
            assert(equiv::<T, Less>(s[n], v) == (lo <= n));
        } else {
            lemma_count_window::<T, Less>(prev, v, lo, hi);
            assert(!equiv::<T, Less>(s[n], v));
        }
    }
}

/// The first index below `hi` whose item is not before `v`.
fn lower_bound_by<T: Copy, Less: StrictWeakOrder<T>>(s: &Vec<T>, hi: usize, v: T) -> (index: usize)
    requires
        sorted_by::<T, Less>(s@),
        hi <= s.len(),
    ensures
        index <= hi,
        forall|j: int| 0 <= j < index ==> before::<T, Less>(#[trigger] s@[j], v),
        forall|j: int| index <= j < hi ==> !before::<T, Less>(#[trigger] s@[j], v),
{
    let mut low: usize = 0;
    let mut high: usize = hi;
    while low < high
        invariant
            sorted_by::<T, Less>(s@),
            hi <= s.len(),
            low <= high <= hi,
            forall|j: int| 0 <= j < low ==> before::<T, Less>(#[trigger] s@[j], v),
            forall|j: int| high <= j < hi ==> !before::<T, Less>(#[trigger] s@[j], v),
        decreases high - low,
    {
        let middle = low + (high - low) / 2;
        if Less::apply(s[middle], v) != 0 {
            proof {
                assert forall|j: int| 0 <= j < middle + 1 implies before::<T, Less>(
                    #[trigger] s@[j],
                    v,
                ) by {
                    if j < middle {
                        lemma_before_prefix::<T, Less>(s@, v, j, middle as int);
                    }
                }
            }
            low = middle + 1;
        } else {
            proof {
                assert forall|j: int| middle <= j < hi implies !before::<T, Less>(
                    #[trigger] s@[j],
                    v,
                ) by {
                    if middle < j && j < high && before::<T, Less>(s@[j], v) {
                        lemma_before_prefix::<T, Less>(s@, v, middle as int, j);
                    }
                }
            }
            high = middle;
        }
    }
    low
}

/// The first index in `lo..hi` whose item is after `v`.
fn upper_bound_by<T: Copy, Less: StrictWeakOrder<T>>(s: &Vec<T>, lo: usize, hi: usize, v: T) -> (index:
    usize)
    requires
        sorted_by::<T, Less>(s@),
        lo <= hi <= s.len(),
    ensures
        lo <= index <= hi,
        forall|j: int| lo <= j < index ==> !before::<T, Less>(v, #[trigger] s@[j]),
        forall|j: int| index <= j < hi ==> before::<T, Less>(v, #[trigger] s@[j]),
{
    let mut low: usize = lo;
    let mut high: usize = hi;
    while low < high
        invariant
            sorted_by::<T, Less>(s@),
            hi <= s.len(),
            lo <= low <= high <= hi,
            forall|j: int| lo <= j < low ==> !before::<T, Less>(v, #[trigger] s@[j]),
            forall|j: int| high <= j < hi ==> before::<T, Less>(v, #[trigger] s@[j]),
        decreases high - low,
    {
        let middle = low + (high - low) / 2;
        if Less::apply(v, s[middle]) == 0 {
            proof {
                assert forall|j: int| lo <= j < middle + 1 implies !before::<T, Less>(
                    v,
                    #[trigger] s@[j],
                ) by {
                    if low <= j && j < middle && before::<T, Less>(v, s@[j]) {
                        lemma_after_suffix::<T, Less>(s@, v, j, middle as int);
                    }
                }
            }
            low = middle + 1;
        } else {
            proof {
                assert forall|j: int| middle <= j < hi implies before::<T, Less>(
                    v,
                    #[trigger] s@[j],
                ) by {
                    if middle < j {
                        lemma_after_suffix::<T, Less>(s@, v, middle as int, j);
                    }
                }
            }
            high = middle;
        }
    }
    low
}

/// Flags each item of sorted `own` by comparing its rank among its
/// equivalents in `own` with the number of its equivalents in sorted `other`.
pub fn occurrence_flags_direct<T: Copy, Less: StrictWeakOrder<T>>(
    own: &Vec<T>,
    other: &Vec<T>,
    matched: bool,
    less: Less,
) -> (flags: Vec<MFlag>)
    requires
        sorted_by::<T, Less>(own@),
        sorted_by::<T, Less>(other@),
    ensures
        flags@ == occurrence_flags::<T, Less>(own@, other@, matched),
{
    let n = own.len();
    let mut flags: Vec<MFlag> = Vec::new();
    let mut i: usize = 0;
    while i < n
        invariant
            n == own.len(),
            i <= n,
            sorted_by::<T, Less>(own@),
            sorted_by::<T, Less>(other@),
            flags@ == occurrence_flags::<T, Less>(own@, other@, matched).take(i as int),
        decreases n - i,
    {
        let v = own[i];
        let own_low = lower_bound_by::<T, Less>(own, i, v);
        let other_low = lower_bound_by::<T, Less>(other, other.len(), v);
        let other_high = upper_bound_by::<T, Less>(other, other_low, other.len(), v);
        proof {
            let prefix = own@.take(i as int);
            assert forall|j: int| 0 <= j < prefix.len() implies (equiv::<T, Less>(
                #[trigger] prefix[j],
                v,
            ) <==> own_low <= j < i) by {
                assert(prefix[j] == own@[j]);
                if j >= own_low {
                    assert(!before::<T, Less>(own@[i as int], own@[j]));
                }
            }
            lemma_count_window::<T, Less>(prefix, v, own_low as int, i as int);
            assert forall|j: int| 0 <= j < other@.len() implies (equiv::<T, Less>(
                #[trigger] other@[j],
                v,
            ) <==> other_low <= j < other_high) by {
                if j < other_low {
                    if before::<T, Less>(v, other@[j]) {
                        Less::transitive(v, other@[j], v);
                        Less::irreflexive(v);
                    }
                }
            }
            lemma_count_window::<T, Less>(other@, v, other_low as int, other_high as int);
        }
        let rank = i - own_low;
        let count = other_high - other_low;
        let flag: MFlag = if (rank < count) == matched {
            1
        } else {
            0
        };
        flags.push(flag);
        proof {
            assert(flags@ =~= occurrence_flags::<T, Less>(own@, other@, matched).take(i + 1));
        }
        i = i + 1;
    }
    proof {
        assert(flags@ =~= occurrence_flags::<T, Less>(own@, other@, matched));
    }
    flags
}

/// Occurrence flags are `0`/`1` flags, one per item.
proof fn lemma_occurrence_flags_binary<T, Less: StrictWeakOrder<T>>(
    own: Seq<T>,
    other: Seq<T>,
    matched: bool,
)
    ensures
        occurrence_flags::<T, Less>(own, other, matched).len() == own.len(),
        forall|k: int|
            0 <= k < own.len() ==> #[trigger] occurrence_flags::<T, Less>(own, other, matched)[k]
                <= 1,
{
}

/// Stably copies the items of sorted `left` flagged against sorted `right` to
/// the front of `output`, returning how many were copied.
fn select_occurrences<T: Copy, Less: StrictWeakOrder<T>>(
    left: &Vec<T>,
    right: &Vec<T>,
    matched: bool,
    less: Less,
    output: &mut Vec<T>,
) -> (result: Result<u32, Error>)
    requires
        sorted_by::<T, Less>(left@) && sorted_by::<T, Less>(right@) || old(output).len() < left.len(),
        left.len() <= u32::MAX,
    ensures
        old(output).len() < left.len() ==> result == Err::<u32, Error>(
            Error::OutputTooShort { input: left.len() as usize, output: old(output).len() as usize },
        ) && final(output)@ == old(output)@,
        old(output).len() >= left.len() ==> ({
            let chosen = selected(left@, occurrence_flags::<T, Less>(left@, right@, matched));
            &&& result == Ok::<u32, Error>(chosen.len() as u32)
            &&& final(output).len() == old(output).len()
            &&& final(output)@.take(chosen.len() as int) == chosen
            &&& final(output)@.skip(chosen.len() as int) == old(output)@.skip(chosen.len() as int)
        }),
{
    if output.len() < left.len() {
        return Err(Error::OutputTooShort { input: left.len(), output: output.len() });
    }
    let flags = occurrence_flags_direct(left, right, matched, less);
    proof {
        lemma_occurrence_flags_binary::<T, Less>(left@, right@, matched);
        lemma_selected_indices(left@, flags@);
    }
    let control = SelectionControl::from_flags(&flags);
    proof {
        lemma_chosen_selected(left@, control, flags@);
    }
    copy_selected(left, &control, output)
}

/// Multiset intersection of sorted `left` and sorted `right`, written to the
/// front of `output` in `left` order; an item occurring `a` times in `left`
/// and `b` times in `right` (up to equivalence) is kept `min(a, b)` times.
/// Returns the number of items written.
///
/// Error: `OutputTooShort { input: left length, output: output length }` when
/// the output is shorter than `left`; the output is then unchanged.
pub fn set_intersection_into<T: Copy, Less: StrictWeakOrder<T>>(
    left: &Vec<T>,
    right: &Vec<T>,
    less: Less,
    output: &mut Vec<T>,
) -> (result: Result<u32, Error>)
    requires
        sorted_by::<T, Less>(left@) && sorted_by::<T, Less>(right@) || old(output).len() < left.len(),
        left.len() <= u32::MAX,
    ensures
        old(output).len() < left.len() ==> result == Err::<u32, Error>(
            Error::OutputTooShort { input: left.len() as usize, output: old(output).len() as usize },
        ) && final(output)@ == old(output)@,
        old(output).len() >= left.len() ==> ({
            let chosen = intersection::<T, Less>(left@, right@);
            &&& result == Ok::<u32, Error>(chosen.len() as u32)
            &&& final(output).len() == old(output).len()
            &&& final(output)@.take(chosen.len() as int) == chosen
            &&& final(output)@.skip(chosen.len() as int) == old(output)@.skip(chosen.len() as int)
        }),
{
    select_occurrences(left, right, true, less, output)
}

/// Multiset difference `left - right` of sorted ranges, written to the front
/// of `output` in `left` order; an item occurring `a` times in `left` and `b`
/// times in `right` is kept `a - b` times when `a > b`. Returns the number of
/// items written. Errors as for `set_intersection_into`.
pub fn set_difference_into<T: Copy, Less: StrictWeakOrder<T>>(
    left: &Vec<T>,
    right: &Vec<T>,
    less: Less,
    output: &mut Vec<T>,
) -> (result: Result<u32, Error>)
    requires
        sorted_by::<T, Less>(left@) && sorted_by::<T, Less>(right@) || old(output).len() < left.len(),
        left.len() <= u32::MAX,
    ensures
        old(output).len() < left.len() ==> result == Err::<u32, Error>(
            Error::OutputTooShort { input: left.len() as usize, output: old(output).len() as usize },
        ) && final(output)@ == old(output)@,
        old(output).len() >= left.len() ==> ({
            let chosen = difference::<T, Less>(left@, right@);
            &&& result == Ok::<u32, Error>(chosen.len() as u32)
            &&& final(output).len() == old(output).len()
            &&& final(output)@.take(chosen.len() as int) == chosen
            &&& final(output)@.skip(chosen.len() as int) == old(output)@.skip(chosen.len() as int)
        }),
{
    select_occurrences(left, right, false, less, output)
}

/// A selection from a sorted range is sorted.
proof fn lemma_selected_sorted<T, Less: StrictWeakOrder<T>>(s: Seq<T>, flags: Seq<MFlag>)
    requires
        sorted_by::<T, Less>(s),
        flags.len() == s.len(),
        s.len() <= u32::MAX,
    ensures
        sorted_by::<T, Less>(selected(s, flags)),
{
    lemma_selected_indices(s, flags);
    crate::by_key::lemma_selected_indices_increase(flags);
    let sel = selected(s, flags);
    let idx = selected_indices(flags);
    assert forall|a: int, b: int| 0 <= a < b < sel.len() implies !before::<T, Less>(
        #[trigger] sel[b],
        #[trigger] sel[a],
    ) by {
        assert(sel[a] == s[idx[a] as int]);
        assert(sel[b] == s[idx[b] as int]);
        assert(idx[a] < idx[b]);
    }
}

/// Multiset union of sorted `left` and sorted `right`, written sorted to the
/// front of `output`: every item of `left`, merged with the items of `right`
/// beyond the multiplicity `left` already has. Returns the number of items
/// written.
///
/// The output must have room for both inputs whole, whatever the union's
/// length: else `OutputTooShort { input: left length + right length, output:
/// output length }`, and the output is unchanged.
pub fn set_union_into<T: Copy, Less: StrictWeakOrder<T> + Copy>(
    left: &Vec<T>,
    right: &Vec<T>,
    less: Less,
    output: &mut Vec<T>,
) -> (result: Result<u32, Error>)
    requires
        sorted_by::<T, Less>(left@) && sorted_by::<T, Less>(right@) || old(output).len() < left.len()
            + right.len(),
        left.len() + right.len() <= u32::MAX,
    ensures
        ({
            let all = union::<T, Less>(left@, right@);
            &&& old(output).len() < left.len() + right.len() ==> result == Err::<u32, Error>(
                Error::OutputTooShort {
                    input: (left.len() + right.len()) as usize,
                    output: old(output).len() as usize,
                },
            ) && final(output)@ == old(output)@
            &&& old(output).len() >= left.len() + right.len() ==> {
                &&& result == Ok::<u32, Error>(all.len() as u32)
                &&& final(output).len() == old(output).len()
                &&& final(output)@.take(all.len() as int) == all
                &&& final(output)@.skip(all.len() as int) == old(output)@.skip(all.len() as int)
            }
        }),
{
    let required = left.len() + right.len();
    if output.len() < required {
        return Err(Error::OutputTooShort { input: required, output: output.len() });
    }
    let ghost extra_flags = occurrence_flags::<T, Less>(right@, left@, false);
    let mut extra = copy_items(right.as_slice());
    let count = match select_occurrences(right, left, false, less, &mut extra) {
        Ok(count) => count,
        Err(e) => return Err(e),
    };
    proof {
        lemma_selected_indices(right@, extra_flags);
        lemma_occurrence_flags_binary::<T, Less>(right@, left@, false);
    }
    let ghost filled = extra@;
    extra.truncate(count as usize);
    proof {
        assert(extra@ =~= filled.take(count as int));
        assert(extra@ =~= selected(right@, extra_flags));
        lemma_selected_sorted::<T, Less>(right@, extra_flags);
        crate::merge::lemma_merged_len(
            left@,
            extra@,
            |x: T, y: T| before::<T, Less>(x, y),
        );
    }
    let total = left.len() + count as usize;
    match merge_into(left, &extra, less, output) {
        Ok(()) => Ok(total as u32),
        Err(e) => Err(e),
    }
}

/// Equivalence is transitive under a strict weak order.
proof fn lemma_equiv_trans<T, Less: StrictWeakOrder<T>>(x: T, y: T, z: T)
    requires
        equiv::<T, Less>(x, y),
        equiv::<T, Less>(y, z),
    ensures
        equiv::<T, Less>(x, z),
{
    if before::<T, Less>(x, z) {
        Less::weak(x, y, z);
    }
    if before::<T, Less>(z, x) {
        Less::weak(z, y, x);
    }
}

/// Equivalent pivots have the same number of equivalents.
proof fn lemma_count_equiv_pivot<T, Less: StrictWeakOrder<T>>(s: Seq<T>, x: T, v: T)
    requires
        equiv::<T, Less>(x, v),
    ensures
        count_equiv::<T, Less>(s, x) == count_equiv::<T, Less>(s, v),
    decreases s.len(),
{
    if s.len() > 0 {
        lemma_count_equiv_pivot::<T, Less>(s.drop_last(), x, v);
        let y = s.last();
        if equiv::<T, Less>(y, x) {
            lemma_equiv_trans::<T, Less>(y, x, v);
        }
        if equiv::<T, Less>(y, v) {
            lemma_equiv_trans::<T, Less>(y, v, x);
        }
    }
}

/// Counting equivalents distributes over concatenation.
proof fn lemma_count_equiv_concat<T, Less: StrictWeakOrder<T>>(a: Seq<T>, b: Seq<T>, v: T)
    ensures
        count_equiv::<T, Less>(a + b, v) == count_equiv::<T, Less>(a, v) + count_equiv::<T, Less>(b, v),
    decreases b.len(),
{
    if b.len() == 0 {
        assert(a + b =~= a);
    } else {
        lemma_count_equiv_concat::<T, Less>(a, b.drop_last(), v);
        assert((a + b).drop_last() =~= a + b.drop_last());
    }
}

/// A merge has as many equivalents of `v` as its inputs together.
proof fn lemma_count_equiv_merged<T, Less: StrictWeakOrder<T>>(
    a: Seq<T>,
    b: Seq<T>,
    lt: spec_fn(T, T) -> bool,
    v: T,
)
    ensures
        count_equiv::<T, Less>(merged_by(a, b, lt), v) == count_equiv::<T, Less>(a, v)
            + count_equiv::<T, Less>(b, v),
    decreases a.len() + b.len(),
{
    if a.len() > 0 && b.len() > 0 {
        if lt(b[0], a[0]) {
            lemma_count_equiv_merged::<T, Less>(a, b.drop_first(), lt, v);
            lemma_count_equiv_concat::<T, Less>(seq![b[0]], merged_by(a, b.drop_first(), lt), v);
            lemma_count_equiv_concat::<T, Less>(seq![b[0]], b.drop_first(), v);
            assert(seq![b[0]] + b.drop_first() =~= b);
            assert(seq![b[0]].drop_last() =~= Seq::<T>::empty());
        } else {
            lemma_count_equiv_merged::<T, Less>(a.drop_first(), b, lt, v);
            lemma_count_equiv_concat::<T, Less>(seq![a[0]], merged_by(a.drop_first(), b, lt), v);
            lemma_count_equiv_concat::<T, Less>(seq![a[0]], a.drop_first(), v);
            assert(seq![a[0]] + a.drop_first() =~= a);
            assert(seq![a[0]].drop_last() =~= Seq::<T>::empty());
        }
    }
}

/// Selecting `own` by its occurrence flags keeps, of the `c` equivalents of
/// `v` in `own` and the `b` in `other`, `min(c, b)` when `matched` and
/// `max(c - b, 0)` otherwise.
proof fn lemma_occurrence_count<T, Less: StrictWeakOrder<T>>(
    own: Seq<T>,
    other: Seq<T>,
    matched: bool,
    v: T,
    n: int,
)
    requires
        0 <= n <= own.len(),
    ensures
        ({
            let c = count_equiv::<T, Less>(own.take(n), v) as int;
            let b = count_equiv::<T, Less>(other, v) as int;
            let kept = count_equiv::<T, Less>(
                selected(own, occurrence_flags::<T, Less>(own, other, matched).take(n)),
                v,
            ) as int;
            &&& matched ==> kept == if c < b { c } else { b }
            &&& !matched ==> kept == if c > b { c - b } else { 0 }
        }),
    decreases n,
{
    let flags = occurrence_flags::<T, Less>(own, other, matched);
    if n == 0 {
        assert(own.take(0) =~= Seq::<T>::empty());
        assert(flags.take(0) =~= Seq::<MFlag>::empty());
    } else {
        let i = n - 1;
        lemma_occurrence_count::<T, Less>(own, other, matched, v, i);
        crate::selection::lemma_selected_take(own, flags, i);
        let x = own[i];
        assert(own.take(n).drop_last() =~= own.take(i));
        assert(own.take(n).last() == x);
        let prev = selected(own, flags.take(i));
        if equiv::<T, Less>(x, v) {
            lemma_count_equiv_pivot::<T, Less>(own.take(i), x, v);
            lemma_count_equiv_pivot::<T, Less>(other, x, v);
            if flags[i] != 0 {
                assert(prev.push(x).drop_last() =~= prev);
            }
        } else if flags[i] != 0 {
            assert(prev.push(x).drop_last() =~= prev);
        }
    }
}

/// Multiset intersection keeps every item `min(a, b)` times, where `a` and `b`
/// count its equivalents in `left` and `right`.
pub proof fn law_intersection_multiplicity<T, Less: StrictWeakOrder<T>>(left: Seq<T>, right: Seq<T>, v: T)
    ensures
        count_equiv::<T, Less>(intersection::<T, Less>(left, right), v) == if count_equiv::<T, Less>(
            left,
            v,
        ) < count_equiv::<T, Less>(right, v) {
            count_equiv::<T, Less>(left, v)
        } else {
            count_equiv::<T, Less>(right, v)
        },
{
    lemma_occurrence_count::<T, Less>(left, right, true, v, left.len() as int);
    assert(left.take(left.len() as int) =~= left);
    assert(occurrence_flags::<T, Less>(left, right, true).take(left.len() as int) =~= occurrence_flags::<
        T,
        Less,
    >(left, right, true));
}

/// Multiset difference keeps every item `a - b` times when `a > b` and drops
/// it otherwise, where `a` and `b` count its equivalents in `left` and `right`.
pub proof fn law_difference_multiplicity<T, Less: StrictWeakOrder<T>>(left: Seq<T>, right: Seq<T>, v: T)
    ensures
        count_equiv::<T, Less>(difference::<T, Less>(left, right), v) == if count_equiv::<T, Less>(
            left,
            v,
        ) > count_equiv::<T, Less>(right, v) {
            count_equiv::<T, Less>(left, v) - count_equiv::<T, Less>(right, v)
        } else {
            0
        },
{
    lemma_occurrence_count::<T, Less>(left, right, false, v, left.len() as int);
    assert(left.take(left.len() as int) =~= left);
    assert(occurrence_flags::<T, Less>(left, right, false).take(left.len() as int) =~= occurrence_flags::<
        T,
        Less,
    >(left, right, false));
}

/// Multiset union keeps every item `max(a, b)` times, where `a` and `b` count
/// its equivalents in `left` and `right`.
pub proof fn law_union_multiplicity<T, Less: StrictWeakOrder<T>>(left: Seq<T>, right: Seq<T>, v: T)
    ensures
        count_equiv::<T, Less>(union::<T, Less>(left, right), v) == if count_equiv::<T, Less>(left, v)
            > count_equiv::<T, Less>(right, v) {
            count_equiv::<T, Less>(left, v)
        } else {
            count_equiv::<T, Less>(right, v)
        },
{
    let extra = selected(right, occurrence_flags::<T, Less>(right, left, false));
    lemma_occurrence_count::<T, Less>(right, left, false, v, right.len() as int);
    assert(right.take(right.len() as int) =~= right);
    assert(occurrence_flags::<T, Less>(right, left, false).take(right.len() as int) =~= occurrence_flags::<
        T,
        Less,
    >(right, left, false));
    lemma_count_equiv_merged::<T, Less>(left, extra, |x: T, y: T| before::<T, Less>(x, y), v);
}

} // verus!
