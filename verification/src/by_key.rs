//! By-key algorithms: runs of adjacent equal keys delimit segments, and the
//! values are scanned, reduced or deduplicated run by run.

use vstd::prelude::*;

use crate::error::Error;
use crate::op::{BinaryPredicateOp, ReductionOp};
use crate::ordering::unique_head_flags;
use crate::selection::{
    copy_selected, count_set, lemma_selected_indices, lemma_selected_take, selected, selected_indices,
    SelectionControl, lemma_chosen_selected,
};
use crate::seg::each::{
    exclusive_scan_segments, exclusive_scanned, inclusive_scan_segments, inclusive_scanned, reduce_segments,
    reduced,
};
use crate::seg::segmentation::valid_offsets;
use crate::MFlag;

verus! {

/// The offsets of the runs of adjacent equal keys: the run heads, then the
/// key count.
pub open spec fn run_offsets<K, Equal: BinaryPredicateOp<K>>(keys: Seq<K>) -> Seq<u32> {
    selected_indices(unique_head_flags::<K, Equal>(keys)).push(keys.len() as u32)
}

/// Selected indices increase, and stay below the flag count.
pub proof fn lemma_selected_indices_increase(flags: Seq<MFlag>)
    requires
        flags.len() <= u32::MAX,
    ensures
        forall|i: int, j: int|
            0 <= i < j < selected_indices(flags).len() ==> selected_indices(flags)[i]
                < selected_indices(flags)[j],
        forall|i: int|
            0 <= i < selected_indices(flags).len() ==> #[trigger] selected_indices(flags)[i] < flags.len(),
    decreases flags.len(),
{
    if flags.len() > 0 {
        let prev = flags.drop_last();
        lemma_selected_indices_increase(prev);
        let sp = selected_indices(prev);
        let sf = selected_indices(flags);
        if flags.last() != 0 {
            assert(sf == sp.push((flags.len() - 1) as u32));
            assert forall|i: int| 0 <= i < sf.len() implies #[trigger] sf[i] < flags.len() by {
                if i < sp.len() {
                    assert(sf[i] == sp[i]);
                }
            }
            assert forall|i: int, j: int| 0 <= i < j < sf.len() implies sf[i] < sf[j] by {
                assert(sf[i] == sp[i]);
                if j < sp.len() {
                    assert(sf[j] == sp[j]);
                }
            }
        } else {
            assert(sf == sp);
        }
    }
}

/// A set first flag is the first selected index.
pub proof fn lemma_selected_first(flags: Seq<MFlag>)
    requires
        flags.len() > 0,
        flags[0] != 0,
        flags.len() <= u32::MAX,
    ensures
        selected_indices(flags).len() > 0,
        selected_indices(flags)[0] == 0,
    decreases flags.len(),
{
    let prev = flags.drop_last();
    if flags.len() > 1 {
        lemma_selected_first(prev);
        if flags.last() != 0 {
            assert(selected_indices(flags) == selected_indices(prev).push((flags.len() - 1) as u32));
        }
    } else {
        assert(prev.len() == 0);
        assert(selected_indices(prev).len() == 0);
        assert(selected_indices(flags) == selected_indices(prev).push(0u32));
    }
}

/// Run offsets are valid offsets ending at the key count.
pub proof fn lemma_run_offsets_valid<K, Equal: BinaryPredicateOp<K>>(keys: Seq<K>)
    requires
        keys.len() < u32::MAX,
    ensures
        valid_offsets(run_offsets::<K, Equal>(keys)),
        run_offsets::<K, Equal>(keys).last() == keys.len(),
{
    let flags = unique_head_flags::<K, Equal>(keys);
    let sel = selected_indices(flags);
    let o = run_offsets::<K, Equal>(keys);
    lemma_selected_indices_increase(flags);
    lemma_selected_indices(flags, flags);
    if keys.len() > 0 {
        lemma_selected_first(flags);
    }
    assert forall|i: int, j: int| 0 <= i <= j < o.len() implies o[i] <= o[j] by {
        if j < sel.len() && i < j {
            assert(sel[i] < sel[j]);
        }
    }
}

/// Every set flag is selected: a set flag at `j` is the selected index at
/// position `count_set(flags.take(j))`.
proof fn lemma_set_flag_selected(flags: Seq<MFlag>, j: int)
    requires
        flags.len() <= u32::MAX,
        0 <= j < flags.len(),
        flags[j] != 0,
    ensures
        count_set(flags.take(j)) < selected_indices(flags).len(),
        selected_indices(flags)[count_set(flags.take(j)) as int] == j,
    decreases flags.len(),
{
    let prev = flags.drop_last();
    lemma_selected_indices(flags, prev);
    lemma_selected_indices(flags, flags);
    if j == flags.len() - 1 {
        assert(flags.take(j) =~= prev);
    } else {
        lemma_set_flag_selected(prev, j);
        assert(prev.take(j) =~= flags.take(j));
        if flags.last() != 0 {
            assert(selected_indices(flags) == selected_indices(prev).push((flags.len() - 1) as u32));
        }
    }
}

/// Runs of equal keys are maximal: the run offsets start at `0`, end at the
/// key count and increase; inside a run every key equals its predecessor, and
/// every run after the first starts with a key that does not equal its
/// predecessor.
pub proof fn law_runs_are_maximal_runs_of_equal_keys<K, Equal: BinaryPredicateOp<K>>(keys: Seq<K>)
    requires
        keys.len() < u32::MAX,
    ensures
        valid_offsets(run_offsets::<K, Equal>(keys)),
        run_offsets::<K, Equal>(keys).last() == keys.len(),
        forall|k: int, i: int|
            #![trigger run_offsets::<K, Equal>(keys)[k], Equal::spec_apply(keys[i - 1], keys[i])]
            0 <= k < run_offsets::<K, Equal>(keys).len() - 1 && run_offsets::<K, Equal>(keys)[k] < i
                < run_offsets::<K, Equal>(keys)[k + 1] ==> Equal::spec_apply(keys[i - 1], keys[i]) != 0,
        forall|k: int|
            0 < k < run_offsets::<K, Equal>(keys).len() - 1 ==> run_offsets::<K, Equal>(keys)[k] > 0
                && #[trigger] Equal::spec_apply(
                keys[run_offsets::<K, Equal>(keys)[k] - 1],
                keys[run_offsets::<K, Equal>(keys)[k] as int],
            ) == 0,
{
    let flags = unique_head_flags::<K, Equal>(keys);
    let sel = selected_indices(flags);
    let o = run_offsets::<K, Equal>(keys);
    lemma_run_offsets_valid::<K, Equal>(keys);
    lemma_selected_indices_increase(flags);
    lemma_selected_indices(flags, flags);
    assert forall|k: int, i: int|
        #![trigger o[k], Equal::spec_apply(keys[i - 1], keys[i])]
        0 <= k < o.len() - 1 && o[k] < i < o[k + 1] implies Equal::spec_apply(keys[i - 1], keys[i]) != 0 by {
        if flags[i] != 0 {
            lemma_set_flag_selected(flags, i);
            let m = count_set(flags.take(i)) as int;
            assert(o[k] == sel[k]);
            if m <= k {
                if m < k {
                    assert(sel[m] < sel[k]);
                }
            } else {
                assert(k + 1 <= m);
                assert(k + 1 < sel.len());
                assert(o[k + 1] == sel[k + 1]);
                if k + 1 < m {
                    assert(sel[k + 1] < sel[m]);
                }
            }
        }
    }
    assert forall|k: int| 0 < k < o.len() - 1 implies o[k] > 0 && #[trigger] Equal::spec_apply(
        keys[o[k] - 1],
        keys[o[k] as int],
    ) == 0 by {
        assert(o[k] == sel[k]);
        assert(sel[0] < sel[k]);
        crate::selection::lemma_selected_flag(flags, k);
    }
}

/// Keys that all equal their predecessors form one run: reducing or scanning
/// them by key treats them as a single group.
pub proof fn law_equal_keys_form_one_run<K, Equal: BinaryPredicateOp<K>>(keys: Seq<K>)
    requires
        0 < keys.len() < u32::MAX,
        forall|i: int| 0 < i < keys.len() ==> #[trigger] Equal::spec_apply(keys[i - 1], keys[i]) != 0,
    ensures
        run_offsets::<K, Equal>(keys) == seq![0u32, keys.len() as u32],
        selected(keys, unique_head_flags::<K, Equal>(keys)) == seq![keys[0]],
{
    let flags = unique_head_flags::<K, Equal>(keys);
    let o = run_offsets::<K, Equal>(keys);
    law_runs_are_maximal_runs_of_equal_keys::<K, Equal>(keys);
    lemma_selected_indices(keys, flags);
    lemma_selected_indices_increase(flags);
    lemma_selected_first(flags);
    if o.len() > 2 {
        let b = o[1] as int;
        assert(0 < 1 < o.len() - 1);
        assert(o[1] > 0 && Equal::spec_apply(keys[b - 1], keys[b]) == 0);
        assert(o[1] <= o[o.len() - 1]);
        assert(selected_indices(flags)[1] < flags.len());
        assert(Equal::spec_apply(keys[b - 1], keys[b]) != 0);
    }
    assert(o =~= seq![0u32, keys.len() as u32]);
    let sel = selected(keys, flags);
    assert(sel.len() == 1);
    assert(sel[0] == keys[selected_indices(flags)[0] as int]);
    assert(sel =~= seq![keys[0]]);
}

/// Computes the run offsets of the keys.
fn key_runs<K: Copy, Equal: BinaryPredicateOp<K>>(keys: &Vec<K>) -> (offsets: Vec<u32>)
    requires
        keys.len() < u32::MAX,
    ensures
        offsets@ == run_offsets::<K, Equal>(keys@),
{
    let n = keys.len();
    let mut offsets: Vec<u32> = Vec::new();
    let mut i: usize = 0;
    while i < n
        invariant
            n == keys.len(),
            n < u32::MAX,
            i <= n,
            offsets@ == selected_indices(unique_head_flags::<K, Equal>(keys@).take(i as int)),
        decreases n - i,
    {
        proof {
            lemma_selected_take(keys@, unique_head_flags::<K, Equal>(keys@), i as int);
        }
        if i == 0 || Equal::apply(keys[i - 1], keys[i]) == 0 {
            offsets.push(i as u32);
        }
        i = i + 1;
    }
    proof {
        assert(unique_head_flags::<K, Equal>(keys@).take(n as int) =~= unique_head_flags::<K, Equal>(keys@));
    }
    offsets.push(n as u32);
    offsets
}

/// Inclusive scan of the values within every run of adjacent equal keys.
///
/// Error: `LengthMismatch { left: key count, right: value count }` when the
/// columns differ in length.
pub fn inclusive_scan_by_key<K: Copy, T: Copy, Equal: BinaryPredicateOp<K>, Op: ReductionOp<T>>(
    keys: &Vec<K>,
    values: &Vec<T>,
    equal: Equal,
    op: Op,
) -> (result: Result<Vec<T>, Error>)
    requires
        keys.len() < u32::MAX,
    ensures
        keys.len() != values.len() ==> result == Err::<Vec<T>, Error>(
            Error::LengthMismatch { left: keys.len() as usize, right: values.len() as usize },
        ),
        keys.len() == values.len() ==> (result matches Ok(out) && inclusive_scanned::<T, Op>(
            values@,
            run_offsets::<K, Equal>(keys@),
            out@,
        )),
{
    if keys.len() != values.len() {
        return Err(Error::LengthMismatch { left: keys.len(), right: values.len() });
    }
    let offsets = key_runs::<K, Equal>(keys);
    proof {
        lemma_run_offsets_valid::<K, Equal>(keys@);
    }
    Ok(inclusive_scan_segments::<T, Op>(values, &offsets))
}

/// Exclusive scan of the values within every run of adjacent equal keys, each
/// run starting from `init`.
///
/// Error: `LengthMismatch { left: key count, right: value count }` when the
/// columns differ in length.
pub fn exclusive_scan_by_key<K: Copy, T: Copy, Equal: BinaryPredicateOp<K>, Op: ReductionOp<T>>(
    keys: &Vec<K>,
    values: &Vec<T>,
    equal: Equal,
    init: T,
    op: Op,
) -> (result: Result<Vec<T>, Error>)
    requires
        keys.len() < u32::MAX,
    ensures
        keys.len() != values.len() ==> result == Err::<Vec<T>, Error>(
            Error::LengthMismatch { left: keys.len() as usize, right: values.len() as usize },
        ),
        keys.len() == values.len() ==> (result matches Ok(out) && exclusive_scanned::<T, Op>(
            values@,
            run_offsets::<K, Equal>(keys@),
            init,
            out@,
        )),
{
    if keys.len() != values.len() {
        return Err(Error::LengthMismatch { left: keys.len(), right: values.len() });
    }
    let offsets = key_runs::<K, Equal>(keys);
    proof {
        lemma_run_offsets_valid::<K, Equal>(keys@);
    }
    Ok(exclusive_scan_segments::<T, Op>(values, &offsets, init))
}

/// Reduces the values of every run of adjacent equal keys, starting from
/// `init`. Returns the first key of every run and the run reductions.
///
/// Error: `LengthMismatch { left: key count, right: value count }` when the
/// columns differ in length.
pub fn reduce_by_key<K: Copy, T: Copy, Equal: BinaryPredicateOp<K>, Op: ReductionOp<T>>(
    keys: &Vec<K>,
    values: &Vec<T>,
    equal: Equal,
    init: T,
    op: Op,
) -> (result: Result<(Vec<K>, Vec<T>), Error>)
    requires
        keys.len() < u32::MAX,
    ensures
        keys.len() != values.len() ==> result == Err::<(Vec<K>, Vec<T>), Error>(
            Error::LengthMismatch { left: keys.len() as usize, right: values.len() as usize },
        ),
        keys.len() == values.len() ==> (result matches Ok(parts) && parts.0@ == selected(
            keys@,
            unique_head_flags::<K, Equal>(keys@),
        ) && reduced::<T, Op>(values@, run_offsets::<K, Equal>(keys@), init, parts.1@)),
{
    if keys.len() != values.len() {
        return Err(Error::LengthMismatch { left: keys.len(), right: values.len() });
    }
    let offsets = key_runs::<K, Equal>(keys);
    proof {
        lemma_run_offsets_valid::<K, Equal>(keys@);
        lemma_selected_indices(keys@, unique_head_flags::<K, Equal>(keys@));
    }
    let reductions = reduce_segments::<T, Op>(values, &offsets, init);
    let count = offsets.len() - 1;
    let mut heads: Vec<K> = Vec::new();
    let mut k: usize = 0;
    while k < count
        invariant
            count == offsets.len() - 1,
            offsets@ == run_offsets::<K, Equal>(keys@),
            count == selected_indices(unique_head_flags::<K, Equal>(keys@)).len(),
            k <= count,
            heads.len() == k,
            forall|t: int|
                0 <= t < count ==> #[trigger] selected_indices(unique_head_flags::<K, Equal>(keys@))[t]
                    < unique_head_flags::<K, Equal>(keys@).len() && selected(
                    keys@,
                    unique_head_flags::<K, Equal>(keys@),
                )[t] == keys@[selected_indices(unique_head_flags::<K, Equal>(keys@))[t] as int],
            forall|t: int|
                0 <= t < k ==> #[trigger] heads@[t] == selected(
                    keys@,
                    unique_head_flags::<K, Equal>(keys@),
                )[t],
            selected(keys@, unique_head_flags::<K, Equal>(keys@)).len() == count,
        decreases count - k,
    {
        heads.push(keys[offsets[k] as usize]);
        k = k + 1;
    }
    proof {
        assert(heads@ =~= selected(keys@, unique_head_flags::<K, Equal>(keys@)));
    }
    Ok((heads, reductions))
}

/// Stably copies, for every run of adjacent equal keys, the value at the run
/// head to the front of `output`, and returns how many were copied.
///
/// Errors: `LengthMismatch { left: key count, right: value count }` when the
/// columns differ in length; `OutputTooShort { input: value count, output:
/// output length }` when the output is shorter than the values. On error the
/// output is unchanged.
pub fn unique_by_key<K: Copy, V: Copy, Equal: BinaryPredicateOp<K>>(
    keys: &Vec<K>,
    values: &Vec<V>,
    equal: Equal,
    output: &mut Vec<V>,
) -> (result: Result<u32, Error>)
    requires
        keys.len() <= u32::MAX,
    ensures
        keys.len() != values.len() ==> result == Err::<u32, Error>(
            Error::LengthMismatch { left: keys.len() as usize, right: values.len() as usize },
        ) && final(output)@ == old(output)@,
        keys.len() == values.len() && old(output).len() < values.len() ==> result == Err::<u32, Error>(
            Error::OutputTooShort { input: values.len() as usize, output: old(output).len() as usize },
        ) && final(output)@ == old(output)@,
        keys.len() == values.len() && old(output).len() >= values.len() ==> ({
            let kept = selected(values@, unique_head_flags::<K, Equal>(keys@));
            &&& result == Ok::<u32, Error>(kept.len() as u32)
            &&& final(output).len() == old(output).len()
            &&& final(output)@.take(kept.len() as int) == kept
            &&& final(output)@.skip(kept.len() as int) == old(output)@.skip(kept.len() as int)
        }),
{
    if keys.len() != values.len() {
        return Err(Error::LengthMismatch { left: keys.len(), right: values.len() });
    }
    let n = keys.len();
    let mut flags: Vec<MFlag> = Vec::new();
    let mut i: usize = 0;
    while i < n
        invariant
            n == keys.len(),
            i <= n,
            flags.len() == i,
            forall|t: int| 0 <= t < i ==> #[trigger] flags@[t] == unique_head_flags::<K, Equal>(keys@)[t],
        decreases n - i,
    {
        let flag: MFlag = if i == 0 || Equal::apply(keys[i - 1], keys[i]) == 0 {
            1
        } else {
            0
        };
        flags.push(flag);
        i = i + 1;
    }
    proof {
        assert(flags@ =~= unique_head_flags::<K, Equal>(keys@));
        lemma_selected_indices(values@, flags@);
    }
    let control = SelectionControl::from_flags(&flags);
    proof {
        lemma_chosen_selected(values@, control, flags@);
    }
    copy_selected(values, &control, output)
}

} // verus!
