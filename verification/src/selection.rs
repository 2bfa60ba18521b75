//! Stable selection composed from a flag scan, an index scatter and a gather.

use vstd::prelude::*;

use crate::error::Error;
use crate::op::{PredicateOp, ReductionOp, SumU32, UnaryOp};
use crate::reduce::{lemma_reduce1_push, lemma_reduce1_single};
use crate::scan::{inclusive_at, inclusive_scan};
use crate::MFlag;

verus! {

/// Flags normalized to `1` where set and `0` where clear.
pub open spec fn truth(flags: Seq<MFlag>) -> Seq<MFlag> {
    flags.map_values(|f: MFlag| if f != 0 { 1u32 } else { 0u32 })
}

/// Flags normalized to `1` where clear and `0` where set.
pub open spec fn falsity(flags: Seq<MFlag>) -> Seq<MFlag> {
    flags.map_values(|f: MFlag| if f == 0 { 1u32 } else { 0u32 })
}

/// Number of set flags.
pub open spec fn count_set(flags: Seq<MFlag>) -> nat
    decreases flags.len(),
{
    if flags.len() == 0 {
        0
    } else {
        count_set(flags.drop_last()) + if flags.last() != 0 { 1nat } else { 0nat }
    }
}

/// Indices of the set flags, in increasing order.
pub open spec fn selected_indices(flags: Seq<MFlag>) -> Seq<u32>
    decreases flags.len(),
{
    if flags.len() == 0 {
        Seq::empty()
    } else if flags.last() != 0 {
        selected_indices(flags.drop_last()).push((flags.len() - 1) as u32)
    } else {
        selected_indices(flags.drop_last())
    }
}

/// The items of `s` whose flag is set, in their original order.
pub open spec fn selected<T>(s: Seq<T>, flags: Seq<MFlag>) -> Seq<T>
    decreases flags.len(),
{
    if flags.len() == 0 {
        Seq::empty()
    } else if flags.last() != 0 {
        selected(s, flags.drop_last()).push(s[flags.len() - 1])
    } else {
        selected(s, flags.drop_last())
    }
}

/// `selected` picks, in order, the items at `selected_indices`.
pub proof fn lemma_selected_indices<T>(s: Seq<T>, flags: Seq<MFlag>)
    requires
        flags.len() <= u32::MAX,
    ensures
        selected(s, flags).len() == count_set(flags),
        selected_indices(flags).len() == count_set(flags),
        count_set(flags) <= flags.len(),
        forall|k: int|
            0 <= k < count_set(flags) ==> #[trigger] selected_indices(flags)[k] < flags.len()
                && selected(s, flags)[k] == s[selected_indices(flags)[k] as int],
    decreases flags.len(),
{
    if flags.len() > 0 {
        let prev = flags.drop_last();
        lemma_selected_indices(s, prev);
        assert forall|k: int| 0 <= k < count_set(flags) implies #[trigger] selected_indices(
            flags,
        )[k] < flags.len() && selected(s, flags)[k] == s[selected_indices(flags)[k] as int] by {
            if k < count_set(prev) {
                assert(selected_indices(flags)[k] == selected_indices(prev)[k]);
                assert(selected(s, flags)[k] == selected(s, prev)[k]);
            }
        }
    }
}

/// The selection of a prefix extended by one item.
pub proof fn lemma_selected_take<T>(s: Seq<T>, flags: Seq<MFlag>, i: int)
    requires
        0 <= i < flags.len(),
    ensures
        flags.take(i + 1).drop_last() == flags.take(i),
        count_set(flags.take(i + 1)) == count_set(flags.take(i)) + if flags[i] != 0 {
            1nat
        } else {
            0nat
        },
        selected(s, flags.take(i + 1)) == if flags[i] != 0 {
            selected(s, flags.take(i)).push(s[i])
        } else {
            selected(s, flags.take(i))
        },
        selected_indices(flags.take(i + 1)) == if flags[i] != 0 {
            selected_indices(flags.take(i)).push(i as u32)
        } else {
            selected_indices(flags.take(i))
        },
{
    assert(flags.take(i + 1).drop_last() =~= flags.take(i));
}

/// A scan of `0`/`1` flags counts the set flags of each prefix.
pub proof fn lemma_positions_count(flags: Seq<MFlag>, i: int)
    requires
        0 <= i < flags.len(),
        flags.len() <= u32::MAX,
        forall|k: int| 0 <= k < flags.len() ==> #[trigger] flags[k] <= 1,
    ensures
        inclusive_at::<u32, SumU32>(flags, i) == count_set(flags.take(i + 1)),
    decreases i,
{
    lemma_selected_take(flags, flags, i);
    lemma_selected_indices(flags, flags.take(i + 1));
    if i == 0 {
        assert(flags.take(1) =~= seq![flags[0]]);
        lemma_reduce1_single::<u32, SumU32>(flags[0]);
        assert(flags.take(0) =~= Seq::<MFlag>::empty());
    } else {
        lemma_positions_count(flags, i - 1);
        assert(flags.take(i + 1) =~= flags.take(i).push(flags[i]));
        lemma_reduce1_push::<u32, SumU32>(flags.take(i), flags[i]);
        assert(flags.take(i) =~= flags.take((i - 1) + 1));
    }
}

/// Stable selection control shared by every payload that uses the same flags.
///
/// `indices[0..count]` are the positions of the set flags in increasing order.
pub struct SelectionControl {
    pub len: usize,
    pub indices: Vec<u32>,
    pub count: u32,
}

impl SelectionControl {
    /// The control describes the selection of the set entries of `flags`.
    pub open spec fn selects(&self, flags: Seq<MFlag>) -> bool {
        &&& self.len == flags.len()
        &&& flags.len() <= u32::MAX
        &&& self.indices.len() == flags.len()
        &&& self.count == count_set(flags)
        &&& self.indices@.take(self.count as int) == selected_indices(flags)
    }

    /// Builds the control from `0`/`1` flags: an inclusive scan gives each
    /// selected item its output position, and each selected item writes its
    /// index to that position.
    pub fn from_flags(flags: &Vec<MFlag>) -> (control: SelectionControl)
        requires
            flags.len() <= u32::MAX,
            forall|k: int| 0 <= k < flags.len() ==> #[trigger] flags@[k] <= 1,
        ensures
            control.selects(flags@),
    {
        let n = flags.len();
        let positions = inclusive_scan::<u32, SumU32>(flags, SumU32);
        let mut indices: Vec<u32> = Vec::new();
        let mut k: usize = 0;
        while k < n
            invariant
                k <= n,
                indices.len() == k,
            decreases n - k,
        {
            indices.push(0u32);
            k = k + 1;
        }
        let mut i: usize = 0;
        let mut previous: u32 = 0;
        proof {
            assert(flags@.take(0) =~= Seq::<MFlag>::empty());
            assert(indices@.take(0) =~= Seq::<u32>::empty());
        }
        while i < n
            invariant
                n == flags.len(),
                n <= u32::MAX,
                forall|k: int| 0 <= k < n ==> #[trigger] flags@[k] <= 1,
                positions.len() == n,
                forall|k: int|
                    0 <= k < n ==> #[trigger] positions@[k] == inclusive_at::<u32, SumU32>(
                        flags@,
                        k,
                    ),
                i <= n,
                indices.len() == n,
                previous == count_set(flags@.take(i as int)),
                indices@.take(previous as int) == selected_indices(flags@.take(i as int)),
            decreases n - i,
        {
            proof {
                lemma_positions_count(flags@, i as int);
                lemma_selected_take(flags@, flags@, i as int);
                lemma_selected_indices(flags@, flags@.take(i as int));
            }
            let position = positions[i];
            if position != previous {
                let ghost before = indices@;
                indices.set((position - 1) as usize, i as u32);
                proof {
                    assert(indices@.take(position as int) =~= before.take(previous as int).push(
                        i as u32,
                    ));
                }
            }
            previous = position;
            i = i + 1;
        }
        proof {
            assert(flags@.take(n as int) =~= flags@);
        }
        SelectionControl { len: n, indices, count: previous }
    }
}

/// Normalizes flags to `0`/`1`, keeping set flags (`invert == false`) or clear
/// flags (`invert == true`).
pub(crate) fn normalize_flags(flags: &Vec<MFlag>, invert: bool) -> (normalized: Vec<MFlag>)
    ensures
        normalized@ == (if invert { falsity(flags@) } else { truth(flags@) }),
{
    let n = flags.len();
    let mut normalized: Vec<MFlag> = Vec::new();
    let mut i: usize = 0;
    while i < n
        invariant
            n == flags.len(),
            i <= n,
            normalized.len() == i,
            forall|k: int|
                0 <= k < i ==> #[trigger] normalized@[k] == (if invert {
                    falsity(flags@)[k]
                } else {
                    truth(flags@)[k]
                }),
        decreases n - i,
    {
        let set = flags[i] != 0u32;
        normalized.push(if set != invert { 1u32 } else { 0u32 });
        i = i + 1;
    }
    proof {
        if invert {
            assert(normalized@ =~= falsity(flags@));
        } else {
            assert(normalized@ =~= truth(flags@));
        }
    }
    normalized
}

impl SelectionControl {
    /// The control's chosen positions lie inside its source.
    pub open spec fn wf(&self) -> bool {
        &&& self.indices.len() == self.len
        &&& self.count <= self.len
        &&& forall|p: int| 0 <= p < self.count ==> #[trigger] self.indices@[p] < self.len
    }
}

/// The items of `input` at the first `count` positions of `control`, in order.
pub open spec fn chosen<T>(input: Seq<T>, control: SelectionControl) -> Seq<T> {
    Seq::new(control.count as nat, |p: int| input[control.indices@[p] as int])
}

/// A control built from flags is well formed, and choosing by it selects by
/// the flags.
pub proof fn lemma_chosen_selected<T>(input: Seq<T>, control: SelectionControl, flags: Seq<MFlag>)
    requires
        control.selects(flags),
        input.len() == flags.len(),
    ensures
        control.wf(),
        chosen(input, control) == selected(input, flags),
{
    lemma_selected_indices(input, flags);
    assert forall|p: int| 0 <= p < control.count implies #[trigger] control.indices@[p] < control.len by {
        assert(control.indices@.take(control.count as int)[p] == control.indices@[p]);
    }
    assert forall|p: int| 0 <= p < control.count implies #[trigger] chosen(input, control)[p] == selected(
        input,
        flags,
    )[p] by {
        assert(control.indices@.take(control.count as int)[p] == control.indices@[p]);
    }
    assert(chosen(input, control) =~= selected(input, flags));
}

/// Copies the items chosen by `control` to the front of `output`.
///
/// The source must have the control's length (else `LengthMismatch { left:
/// source length, right: control length }`), and the output must be at least
/// as long (else `OutputTooShort`). Returns the number of items written.
pub fn copy_selected<T: Copy>(input: &Vec<T>, control: &SelectionControl, output: &mut Vec<T>) -> (result:
    Result<u32, Error>)
    requires
        control.wf(),
    ensures
        input.len() != control.len ==> result == Err::<u32, Error>(
            Error::LengthMismatch { left: input.len() as usize, right: control.len },
        ) && final(output)@ == old(output)@,
        input.len() == control.len && old(output).len() < control.len ==> result == Err::<
            u32,
            Error,
        >(Error::OutputTooShort { input: control.len, output: old(output).len() as usize })
            && final(output)@ == old(output)@,
        input.len() == control.len && old(output).len() >= control.len ==> result == Ok::<
            u32,
            Error,
        >(control.count) && final(output).len() == old(output).len() && final(output)@.take(
            control.count as int,
        ) == chosen(input@, *control) && final(output)@.skip(control.count as int) == old(
            output,
        )@.skip(control.count as int),
{
    if input.len() != control.len {
        return Err(Error::LengthMismatch { left: input.len(), right: control.len });
    }
    if output.len() < control.len {
        return Err(Error::OutputTooShort { input: control.len, output: output.len() });
    }
    let count = control.count;
    let mut k: usize = 0;
    while k < count as usize
        invariant
            control.wf(),
            input.len() == control.len,
            old(output).len() >= control.len,
            count == control.count,
            k <= count,
            output.len() == old(output).len(),
            forall|j: int| 0 <= j < k ==> #[trigger] output@[j] == chosen(input@, *control)[j],
            forall|j: int| k <= j < output.len() ==> #[trigger] output@[j] == old(output)@[j],
        decreases count - k,
    {
        let source = control.indices[k] as usize;
        output.set(k, input[source]);
        k = k + 1;
    }
    proof {
        assert(output@.take(count as int) =~= chosen(input@, *control));
        assert(output@.skip(count as int) =~= old(output)@.skip(count as int));
    }
    Ok(count)
}

/// The outcome of a stable selection of `input` by `flags` (which came from a
/// stencil of length `stencil_len`) written to the front of an output that held
/// `before` and holds `after` afterwards.
pub open spec fn selection_outcome<T>(
    input: Seq<T>,
    stencil_len: usize,
    flags: Seq<MFlag>,
    before: Seq<T>,
    after: Seq<T>,
    result: Result<u32, Error>,
) -> bool {
    &&& input.len() != stencil_len ==> result == Err::<u32, Error>(
        Error::LengthMismatch { left: input.len() as usize, right: stencil_len },
    ) && after == before
    &&& input.len() == stencil_len && before.len() < input.len() ==> result == Err::<u32, Error>(
        Error::OutputTooShort { input: input.len() as usize, output: before.len() as usize },
    ) && after == before
    &&& input.len() == stencil_len && before.len() >= input.len() ==> {
        &&& result == Ok::<u32, Error>(count_set(flags) as u32)
        &&& after.len() == before.len()
        &&& after.take(count_set(flags) as int) == selected(input, flags)
        &&& after.skip(count_set(flags) as int) == before.skip(count_set(flags) as int)
    }
}

/// Stably copies the items whose stencil flag is set (non-zero) to the front
/// of `output` and returns how many were copied.
///
/// Errors: `LengthMismatch { left: input length, right: stencil length }` when
/// input and stencil differ in length; `OutputTooShort` when the output is
/// shorter than the input. On error the output is unchanged.
pub fn copy_where<T: Copy>(input: &Vec<T>, stencil: &Vec<MFlag>, output: &mut Vec<T>) -> (result:
    Result<u32, Error>)
    requires
        input.len() <= u32::MAX,
    ensures
        selection_outcome(input@, stencil.len() as usize, stencil@, old(output)@, final(output)@, result),
{
    select_where(input, stencil, false, output)
}

/// Stably copies the items whose stencil flag is clear (zero) to the front of
/// `output` and returns how many were copied. Errors as for `copy_where`.
pub fn remove_where<T: Copy>(input: &Vec<T>, stencil: &Vec<MFlag>, output: &mut Vec<T>) -> (result:
    Result<u32, Error>)
    requires
        input.len() <= u32::MAX,
    ensures
        selection_outcome(input@, stencil.len() as usize, falsity(stencil@), old(output)@, final(output)@, result),
{
    select_where(input, stencil, true, output)
}

/// Selecting by normalized flags is selecting by the flags themselves.
pub proof fn lemma_truth_same<T>(s: Seq<T>, flags: Seq<MFlag>)
    ensures
        selected(s, truth(flags)) == selected(s, flags),
        count_set(truth(flags)) == count_set(flags),
    decreases flags.len(),
{
    if flags.len() > 0 {
        assert(truth(flags).drop_last() =~= truth(flags.drop_last()));
        lemma_truth_same(s, flags.drop_last());
    }
}

/// Normalizing the flags does not change which indices are selected.
pub proof fn lemma_truth_indices(flags: Seq<MFlag>)
    ensures
        selected_indices(truth(flags)) == selected_indices(flags),
        count_set(truth(flags)) == count_set(flags),
    decreases flags.len(),
{
    if flags.len() > 0 {
        assert(truth(flags).drop_last() =~= truth(flags.drop_last()));
        lemma_truth_indices(flags.drop_last());
    }
}

/// Each selected index points at a set flag.
pub proof fn lemma_selected_flag(flags: Seq<MFlag>, p: int)
    requires
        0 <= p < count_set(flags),
        flags.len() <= u32::MAX,
    ensures
        selected_indices(flags)[p] < flags.len(),
        flags[selected_indices(flags)[p] as int] != 0,
    decreases flags.len(),
{
    let prev = flags.drop_last();
    lemma_selected_indices(flags, prev);
    if p < count_set(prev) {
        lemma_selected_flag(prev, p);
        assert(selected_indices(flags)[p] == selected_indices(prev)[p]);
    }
}

fn select_where<T: Copy>(
    input: &Vec<T>,
    stencil: &Vec<MFlag>,
    invert: bool,
    output: &mut Vec<T>,
) -> (result: Result<u32, Error>)
    requires
        input.len() <= u32::MAX,
    ensures
        selection_outcome(input@, stencil.len() as usize, if invert { falsity(stencil@) } else { stencil@ }, old(output)@, final(output)@, result),
{
    if input.len() != stencil.len() {
        return Err(Error::LengthMismatch { left: input.len(), right: stencil.len() });
    }
    let normalized = normalize_flags(stencil, invert);
    proof {
        lemma_truth_same(input@, stencil@);
        lemma_selected_indices(input@, normalized@);
    }
    let control = SelectionControl::from_flags(&normalized);
    proof {
        if invert {
            lemma_truth_same(input@, falsity(stencil@));
            assert(truth(falsity(stencil@)) =~= falsity(stencil@));
        }
    }
    proof {
        lemma_chosen_selected(input@, control, normalized@);
    }
    copy_selected(input, &control, output)
}

/// The flags a predicate gives each item.
pub open spec fn predicate_flags<T, Pred: PredicateOp<T>>(s: Seq<T>) -> Seq<MFlag> {
    s.map_values(|x: T| Pred::spec_apply(x))
}

/// Set flags of a prefix never outnumber those of a longer prefix.
pub proof fn lemma_count_monotone(flags: Seq<MFlag>, i: int, j: int)
    requires
        0 <= i <= j <= flags.len(),
    ensures
        count_set(flags.take(i)) <= count_set(flags.take(j)),
        count_set(flags.take(j)) <= count_set(flags.take(i)) + (j - i),
    decreases j - i,
{
    if i < j {
        lemma_count_monotone(flags, i, j - 1);
        assert(flags.take(j).drop_last() =~= flags.take(j - 1));
    }
}

/// Every item of a prefix is either selected or rejected.
pub proof fn lemma_count_complement(flags: Seq<MFlag>, i: int)
    requires
        0 <= i <= flags.len(),
    ensures
        count_set(falsity(flags).take(i)) + count_set(flags.take(i)) == i,
    decreases i,
{
    if i > 0 {
        lemma_count_complement(flags, i - 1);
        assert(flags.take(i).drop_last() =~= flags.take(i - 1));
        assert(falsity(flags).take(i).drop_last() =~= falsity(flags).take(i - 1));
    }
}

/// Stably partitions `input`: the items passing `pred` come first, followed by
/// the failing items, each group in its original order. Returns the number of
/// passing items. Only the first `input.len()` items of `output` are written.
///
/// An output shorter than the input is rejected with `OutputTooShort` and
/// left unchanged.
pub fn partition<T: Copy, Pred: PredicateOp<T>>(input: &Vec<T>, pred: Pred, output: &mut Vec<T>) -> (result:
    Result<u32, Error>)
    requires
        input.len() <= u32::MAX,
    ensures
        ({
            let flags = predicate_flags::<T, Pred>(input@);
            let n = input.len() as int;
            &&& old(output).len() < n ==> result == Err::<u32, Error>(
                Error::OutputTooShort { input: n as usize, output: old(output).len() as usize },
            ) && final(output)@ == old(output)@
            &&& old(output).len() >= n ==> {
                &&& result == Ok::<u32, Error>(count_set(flags) as u32)
                &&& final(output).len() == old(output).len()
                &&& final(output)@.take(n) == selected(input@, flags) + selected(
                    input@,
                    falsity(flags),
                )
                &&& final(output)@.skip(n) == old(output)@.skip(n)
            }
        }),
{
    let n = input.len();
    if output.len() < n {
        return Err(Error::OutputTooShort { input: n, output: output.len() });
    }
    let ghost flags = predicate_flags::<T, Pred>(input@);
    // Canonical 0/1 flag of every item.
    let mut raw: Vec<MFlag> = Vec::new();
    let mut i: usize = 0;
    while i < n
        invariant
            n == input.len(),
            flags == predicate_flags::<T, Pred>(input@),
            i <= n,
            raw.len() == i,
            forall|k: int| 0 <= k < i ==> #[trigger] raw@[k] == truth(flags)[k],
        decreases n - i,
    {
        let passes = Pred::apply(input[i]) != 0u32;
        raw.push(if passes { 1u32 } else { 0u32 });
        i = i + 1;
    }
    proof {
        assert(raw@ =~= truth(flags));
        lemma_truth_same(input@, flags);
        lemma_truth_same(input@, falsity(flags));
        assert(truth(falsity(flags)) =~= falsity(flags));
        assert(falsity(truth(flags)) =~= falsity(flags));
    }
    let control = SelectionControl::from_flags(&raw);
    let passing = control.count;
    let positions = inclusive_scan::<u32, SumU32>(&raw, SumU32);
    // Destination of every item: its rank among passing items, or the number
    // of passing items plus its rank among failing items.
    let mut permutation: Vec<u32> = Vec::new();
    let mut k: usize = 0;
    while k < n
        invariant
            k <= n,
            permutation.len() == k,
        decreases n - k,
    {
        permutation.push(0u32);
        k = k + 1;
    }
    let ghost f = raw@;
    let ghost nf = falsity(raw@);
    proof {
        assert(f.take(0) =~= Seq::<MFlag>::empty());
        assert(nf.take(0) =~= Seq::<MFlag>::empty());
        assert(f.take(n as int) =~= f);
        assert(nf.take(n as int) =~= nf);
        lemma_count_complement(f, n as int);
    }
    let mut i: usize = 0;
    let mut previous: u32 = 0;
    while i < n
        invariant
            n == input.len(),
            n <= u32::MAX,
            f == raw@,
            nf == falsity(raw@),
            raw.len() == n,
            forall|k: int| 0 <= k < n ==> #[trigger] raw@[k] <= 1,
            positions.len() == n,
            forall|k: int|
                0 <= k < n ==> #[trigger] positions@[k] == inclusive_at::<u32, SumU32>(raw@, k),
            passing == count_set(f),
            count_set(nf) + count_set(f) == n,
            i <= n,
            permutation.len() == n,
            previous == count_set(f.take(i as int)),
            count_set(nf.take(i as int)) + previous == i,
            previous <= passing,
            f.take(n as int) == f,
            nf.take(n as int) == nf,
            passing + count_set(nf.take(i as int)) <= n,
            permutation@.take(previous as int) == selected_indices(f.take(i as int)),
            permutation@.subrange(passing as int, passing + count_set(nf.take(i as int)))
                == selected_indices(nf.take(i as int)),
        decreases n - i,
    {
        proof {
            lemma_positions_count(raw@, i as int);
            lemma_selected_take(f, f, i as int);
            lemma_selected_take(nf, nf, i as int);
            lemma_count_complement(f, i as int + 1);
            lemma_count_monotone(f, i as int + 1, n as int);
            lemma_count_monotone(nf, i as int + 1, n as int);
            lemma_selected_indices(f, f.take(i as int));
            lemma_selected_indices(nf, nf.take(i as int));
        }
        let position = positions[i];
        let ghost before = permutation@;
        let ghost rejected = count_set(nf.take(i as int));
        if position != previous {
            permutation.set((position - 1) as usize, i as u32);
            proof {
                assert(permutation@.take(position as int) =~= before.take(previous as int).push(
                    i as u32,
                ));
                assert(permutation@.subrange(passing as int, passing + rejected) =~= before.subrange(
                    passing as int,
                    passing + rejected,
                ));
            }
        } else {
            let destination = passing + ((i as u32) - position);
            permutation.set(destination as usize, i as u32);
            proof {
                assert(permutation@.take(previous as int) =~= before.take(previous as int));
                assert(permutation@.subrange(passing as int, passing + rejected + 1)
                    =~= before.subrange(passing as int, passing + rejected).push(i as u32));
            }
        }
        previous = position;
        i = i + 1;
    }
    // Gather every item to its place.
    proof {
        lemma_selected_indices(input@, f);
        lemma_selected_indices(input@, nf);
    }
    let mut k: usize = 0;
    while k < n
        invariant
            n == input.len(),
            n <= u32::MAX,
            permutation.len() == n,
            passing == count_set(f),
            count_set(nf) + count_set(f) == n,
            permutation@.take(passing as int) == selected_indices(f),
            permutation@.subrange(passing as int, n as int) == selected_indices(nf),
            selected(input@, f).len() == count_set(f),
            selected(input@, nf).len() == count_set(nf),
            forall|j: int|
                0 <= j < count_set(f) ==> #[trigger] selected_indices(f)[j] < n
                    && selected(input@, f)[j] == input@[selected_indices(f)[j] as int],
            forall|j: int|
                0 <= j < count_set(nf) ==> #[trigger] selected_indices(nf)[j] < n
                    && selected(input@, nf)[j] == input@[selected_indices(nf)[j] as int],
            k <= n,
            output.len() == old(output).len(),
            old(output).len() >= n,
            forall|j: int|
                0 <= j < k ==> #[trigger] output@[j] == (selected(input@, f) + selected(
                    input@,
                    nf,
                ))[j],
            forall|j: int| k <= j < output.len() ==> #[trigger] output@[j] == old(output)@[j],
        decreases n - k,
    {
        proof {
            if k < passing {
                assert(permutation@.take(passing as int)[k as int] == permutation@[k as int]);
            } else {
                assert(permutation@.subrange(passing as int, n as int)[k - passing]
                    == permutation@[k as int]);
            }
        }
        let source = permutation[k] as usize;
        output.set(k, input[source]);
        k = k + 1;
    }
    proof {
        assert(output@.take(n as int) =~= selected(input@, f) + selected(input@, nf));
        assert(output@.skip(n as int) =~= old(output)@.skip(n as int));
    }
    Ok(passing)
}

/// Writes `value` to every item of `output`.
pub fn fill<T: Copy>(value: T, output: &mut Vec<T>)
    ensures
        final(output).len() == old(output).len(),
        forall|i: int| 0 <= i < final(output).len() ==> #[trigger] final(output)@[i] == value,
{
    let n = output.len();
    let mut i: usize = 0;
    while i < n
        invariant
            n == output.len(),
            i <= n,
            forall|k: int| 0 <= k < i ==> #[trigger] output@[k] == value,
        decreases n - i,
    {
        output.set(i, value);
        i = i + 1;
    }
}

/// Replaces the items whose stencil flag is set with `value`; other items keep
/// their value.
///
/// A stencil whose length differs from the output's is rejected with
/// `LengthMismatch { left: stencil length, right: output length }`.
pub fn replace_where<T: Copy>(value: T, stencil: &Vec<MFlag>, output: &mut Vec<T>) -> (result:
    Result<(), Error>)
    ensures
        stencil.len() != old(output).len() ==> result == Err::<(), Error>(
            Error::LengthMismatch { left: stencil.len() as usize, right: old(output).len() as usize },
        ) && final(output)@ == old(output)@,
        stencil.len() == old(output).len() ==> result is Ok && final(output).len() == old(
            output,
        ).len() && forall|i: int|
            0 <= i < stencil.len() ==> #[trigger] final(output)@[i] == if stencil@[i] != 0 {
                value
            } else {
                old(output)@[i]
            },
{
    if stencil.len() != output.len() {
        return Err(Error::LengthMismatch { left: stencil.len(), right: output.len() });
    }
    let n = output.len();
    let mut i: usize = 0;
    while i < n
        invariant
            n == output.len(),
            n == stencil.len(),
            output.len() == old(output).len(),
            i <= n,
            forall|k: int|
                0 <= k < i ==> #[trigger] output@[k] == if stencil@[k] != 0 {
                    value
                } else {
                    old(output)@[k]
                },
            forall|k: int| i <= k < n ==> #[trigger] output@[k] == old(output)@[k],
        decreases n - i,
    {
        if stencil[i] != 0u32 {
            output.set(i, value);
        }
        i = i + 1;
    }
    Ok(())
}

/// Writes `op(input[i])` where the stencil flag `i` is set; other items of the
/// output keep their value.
///
/// Errors: `LengthMismatch { left: input length, right: stencil length }`, then
/// `LengthMismatch { left: input length, right: output length }`.
pub fn transform_where<T: Copy, Op: UnaryOp<T, Output = T>>(
    input: &Vec<T>,
    op: Op,
    stencil: &Vec<MFlag>,
    output: &mut Vec<T>,
) -> (result: Result<(), Error>)
    ensures
        input.len() != stencil.len() ==> result == Err::<(), Error>(
            Error::LengthMismatch { left: input.len() as usize, right: stencil.len() as usize },
        ) && final(output)@ == old(output)@,
        input.len() == stencil.len() && input.len() != old(output).len() ==> result == Err::<
            (),
            Error,
        >(Error::LengthMismatch { left: input.len() as usize, right: old(output).len() as usize })
            && final(output)@ == old(output)@,
        input.len() == stencil.len() && input.len() == old(output).len() ==> result is Ok
            && final(output).len() == old(output).len() && forall|i: int|
            0 <= i < input.len() ==> #[trigger] final(output)@[i] == if stencil@[i] != 0 {
                Op::spec_apply(input@[i])
            } else {
                old(output)@[i]
            },
{
    if input.len() != stencil.len() {
        return Err(Error::LengthMismatch { left: input.len(), right: stencil.len() });
    }
    if input.len() != output.len() {
        return Err(Error::LengthMismatch { left: input.len(), right: output.len() });
    }
    let n = output.len();
    let mut i: usize = 0;
    while i < n
        invariant
            n == output.len(),
            n == stencil.len(),
            n == input.len(),
            output.len() == old(output).len(),
            i <= n,
            forall|k: int|
                0 <= k < i ==> #[trigger] output@[k] == if stencil@[k] != 0 {
                    Op::spec_apply(input@[k])
                } else {
                    old(output)@[k]
                },
            forall|k: int| i <= k < n ==> #[trigger] output@[k] == old(output)@[k],
        decreases n - i,
    {
        if stencil[i] != 0u32 {
            output.set(i, Op::apply(input[i]));
        }
        i = i + 1;
    }
    Ok(())
}

} // verus!
