//! Indexed copies: gathers read through an index column, scatters write
//! through one, optionally restricted to a selection of positions.

use vstd::prelude::*;

use crate::error::Error;
use crate::selection::{count_set, lemma_selected_indices, selected_indices, SelectionControl};
use crate::MFlag;

verus! {

/// The number of copies an indexed copy performs. The operation covers the
/// selection's length or, without one, the index count (gather) or value
/// count (scatter); it is limited by the output length for a gather with a
/// device active length. The copies stop at the active length when one is
/// given, and otherwise at the index count (gather) or value count (scatter).
pub open spec fn copy_count(
    values_len: nat,
    indices_len: nat,
    selection_len: Option<nat>,
    active_len: Option<u32>,
    gather: bool,
    output_len: nat,
) -> nat {
    let capacity = match selection_len {
        Some(len) => len,
        None => if gather {
            indices_len
        } else {
            values_len
        },
    };
    let operation = if gather && active_len.is_some() && output_len < capacity {
        output_len
    } else {
        capacity
    };
    match active_len {
        Some(active) => if (active as nat) < operation {
            active as nat
        } else {
            operation
        },
        None => {
            let bound = if gather {
                indices_len
            } else {
                values_len
            };
            if operation < bound {
                operation
            } else {
                bound
            }
        },
    }
}

/// The position read from the index column by copy `p`.
pub open spec fn index_position(selection: Option<Seq<u32>>, p: int) -> int {
    match selection {
        Some(sel) => sel[p] as int,
        None => p,
    }
}

/// The output after copies `0..n`, applied in order: copy `p` writes
/// `values[indices[q]]` to position `p` (gather) or `values[q]` to position
/// `indices[q]` (scatter), where `q` is `index_position(selection, p)`.
pub open spec fn indexed_copies<T>(
    before: Seq<T>,
    values: Seq<T>,
    indices: Seq<u32>,
    selection: Option<Seq<u32>>,
    gather: bool,
    n: int,
) -> Seq<T>
    decreases n,
{
    if n <= 0 {
        before
    } else {
        let prev = indexed_copies(before, values, indices, selection, gather, n - 1);
        let q = index_position(selection, n - 1);
        if gather {
            prev.update(n - 1, values[indices[q] as int])
        } else {
            prev.update(indices[q] as int, values[q])
        }
    }
}

/// Copy `p` of a scatter writes to output position `j`.
pub open spec fn targets(indices: Seq<u32>, selection: Option<Seq<u32>>, p: int, j: int) -> bool {
    indices[index_position(selection, p)] == j
}

/// `after` is `before` scattered by copies `0..n`: a position no copy targets
/// keeps its item, and a position some copies target holds the value of one
/// of them (which one, for colliding copies, is left open).
pub open spec fn scattered<T>(
    before: Seq<T>,
    after: Seq<T>,
    values: Seq<T>,
    indices: Seq<u32>,
    selection: Option<Seq<u32>>,
    n: int,
) -> bool {
    &&& after.len() == before.len()
    &&& forall|j: int|
        0 <= j < before.len() && (forall|p: int| 0 <= p < n ==> !#[trigger] targets(indices, selection, p, j))
            ==> #[trigger] after[j] == before[j]
    &&& forall|j: int, p: int|
        0 <= j < before.len() && 0 <= p < n && #[trigger] targets(indices, selection, p, j) ==> exists|r: int|
            0 <= r < n && #[trigger] targets(indices, selection, r, j) && after[j] == values[index_position(
                selection,
                r,
            )]
}

/// Applying scatter copies in order gives a scattered output.
pub proof fn lemma_copies_scatter<T>(
    before: Seq<T>,
    values: Seq<T>,
    indices: Seq<u32>,
    selection: Option<Seq<u32>>,
    n: int,
)
    requires
        0 <= n,
        copies_in_bounds(values, indices, selection, false, before.len(), n as nat),
    ensures
        indexed_copies(before, values, indices, selection, false, n).len() == before.len(),
        scattered(before, indexed_copies(before, values, indices, selection, false, n), values, indices, selection, n),
    decreases n,
{
    if n > 0 {
        lemma_copies_scatter(before, values, indices, selection, n - 1);
        let prev = indexed_copies(before, values, indices, selection, false, n - 1);
        let after = indexed_copies(before, values, indices, selection, false, n);
        let q = index_position(selection, n - 1);
        let t = indices[q] as int;
        assert(0 <= q < indices.len());
        assert forall|j: int|
            0 <= j < before.len() && (forall|p: int| 0 <= p < n ==> !#[trigger] targets(indices, selection, p, j))
                implies #[trigger] after[j] == before[j] by {
            assert(!targets(indices, selection, n - 1, j));
            assert(forall|p: int| 0 <= p < n - 1 ==> !#[trigger] targets(indices, selection, p, j));
            assert(after[j] == prev[j]);
        }
        assert forall|j: int, p: int|
            0 <= j < before.len() && 0 <= p < n && #[trigger] targets(indices, selection, p, j) implies exists|r: int|
                0 <= r < n && #[trigger] targets(indices, selection, r, j) && after[j] == values[index_position(
                    selection,
                    r,
                )] by {
            if j == t {
                assert(targets(indices, selection, n - 1, j));
            } else {
                assert(after[j] == prev[j]);
                assert(p != n - 1);
            }
        }
    }
}

/// Every access of the first `n` copies is in bounds.
pub open spec fn copies_in_bounds<T>(
    values: Seq<T>,
    indices: Seq<u32>,
    selection: Option<Seq<u32>>,
    gather: bool,
    output_len: nat,
    n: nat,
) -> bool {
    forall|p: int|
        0 <= p < n ==> {
            let q = #[trigger] index_position(selection, p);
            &&& 0 <= q < indices.len()
            &&& (gather ==> p < output_len && indices[q] < values.len())
            &&& (!gather ==> q < values.len() && indices[q] < output_len)
        }
}

/// Copies items between `values` and `output` through `indices`.
///
/// A gather writes `values[indices[q]]` to output position `p`; a scatter
/// writes `values[q]` to output position `indices[q]`; `q` is `p`, or
/// `selection[p]` when a selection is given. `copy_count` gives how many
/// copies run. A gather's result is exact; a scatter position that several
/// copies name receives the value of one of them.
///
/// Errors, in this order: `LengthMismatch { left: values length, right:
/// indices length }` for a scatter whose columns differ in length;
/// `OutputTooShort { input: indices length, output: output length }` for a
/// gather without an active length whose output is shorter than the indices.
/// On error the output is unchanged.
pub fn indexed_copy_selected<T: Copy>(
    values: &Vec<T>,
    indices: &Vec<u32>,
    selection: Option<&Vec<u32>>,
    active_len: Option<u32>,
    gather: bool,
    output: &mut Vec<T>,
) -> (result: Result<(), Error>)
    requires
        ({
            let sel = match selection {
                Some(s) => Some(s@),
                None => None,
            };
            let n = copy_count(
                values.len() as nat,
                indices.len() as nat,
                match selection {
                    Some(s) => Some(s.len() as nat),
                    None => None,
                },
                active_len,
                gather,
                old(output).len() as nat,
            );
            !gather && values.len() != indices.len() || gather && active_len.is_none()
                && old(output).len() < indices.len() || copies_in_bounds(values@, indices@, sel, gather, old(output).len() as nat, n)
        }),
    ensures
        ({
            let sel = match selection {
                Some(s) => Some(s@),
                None => None,
            };
            let n = copy_count(
                values.len() as nat,
                indices.len() as nat,
                match selection {
                    Some(s) => Some(s.len() as nat),
                    None => None,
                },
                active_len,
                gather,
                old(output).len() as nat,
            );
            &&& !gather && values.len() != indices.len() ==> result == Err::<(), Error>(
                Error::LengthMismatch { left: values.len() as usize, right: indices.len() as usize },
            ) && final(output)@ == old(output)@
            &&& gather && active_len.is_none() && old(output).len() < indices.len() ==> result
                == Err::<(), Error>(
                Error::OutputTooShort { input: indices.len() as usize, output: old(output).len() as usize },
            ) && final(output)@ == old(output)@
            &&& !(!gather && values.len() != indices.len()) && !(gather && active_len.is_none()
                && old(output).len() < indices.len()) ==> result == Ok::<(), Error>(()) && (gather ==> final(output)@ == indexed_copies(old(output)@, values@, indices@, sel, gather, n as int)) && (!gather
                ==> scattered(old(output)@, final(output)@, values@, indices@, sel, n as int))
        }),
{
    let values_len = values.len();
    let indices_len = indices.len();
    if !gather && values_len != indices_len {
        return Err(Error::LengthMismatch { left: values_len, right: indices_len });
    }
    let capacity = match selection {
        Some(s) => s.len(),
        None => if gather {
            indices_len
        } else {
            values_len
        },
    };
    let output_len = output.len();
    if gather && active_len.is_none() && output_len < indices_len {
        return Err(Error::OutputTooShort { input: indices_len, output: output_len });
    }
    let operation = if gather && active_len.is_some() && output_len < capacity {
        output_len
    } else {
        capacity
    };
    let count = match active_len {
        Some(active) => if (active as usize) < operation {
            active as usize
        } else {
            operation
        },
        None => {
            let bound = if gather {
                indices_len
            } else {
                values_len
            };
            if operation < bound {
                operation
            } else {
                bound
            }
        },
    };
    let ghost sel = match selection {
        Some(s) => Some(s@),
        None => None,
    };
    let mut p: usize = 0;
    while p < count
        invariant
            p <= count,
            count == copy_count(
                values.len() as nat,
                indices.len() as nat,
                match selection {
                    Some(s) => Some(s.len() as nat),
                    None => None,
                },
                active_len,
                gather,
                old(output).len() as nat,
            ),
            sel == (match selection {
                Some(s) => Some(s@),
                None => None,
            }),
            output.len() == old(output).len(),
            copies_in_bounds(values@, indices@, sel, gather, old(output).len() as nat, count as nat),
            output@ == indexed_copies(old(output)@, values@, indices@, sel, gather, p as int),
        decreases count - p,
    {
        let q = match selection {
            Some(s) => s[p] as usize,
            None => p,
        };
        proof {
            assert(q == index_position(sel, p as int));
        }
        let target = indices[q] as usize;
        if gather {
            output.set(p, values[target]);
        } else {
            output.set(target, values[q]);
        }
        p = p + 1;
    }
    proof {
        if !gather {
            lemma_copies_scatter(old(output)@, values@, indices@, sel, count as int);
        }
    }
    Ok(())
}

/// Writes `values[indices[k]]` to output position `k` for every index.
///
/// Error: `OutputTooShort { input: indices length, output: output length }`
/// when the output is shorter than the indices; it is then unchanged.
pub fn gather_into<T: Copy>(values: &Vec<T>, indices: &Vec<u32>, output: &mut Vec<T>) -> (result:
    Result<(), Error>)
    requires
        forall|k: int| 0 <= k < indices.len() ==> #[trigger] indices@[k] < values.len(),
    ensures
        old(output).len() < indices.len() ==> result == Err::<(), Error>(
            Error::OutputTooShort { input: indices.len() as usize, output: old(output).len() as usize },
        ) && final(output)@ == old(output)@,
        old(output).len() >= indices.len() ==> result == Ok::<(), Error>(()) && final(output).len()
            == old(output).len() && (forall|k: int|
            0 <= k < indices.len() ==> #[trigger] final(output)@[k] == values@[indices@[k] as int])
            && (forall|k: int|
            indices.len() <= k < old(output).len() ==> #[trigger] final(output)@[k] == old(output)@[k]),
{
    let result = indexed_copy_selected(values, indices, None, None, true, output);
    proof {
        if old(output).len() >= indices.len() {
            lemma_gather_copies(old(output)@, values@, indices@, indices.len() as int);
        }
    }
    result
}

/// A gather of the first `n` indices fills positions `0..n` and leaves the rest.
proof fn lemma_gather_copies<T>(before: Seq<T>, values: Seq<T>, indices: Seq<u32>, n: int)
    requires
        0 <= n <= indices.len(),
        n <= before.len(),
    ensures
        indexed_copies(before, values, indices, None, true, n).len() == before.len(),
        forall|k: int|
            0 <= k < n ==> #[trigger] indexed_copies(before, values, indices, None, true, n)[k]
                == values[indices[k] as int],
        forall|k: int|
            n <= k < before.len() ==> #[trigger] indexed_copies(before, values, indices, None, true, n)[k]
                == before[k],
    decreases n,
{
    if n > 0 {
        lemma_gather_copies(before, values, indices, n - 1);
    }
}

/// Writes each `values[k]` to output position `indices[k]`; a position that
/// several indices name receives the value of one of them.
///
/// Error: `LengthMismatch { left: values length, right: indices length }` when
/// the columns differ in length; the output is then unchanged.
pub fn scatter<T: Copy>(values: &Vec<T>, indices: &Vec<u32>, output: &mut Vec<T>) -> (result: Result<
    (),
    Error,
>)
    requires
        values.len() == indices.len() ==> forall|k: int|
            0 <= k < indices.len() ==> #[trigger] indices@[k] < old(output).len(),
    ensures
        values.len() != indices.len() ==> result == Err::<(), Error>(
            Error::LengthMismatch { left: values.len() as usize, right: indices.len() as usize },
        ) && final(output)@ == old(output)@,
        values.len() == indices.len() ==> result == Ok::<(), Error>(()) && scattered(
            old(output)@,
            final(output)@,
            values@,
            indices@,
            None,
            values.len() as int,
        ),
{
    indexed_copy_selected(values, indices, None, None, false, output)
}

/// Writes `values[k]` to output position `indices[k]` for each `k` whose
/// stencil flag is set (non-zero); a position that several of them name
/// receives the value of one of them. Indices of rejected items are never
/// read.
///
/// Errors: `LengthMismatch { left: values length, right: indices length }`,
/// then `LengthMismatch { left: values length, right: stencil length }`; the
/// output is then unchanged.
pub fn scatter_where<T: Copy>(
    values: &Vec<T>,
    indices: &Vec<u32>,
    stencil: &Vec<MFlag>,
    output: &mut Vec<T>,
) -> (result: Result<(), Error>)
    requires
        values.len() <= u32::MAX,
        values.len() == indices.len() && values.len() == stencil.len() ==> forall|k: int|
            0 <= k < indices.len() && stencil@[k] != 0 ==> #[trigger] indices@[k] < old(output).len(),
    ensures
        values.len() != indices.len() ==> result == Err::<(), Error>(
            Error::LengthMismatch { left: values.len() as usize, right: indices.len() as usize },
        ) && final(output)@ == old(output)@,
        values.len() == indices.len() && values.len() != stencil.len() ==> result == Err::<
            (),
            Error,
        >(Error::LengthMismatch { left: values.len() as usize, right: stencil.len() as usize })
            && final(output)@ == old(output)@,
        values.len() == indices.len() && values.len() == stencil.len() ==> result == Ok::<(), Error>(
            (),
        ) && scattered(
            old(output)@,
            final(output)@,
            values@,
            indices@,
            Some(selected_indices(stencil@)),
            count_set(stencil@) as int,
        ),
{
    if values.len() != indices.len() {
        return Err(Error::LengthMismatch { left: values.len(), right: indices.len() });
    }
    if values.len() != stencil.len() {
        return Err(Error::LengthMismatch { left: values.len(), right: stencil.len() });
    }
    let flags = crate::selection::normalize_flags(stencil, false);
    proof {
        crate::selection::lemma_truth_indices(stencil@);
        lemma_selected_indices(stencil@, stencil@);
    }
    let control = SelectionControl::from_flags(&flags);
    proof {
        lemma_selected_indices(flags@, flags@);
    }
    let n = control.count as usize;
    let mut chosen: Vec<u32> = Vec::new();
    let mut k: usize = 0;
    while k < n
        invariant
            n == control.count,
            control.selects(flags@),
            k <= n,
            n <= control.indices.len(),
            chosen@ == control.indices@.take(k as int),
        decreases n - k,
    {
        chosen.push(control.indices[k]);
        proof {
            assert(chosen@ =~= control.indices@.take(k + 1));
        }
        k = k + 1;
    }
    proof {
        let sel = selected_indices(stencil@);
        assert(chosen@ =~= sel);
        assert forall|p: int| 0 <= p < n implies {
            let q = #[trigger] index_position(Some(chosen@), p);
            &&& 0 <= q < indices.len()
            &&& q < values.len() && indices@[q] < old(output).len()
        } by {
            assert(sel[p] < stencil.len());
            crate::selection::lemma_selected_flag(stencil@, p);
        }
    }
    indexed_copy_selected(values, indices, Some(&chosen), None, false, output)
}

} // verus!
