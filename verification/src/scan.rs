//! Block-decomposed prefix scans.

use vstd::prelude::*;

use crate::error::Error;
use crate::op::ReductionOp;
use crate::reduce::{
    fold, lemma_fold_concat, lemma_fold_nonempty, lemma_reduce1_concat, lemma_reduce1_push,
    lemma_reduce1_single, reduce1,
};

verus! {

/// Number of items scanned by one block.
pub const BLOCK_SIZE: usize = 256;

/// The `i`-th item of an inclusive scan: `s[0] ⊕ … ⊕ s[i]`.
pub open spec fn inclusive_at<T, Op: ReductionOp<T>>(s: Seq<T>, i: int) -> T {
    reduce1::<T, Op>(s.take(i + 1))
}

/// The `i`-th item of an exclusive scan from `init`: `init ⊕ s[0] ⊕ … ⊕ s[i-1]`.
pub open spec fn exclusive_at<T, Op: ReductionOp<T>>(init: T, s: Seq<T>, i: int) -> T {
    fold::<T, Op>(init, s.take(i))
}

/// One past the last index of block `b` of a sequence of length `n`.
pub open spec fn block_end(b: int, n: int) -> int {
    if b * 256 + 256 < n {
        b * 256 + 256
    } else {
        n
    }
}

/// The items of block `b`.
pub open spec fn block<T>(s: Seq<T>, b: int) -> Seq<T> {
    s.subrange(b * 256, block_end(b, s.len() as int))
}

/// Reduces each block of `BLOCK_SIZE` consecutive items to its total.
fn block_sums<T: Copy, Op: ReductionOp<T>>(input: &Vec<T>) -> (sums: Vec<T>)
    requires
        input.len() > 0,
    ensures
        sums.len() > 0,
        sums.len() * 256 >= input.len(),
        (sums.len() - 1) * 256 < input.len(),
        forall|b: int|
            0 <= b < sums.len() ==> #[trigger] sums@[b] == reduce1::<T, Op>(block(input@, b)),
{
    let n = input.len();
    let mut sums: Vec<T> = Vec::new();
    let mut start: usize = 0;
    while start < n
        invariant
            n == input.len(),
            start <= n,
            start < n ==> start == sums.len() * 256,
            start == n ==> sums.len() * 256 >= n && (sums.len() - 1) * 256 < n,
            forall|b: int|
                0 <= b < sums.len() ==> #[trigger] sums@[b] == reduce1::<T, Op>(block(input@, b)),
        decreases n - start,
    {
        let end = if n - start > BLOCK_SIZE { start + BLOCK_SIZE } else { n };
        let mut acc = input[start];
        let mut j = start + 1;
        proof {
            assert(input@.subrange(start as int, j as int) =~= seq![input@[start as int]]);
            lemma_reduce1_single::<T, Op>(input@[start as int]);
        }
        while j < end
            invariant
                n == input.len(),
                start < j <= end <= n,
                acc == reduce1::<T, Op>(input@.subrange(start as int, j as int)),
            decreases end - j,
        {
            proof {
                assert(input@.subrange(start as int, j + 1) =~= input@.subrange(
                    start as int,
                    j as int,
                ).push(input@[j as int]));
                lemma_reduce1_push::<T, Op>(input@.subrange(start as int, j as int), input@[j as int]);
            }
            acc = Op::apply(acc, input[j]);
            j = j + 1;
        }
        proof {
            assert(block(input@, sums.len() as int) =~= input@.subrange(start as int, end as int));
        }
        sums.push(acc);
        start = end;
    }
    sums
}

/// Computes an inclusive scan: item `i` of the result is `input[0] ⊕ … ⊕ input[i]`.
///
/// The input is split into blocks of `BLOCK_SIZE` items. The block totals are
/// scanned recursively, and every block is then scanned starting from the
/// scanned total of the blocks before it.
pub fn inclusive_scan<T: Copy, Op: ReductionOp<T>>(input: &Vec<T>, op: Op) -> (output: Vec<T>)
    ensures
        output.len() == input.len(),
        forall|i: int|
            0 <= i < input.len() ==> #[trigger] output@[i] == inclusive_at::<T, Op>(input@, i),
    decreases input.len(),
{
    let n = input.len();
    let mut output: Vec<T> = Vec::new();
    if n == 0 {
        return output;
    }
    let sums = block_sums::<T, Op>(input);
    let prefixes = if sums.len() > 1 {
        inclusive_scan::<T, Op>(&sums, op)
    } else {
        Vec::new()
    };
    let mut start: usize = 0;
    let mut b: usize = 0;
    while start < n
        invariant
            n == input.len(),
            start <= n,
            start < n ==> start == b * 256,
            b <= sums.len(),
            sums.len() * 256 >= n,
            (sums.len() - 1) * 256 < n,
            sums.len() > 1 ==> prefixes.len() == sums.len(),
            forall|c: int|
                0 <= c < sums.len() ==> #[trigger] sums@[c] == reduce1::<T, Op>(block(input@, c)),
            sums.len() > 1 ==> forall|c: int|
                0 <= c < sums.len() ==> #[trigger] prefixes@[c] == inclusive_at::<T, Op>(sums@, c),
            output.len() == start,
            forall|i: int|
                0 <= i < start ==> #[trigger] output@[i] == inclusive_at::<T, Op>(input@, i),
        decreases n - start,
    {
        let end = if n - start > BLOCK_SIZE { start + BLOCK_SIZE } else { n };
        proof {
            assert(b < sums.len());
            assert(end == block_end(b as int, n as int));
            if b > 0 {
                // The scanned block totals before this block reduce the whole prefix.
                lemma_blocks_prefix::<T, Op>(input@, sums@, b as int);
                assert(sums@.take(b as int) =~= sums@.take((b - 1) + 1));
            }
        }
        let mut j = start;
        let mut local = input[start];
        proof {
            assert(input@.subrange(start as int, start + 1) =~= seq![input@[start as int]]);
            lemma_reduce1_single::<T, Op>(input@[start as int]);
        }
        while j < end
            invariant
                n == input.len(),
                start < end <= n,
                start == b * 256,
                end == block_end(b as int, n as int),
                start <= j <= end,
                b < sums.len(),
                sums.len() > 1 ==> prefixes.len() == sums.len(),
                b > 0 ==> sums.len() > 1,
                b > 0 ==> prefixes@[b - 1] == reduce1::<T, Op>(input@.take(start as int)),
                j < end ==> local == reduce1::<T, Op>(input@.subrange(start as int, j + 1)),
                output.len() == j,
                forall|i: int|
                    0 <= i < j ==> #[trigger] output@[i] == inclusive_at::<T, Op>(input@, i),
            decreases end - j,
        {
            // The block-local scan, prefixed by the scanned totals of the blocks before it.
            let value = if b > 0 {
                Op::apply(prefixes[b - 1], local)
            } else {
                local
            };
            proof {
                let part = input@.subrange(start as int, j + 1);
                if b > 0 {
                    assert(input@.take(j + 1) =~= input@.take(start as int) + part);
                    lemma_reduce1_concat::<T, Op>(input@.take(start as int), part);
                } else {
                    assert(input@.take(j + 1) =~= part);
                }
            }
            output.push(value);
            j = j + 1;
            if j < end {
                proof {
                    assert(input@.subrange(start as int, j + 1) =~= input@.subrange(
                        start as int,
                        j as int,
                    ).push(input@[j as int]));
                    lemma_reduce1_push::<T, Op>(
                        input@.subrange(start as int, j as int),
                        input@[j as int],
                    );
                }
                local = Op::apply(local, input[j]);
            }
        }
        start = end;
        b = b + 1;
    }
    output
}

/// Computes an inclusive scan into a preallocated output of the same length.
///
/// A length difference is rejected with `LengthMismatch { left: input length,
/// right: output length }` and leaves the output unchanged.
pub fn inclusive_scan_into<T: Copy, Op: ReductionOp<T>>(
    input: &Vec<T>,
    op: Op,
    output: &mut Vec<T>,
) -> (result: Result<(), Error>)
    ensures
        old(output).len() != input.len() ==> result == Err::<(), Error>(
            Error::LengthMismatch { left: input.len() as usize, right: old(output).len() as usize },
        ) && final(output)@ == old(output)@,
        old(output).len() == input.len() ==> result is Ok && final(output).len() == input.len()
            && forall|i: int|
            0 <= i < input.len() ==> #[trigger] final(output)@[i] == inclusive_at::<T, Op>(
                input@,
                i,
            ),
{
    if output.len() != input.len() {
        return Err(Error::LengthMismatch { left: input.len(), right: output.len() });
    }
    *output = inclusive_scan::<T, Op>(input, op);
    Ok(())
}

/// Computes an exclusive scan: item `i` is `init ⊕ input[0] ⊕ … ⊕ input[i-1]`,
/// so `init` is applied once and item 0 is `init` itself.
pub fn exclusive_scan<T: Copy, Op: ReductionOp<T>>(input: &Vec<T>, init: T, op: Op) -> (output:
    Vec<T>)
    ensures
        output.len() == input.len(),
        forall|i: int|
            0 <= i < input.len() ==> #[trigger] output@[i] == exclusive_at::<T, Op>(init, input@, i),
{
    let inclusive = inclusive_scan::<T, Op>(input, op);
    let n = input.len();
    let mut output: Vec<T> = Vec::new();
    let mut i: usize = 0;
    while i < n
        invariant
            n == input.len(),
            inclusive.len() == n,
            forall|k: int|
                0 <= k < n ==> #[trigger] inclusive@[k] == inclusive_at::<T, Op>(input@, k),
            i <= n,
            output.len() == i,
            forall|k: int|
                0 <= k < i ==> #[trigger] output@[k] == exclusive_at::<T, Op>(init, input@, k),
        decreases n - i,
    {
        let value = if i == 0 {
            init
        } else {
            Op::apply(init, inclusive[i - 1])
        };
        proof {
            if i == 0 {
                assert(input@.take(0) =~= Seq::<T>::empty());
            } else {
                assert(input@.take(i as int) =~= input@.take((i - 1) + 1));
                lemma_fold_nonempty::<T, Op>(init, input@.take(i as int));
            }
        }
        output.push(value);
        i = i + 1;
    }
    output
}

/// Computes an exclusive scan into a preallocated output of the same length.
///
/// A length difference is rejected with `LengthMismatch { left: input length,
/// right: output length }` and leaves the output unchanged.
pub fn exclusive_scan_into<T: Copy, Op: ReductionOp<T>>(
    input: &Vec<T>,
    init: T,
    op: Op,
    output: &mut Vec<T>,
) -> (result: Result<(), Error>)
    ensures
        old(output).len() != input.len() ==> result == Err::<(), Error>(
            Error::LengthMismatch { left: input.len() as usize, right: old(output).len() as usize },
        ) && final(output)@ == old(output)@,
        old(output).len() == input.len() ==> result is Ok && final(output).len() == input.len()
            && forall|i: int|
            0 <= i < input.len() ==> #[trigger] final(output)@[i] == exclusive_at::<T, Op>(
                init,
                input@,
                i,
            ),
{
    if output.len() != input.len() {
        return Err(Error::LengthMismatch { left: input.len(), right: output.len() });
    }
    *output = exclusive_scan::<T, Op>(input, init, op);
    Ok(())
}

/// Combines every item with its predecessor, keeping the first item:
/// item 0 is `input[0]` and item `i > 0` is `input[i-1] ⊕ input[i]`.
pub fn adjacent_difference<T: Copy, Op: ReductionOp<T>>(input: &Vec<T>, op: Op) -> (output: Vec<
    T,
>)
    ensures
        output.len() == input.len(),
        input.len() > 0 ==> output@[0] == input@[0],
        forall|i: int|
            0 < i < input.len() ==> #[trigger] output@[i] == Op::combine(input@[i - 1], input@[i]),
{
    let n = input.len();
    let mut output: Vec<T> = Vec::new();
    let mut i: usize = 0;
    while i < n
        invariant
            n == input.len(),
            i <= n,
            output.len() == i,
            i > 0 ==> output@[0] == input@[0],
            forall|k: int|
                0 < k < i ==> #[trigger] output@[k] == Op::combine(input@[k - 1], input@[k]),
        decreases n - i,
    {
        let value = if i == 0 {
            input[0]
        } else {
            Op::apply(input[i - 1], input[i])
        };
        output.push(value);
        i = i + 1;
    }
    output
}

/// The last item of a `u32` column, or `0` for an empty column.
pub fn last_u32(input: &Vec<u32>) -> (last: u32)
    ensures
        last == (if input.len() == 0 { 0u32 } else { input@.last() }),
{
    if input.len() == 0 {
        0u32
    } else {
        input[input.len() - 1]
    }
}

/// Whole blocks before block `b` reduce to the inclusive scan of the block totals at `b - 1`.
proof fn lemma_blocks_prefix<T, Op: ReductionOp<T>>(s: Seq<T>, sums: Seq<T>, b: int)
    requires
        0 < b < sums.len(),
        b * 256 < s.len(),
        forall|c: int| 0 <= c < sums.len() ==> #[trigger] sums[c] == reduce1::<T, Op>(block(s, c)),
    ensures
        reduce1::<T, Op>(sums.take(b)) == reduce1::<T, Op>(s.take(b * 256)),
    decreases b,
{
    assert(block_end(b - 1, s.len() as int) == b * 256);
    if b == 1 {
        assert(sums.take(1) =~= seq![sums[0]]);
        lemma_reduce1_single::<T, Op>(sums[0]);
        assert(s.take(256) =~= block(s, 0));
    } else {
        lemma_blocks_prefix::<T, Op>(s, sums, b - 1);
        assert(sums.take(b) =~= sums.take(b - 1).push(sums[b - 1]));
        lemma_reduce1_push::<T, Op>(sums.take(b - 1), sums[b - 1]);
        assert(s.take(b * 256) =~= s.take((b - 1) * 256) + block(s, b - 1));
        lemma_reduce1_concat::<T, Op>(s.take((b - 1) * 256), block(s, b - 1));
    }
}

/// An exclusive scan is the inclusive scan shifted by one item, with `init`
/// combined in front: item `i + 1` of the exclusive scan is `init ⊕` item `i`
/// of the inclusive scan, and item `0` is `init`.
pub proof fn law_exclusive_is_shifted_inclusive<T, Op: ReductionOp<T>>(init: T, s: Seq<T>, i: int)
    requires
        0 <= i < s.len(),
    ensures
        exclusive_at::<T, Op>(init, s, 0) == init,
        exclusive_at::<T, Op>(init, s, i + 1) == Op::combine(init, inclusive_at::<T, Op>(s, i)),
{
    assert(s.take(0) =~= Seq::<T>::empty());
    crate::reduce::lemma_fold_nonempty::<T, Op>(init, s.take(i + 1));
}

/// The last item of an inclusive scan is the reduction of all items: folding
/// from `init` gives `init ⊕` that last item.
pub proof fn law_scan_last_is_reduction<T, Op: ReductionOp<T>>(init: T, s: Seq<T>)
    requires
        s.len() > 0,
    ensures
        crate::reduce::fold::<T, Op>(init, s) == Op::combine(init, inclusive_at::<T, Op>(s, s.len() - 1)),
{
    assert(s.take(s.len() as int) =~= s);
    crate::reduce::lemma_fold_nonempty::<T, Op>(init, s);
}

} // verus!
