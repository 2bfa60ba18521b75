//! Tiled multi-pass reductions and the fold that states their result.

use vstd::prelude::*;

use crate::op::ReductionOp;

verus! {

/// Number of items one reduction unit combines in the first pass of a tile
/// (one tile holds `256 * 256` items).
pub const TILE_SIZE: usize = 65536;

/// Left fold of `s`, starting from `init`: `init ⊕ s[0] ⊕ … ⊕ s[n-1]`.
pub open spec fn fold<T, Op: ReductionOp<T>>(init: T, s: Seq<T>) -> T
    decreases s.len(),
{
    if s.len() == 0 {
        init
    } else {
        Op::combine(fold::<T, Op>(init, s.drop_last()), s.last())
    }
}

/// Combination of all items of a non-empty sequence: `s[0] ⊕ … ⊕ s[n-1]`.
pub open spec fn reduce1<T, Op: ReductionOp<T>>(s: Seq<T>) -> T
    recommends
        s.len() > 0,
{
    fold::<T, Op>(s[0], s.skip(1))
}

/// Folding a concatenation folds the second part from the fold of the first.
pub proof fn lemma_fold_concat<T, Op: ReductionOp<T>>(init: T, a: Seq<T>, b: Seq<T>)
    ensures
        fold::<T, Op>(init, a + b) == fold::<T, Op>(fold::<T, Op>(init, a), b),
    decreases b.len(),
{
    if b.len() == 0 {
        assert(a + b =~= a);
    } else {
        assert((a + b).drop_last() =~= a + b.drop_last());
        lemma_fold_concat::<T, Op>(init, a, b.drop_last());
    }
}

/// By associativity, a left operand can be pulled out of a fold.
pub proof fn lemma_fold_shift<T, Op: ReductionOp<T>>(x: T, y: T, s: Seq<T>)
    ensures
        fold::<T, Op>(Op::combine(x, y), s) == Op::combine(x, fold::<T, Op>(y, s)),
    decreases s.len(),
{
    if s.len() > 0 {
        lemma_fold_shift::<T, Op>(x, y, s.drop_last());
        Op::associative(x, fold::<T, Op>(y, s.drop_last()), s.last());
    }
}

/// Folding a non-empty sequence combines the start value with its reduction.
pub proof fn lemma_fold_nonempty<T, Op: ReductionOp<T>>(x: T, s: Seq<T>)
    requires
        s.len() > 0,
    ensures
        fold::<T, Op>(x, s) == Op::combine(x, reduce1::<T, Op>(s)),
{
    let head = seq![s[0]];
    assert(s =~= head + s.skip(1));
    lemma_fold_concat::<T, Op>(x, head, s.skip(1));
    assert(head.drop_last() =~= Seq::<T>::empty());
    assert(fold::<T, Op>(x, head.drop_last()) == x);
    assert(head.last() == s[0]);
    assert(fold::<T, Op>(x, head) == Op::combine(x, s[0]));
    lemma_fold_shift::<T, Op>(x, s[0], s.skip(1));
}

/// The reduction of a concatenation of non-empty parts combines their reductions.
pub proof fn lemma_reduce1_concat<T, Op: ReductionOp<T>>(a: Seq<T>, b: Seq<T>)
    requires
        a.len() > 0,
        b.len() > 0,
    ensures
        reduce1::<T, Op>(a + b) == Op::combine(reduce1::<T, Op>(a), reduce1::<T, Op>(b)),
{
    assert((a + b).skip(1) =~= a.skip(1) + b);
    assert((a + b)[0] == a[0]);
    lemma_fold_concat::<T, Op>(a[0], a.skip(1), b);
    lemma_fold_nonempty::<T, Op>(reduce1::<T, Op>(a), b);
}

/// Appending one item combines it onto the reduction.
pub proof fn lemma_reduce1_push<T, Op: ReductionOp<T>>(s: Seq<T>, x: T)
    requires
        s.len() > 0,
    ensures
        reduce1::<T, Op>(s.push(x)) == Op::combine(reduce1::<T, Op>(s), x),
{
    assert(s.push(x) =~= s + seq![x]);
    lemma_reduce1_concat::<T, Op>(s, seq![x]);
    assert(seq![x].skip(1) =~= Seq::<T>::empty());
}

/// The reduction of a single item is that item.
pub proof fn lemma_reduce1_single<T, Op: ReductionOp<T>>(x: T)
    ensures
        reduce1::<T, Op>(seq![x]) == x,
{
    assert(seq![x].skip(1) =~= Seq::<T>::empty());
}

/// One past the last index of tile `t` of an input of length `n`.
pub open spec fn tile_end(n: int, t: int) -> int {
    if (t + 1) * (TILE_SIZE as int) < n {
        (t + 1) * (TILE_SIZE as int)
    } else {
        n
    }
}

/// Reduces every tile of `TILE_SIZE` consecutive items to one partial.
///
/// Partial `t` is the reduction of the items `t * TILE_SIZE` up to the end of
/// tile `t`; there is one partial per started tile. The partials reduce to the
/// same value as the input, and there are fewer of them than input items
/// unless the input holds a single item.
pub fn reduce_pass<T: Copy, Op: ReductionOp<T>>(input: &Vec<T>) -> (partials: Vec<T>)
    requires
        input.len() > 0,
    ensures
        (partials.len() - 1) * (TILE_SIZE as int) < input.len() <= partials.len() * (TILE_SIZE as int),
        forall|t: int|
            0 <= t < partials.len() ==> #[trigger] partials@[t] == reduce1::<T, Op>(
                input@.subrange(t * (TILE_SIZE as int), tile_end(input.len() as int, t)),
            ),
        partials.len() > 0,
        partials.len() <= input.len(),
        input.len() > 1 ==> partials.len() < input.len(),
        reduce1::<T, Op>(partials@) == reduce1::<T, Op>(input@),
{
    let n = input.len();
    let mut partials: Vec<T> = Vec::new();
    let mut start: usize = 0;
    while start < n
        invariant
            n == input.len(),
            start <= n,
            partials.len() <= start,
            (start > 0 && n > 1) ==> partials.len() < start,
            (start == 0) == (partials.len() == 0),
            start > 0 ==> reduce1::<T, Op>(partials@) == reduce1::<T, Op>(input@.take(start as int)),
            start == (if partials.len() * (TILE_SIZE as int) <= n {
                partials.len() * (TILE_SIZE as int)
            } else {
                n as int
            }),
            partials.len() > 0 ==> (partials.len() - 1) * (TILE_SIZE as int) < start,
            forall|t: int|
                0 <= t < partials.len() ==> #[trigger] partials@[t] == reduce1::<T, Op>(
                    input@.subrange(t * (TILE_SIZE as int), tile_end(n as int, t)),
                ),
        decreases n - start,
    {
        let end = if n - start > TILE_SIZE { start + TILE_SIZE } else { n };
        let mut acc = input[start];
        let mut j = start + 1;
        proof {
            assert(input@.subrange(start as int, j as int) =~= seq![input@[start as int]]);
            lemma_reduce1_single::<T, Op>(input@[start as int]);
        }
        while j < end
            invariant
                n == input.len(),
                start < j <= end <= n,
                acc == reduce1::<T, Op>(input@.subrange(start as int, j as int)),
            decreases end - j,
        {
            proof {
                assert(input@.subrange(start as int, j + 1) =~= input@.subrange(
                    start as int,
                    j as int,
                ).push(input@[j as int]));
                lemma_reduce1_push::<T, Op>(input@.subrange(start as int, j as int), input@[j as int]);
            }
            acc = Op::apply(acc, input[j]);
            j = j + 1;
        }
        proof {
            let tile = input@.subrange(start as int, end as int);
            if start == 0 {
                assert(input@.take(end as int) =~= tile);
                assert(partials@.push(acc) =~= seq![acc]);
                lemma_reduce1_single::<T, Op>(acc);
            } else {
                assert(input@.take(end as int) =~= input@.take(start as int) + tile);
                lemma_reduce1_concat::<T, Op>(input@.take(start as int), tile);
                lemma_reduce1_push::<T, Op>(partials@, acc);
            }
        }
        partials.push(acc);
        start = end;
    }
    proof {
        assert(input@.take(n as int) =~= input@);
    }
    partials
}

/// Reduces all input items, starting from `init`.
///
/// Items are reduced tile by tile; the partials are reduced again until one
/// remains, which is finally combined with `init`. The result is the left
/// fold `init ⊕ input[0] ⊕ … ⊕ input[n-1]`; an empty input gives `init`.
pub fn reduce<T: Copy, Op: ReductionOp<T>>(input: &Vec<T>, init: T, op: Op) -> (result: T)
    ensures
        result == fold::<T, Op>(init, input@),
{
    if input.len() == 0 {
        return init;
    }
    let mut current = reduce_pass::<T, Op>(input);
    while current.len() > 1
        invariant
            current.len() > 0,
            input.len() > 0,
            reduce1::<T, Op>(current@) == reduce1::<T, Op>(input@),
        decreases current.len(),
    {
        current = reduce_pass::<T, Op>(&current);
    }
    proof {
        assert(current@ =~= seq![current@[0]]);
        lemma_reduce1_single::<T, Op>(current@[0]);
        lemma_fold_nonempty::<T, Op>(init, input@);
    }
    Op::apply(init, current[0])
}

} // verus!
