//! Item-wise transforms: `map` and the variable-length expansion `flat_map`.

use vstd::prelude::*;

use crate::error::Error;
use crate::op::{ExpandOp, UnaryOp};
use crate::seg::segmentation::overflow_len;

verus! {

/// Applies `op` to every item.
pub fn map<T: Copy, Op: UnaryOp<T>>(input: &Vec<T>, op: Op) -> (output: Vec<Op::Output>)
    ensures
        output@ == input@.map_values(|x: T| Op::spec_apply(x)),
{
    let n = input.len();
    let mut output: Vec<Op::Output> = Vec::new();
    let mut i: usize = 0;
    while i < n
        invariant
            n == input.len(),
            i <= n,
            output@ == input@.take(i as int).map_values(|x: T| Op::spec_apply(x)),
        decreases n - i,
    {
        output.push(Op::apply(input[i]));
        proof {
            assert(output@ =~= input@.take(i + 1).map_values(|x: T| Op::spec_apply(x)));
        }
        i = i + 1;
    }
    proof {
        assert(input@.take(n as int) =~= input@);
    }
    output
}

/// The number of outputs the items before position `i` expand to.
pub open spec fn expand_offset<T, Op: ExpandOp<T>>(s: Seq<T>, i: int) -> int
    decreases i,
{
    if i <= 0 {
        0
    } else {
        expand_offset::<T, Op>(s, i - 1) + Op::spec_count(s[i - 1])
    }
}

/// The expansion's element offsets: entry `i` is where the outputs of item
/// `i` start, and the last entry is the output length.
pub open spec fn expand_offsets<T, Op: ExpandOp<T>>(s: Seq<T>) -> Seq<u32> {
    Seq::new(s.len() + 1, |i: int| expand_offset::<T, Op>(s, i) as u32)
}

/// Offsets only grow.
pub proof fn lemma_expand_offset_mono<T, Op: ExpandOp<T>>(s: Seq<T>, i: int, j: int)
    requires
        0 <= i <= j <= s.len(),
    ensures
        expand_offset::<T, Op>(s, i) <= expand_offset::<T, Op>(s, j),
        0 <= expand_offset::<T, Op>(s, i),
    decreases j,
{
    if i < j {
        lemma_expand_offset_mono::<T, Op>(s, i, j - 1);
    } else if i > 0 {
        lemma_expand_offset_mono::<T, Op>(s, i - 1, j - 1);
    }
}

/// Expands every item `x` into the `count(x)` outputs `generate(x, 0..)`,
/// keeping item order. Returns the outputs and the element offsets.
///
/// Error: `LengthTooLarge { len }` when the output length does not fit in
/// `MIndex`; `len` is `2^32`, or `usize::MAX` where `usize` cannot hold it.
pub fn expand<T: Copy, Op: ExpandOp<T>>(input: &Vec<T>, op: Op) -> (result: Result<
    (Vec<Op::Output>, Vec<u32>),
    Error,
>)
    ensures
        expand_offset::<T, Op>(input@, input.len() as int) > u32::MAX ==> result == Err::<
            (Vec<Op::Output>, Vec<u32>),
            Error,
        >(Error::LengthTooLarge { len: overflow_len() }),
        expand_offset::<T, Op>(input@, input.len() as int) <= u32::MAX ==> (result matches Ok(
            parts,
        ) && parts.1@ == expand_offsets::<T, Op>(input@) && parts.0.len() == expand_offset::<T, Op>(
            input@,
            input.len() as int,
        ) && forall|i: int, j: int|
            #![trigger parts.0@[expand_offset::<T, Op>(input@, i) + j]]
            0 <= i < input.len() && 0 <= j < Op::spec_count(input@[i]) ==> parts.0@[expand_offset::<
                T,
                Op,
            >(input@, i) + j] == Op::spec_generate(input@[i], j as u32)),
{
    let n = input.len();
    let mut offsets: Vec<u32> = Vec::new();
    let mut total: u64 = 0;
    let mut i: usize = 0;
    while i < n
        invariant
            n == input.len(),
            i <= n,
            total == expand_offset::<T, Op>(input@, i as int),
            total <= u32::MAX,
            offsets@ == expand_offsets::<T, Op>(input@).take(i as int),
        decreases n - i,
    {
        offsets.push(total as u32);
        proof {
            assert(offsets@ =~= expand_offsets::<T, Op>(input@).take(i + 1));
        }
        let count = Op::count(input[i]);
        total = total + count as u64;
        if total > u32::MAX as u64 {
            proof {
                assert forall|m: int| i + 1 <= m <= n implies expand_offset::<T, Op>(input@, m)
                    > u32::MAX by {
                    lemma_expand_offset_mono::<T, Op>(input@, i + 1, m);
                }
            }
            return Err(Error::LengthTooLarge { len: crate::seg::segmentation::overflow_len_value() });
        }
        i = i + 1;
    }
    offsets.push(total as u32);
    proof {
        assert(offsets@ =~= expand_offsets::<T, Op>(input@));
    }
    let mut output: Vec<Op::Output> = Vec::new();
    let mut k: usize = 0;
    while k < n
        invariant
            n == input.len(),
            k <= n,
            offsets@ == expand_offsets::<T, Op>(input@),
            total == expand_offset::<T, Op>(input@, n as int),
            total <= u32::MAX,
            output.len() == expand_offset::<T, Op>(input@, k as int),
            forall|i: int, j: int|
                #![trigger output@[expand_offset::<T, Op>(input@, i) + j]]
                0 <= i < k && 0 <= j < Op::spec_count(input@[i]) ==> output@[expand_offset::<T, Op>(
                    input@,
                    i,
                ) + j] == Op::spec_generate(input@[i], j as u32),
        decreases n - k,
    {
        let x = input[k];
        let count = Op::count(x);
        proof {
            lemma_expand_offset_mono::<T, Op>(input@, k + 1, n as int);
            lemma_expand_offset_mono::<T, Op>(input@, k as int, k + 1);
        }
        let ghost start = output.len();
        proof {
            assert forall|i: int| 0 <= i <= k implies 0 <= #[trigger] expand_offset::<T, Op>(input@, i)
                <= start by {
                lemma_expand_offset_mono::<T, Op>(input@, i, k as int);
            }
            assert forall|i: int| 0 <= i < k implies expand_offset::<T, Op>(input@, i)
                + Op::spec_count(input@[i]) <= start by {
                lemma_expand_offset_mono::<T, Op>(input@, i + 1, k as int);
            }
        }
        let mut j: u32 = 0;
        while j < count
            invariant
                count == Op::spec_count(x),
                x == input@[k as int],
                k < n,
                n == input.len(),
                j <= count,
                start == expand_offset::<T, Op>(input@, k as int),
                output.len() == start + j,
                forall|i: int, t: int|
                    #![trigger output@[expand_offset::<T, Op>(input@, i) + t]]
                    0 <= i < k && 0 <= t < Op::spec_count(input@[i]) ==> output@[expand_offset::<
                        T,
                        Op,
                    >(input@, i) + t] == Op::spec_generate(input@[i], t as u32),
                forall|t: int| 0 <= t < j ==> #[trigger] output@[start + t] == Op::spec_generate(x, t as u32),
                forall|i: int| 0 <= i <= k ==> 0 <= #[trigger] expand_offset::<T, Op>(input@, i) <= start,
                forall|i: int|
                    #![trigger expand_offset::<T, Op>(input@, i)]
                    0 <= i < k ==> expand_offset::<T, Op>(input@, i) + Op::spec_count(input@[i]) <= start,
            decreases count - j,
        {
            let ghost before = output@;
            output.push(Op::generate(x, j));
            proof {
                assert forall|i: int, t: int|
                    0 <= i < k && 0 <= t < Op::spec_count(input@[i]) implies #[trigger] output@[expand_offset::<
                    T,
                    Op,
                >(input@, i) + t] == Op::spec_generate(input@[i], t as u32) by {
                    assert(expand_offset::<T, Op>(input@, i) + t < before.len());
                    assert(output@[expand_offset::<T, Op>(input@, i) + t] == before[expand_offset::<T, Op>(input@, i) + t]);
                }
            }
            j = j + 1;
        }
        proof {
            assert forall|i: int| 0 <= i < k + 1 implies expand_offset::<T, Op>(input@, i)
                + Op::spec_count(input@[i]) <= output.len() by {
                lemma_expand_offset_mono::<T, Op>(input@, i + 1, k + 1);
            }
        }
        k = k + 1;
    }
    Ok((output, offsets))
}

} // verus!
