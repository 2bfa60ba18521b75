//! Binary searches over sorted columns.

use vstd::prelude::*;

verus! {

/// The items are in nondecreasing order.
pub open spec fn sorted_u32(s: Seq<u32>) -> bool {
    forall|i: int, j: int| 0 <= i <= j < s.len() ==> s[i] <= s[j]
}

/// Number of items less than `value`.
pub open spec fn count_below(s: Seq<u32>, value: u32) -> nat
    decreases s.len(),
{
    if s.len() == 0 {
        0
    } else {
        count_below(s.drop_last(), value) + if s.last() < value { 1nat } else { 0nat }
    }
}

/// In a sorted sequence, the items below `value` are exactly the first
/// `count_below` items.
pub proof fn lemma_count_below_partition(s: Seq<u32>, value: u32, p: int)
    requires
        0 <= p <= s.len(),
        forall|j: int| 0 <= j < p ==> #[trigger] s[j] < value,
        forall|j: int| p <= j < s.len() ==> #[trigger] s[j] >= value,
    ensures
        count_below(s, value) == p,
    decreases s.len(),
{
    if s.len() > 0 {
        let prev = s.drop_last();
        if p == s.len() {
            lemma_count_below_partition(prev, value, p - 1);
        } else {
            lemma_count_below_partition(prev, value, p);
        }
    }
}

/// Returns the first index whose item is not less than `value`, which in a
/// sorted column is the number of items less than `value`.
pub fn lower_bound_u32(sorted: &Vec<u32>, value: u32) -> (index: usize)
    requires
        sorted_u32(sorted@),
    ensures
        index <= sorted.len(),
        forall|j: int| 0 <= j < index ==> #[trigger] sorted@[j] < value,
        forall|j: int| index <= j < sorted.len() ==> #[trigger] sorted@[j] >= value,
        index == count_below(sorted@, value),
{
    let mut low: usize = 0;
    let mut high: usize = sorted.len();
    while low < high
        invariant
            sorted_u32(sorted@),
            low <= high <= sorted.len(),
            forall|j: int| 0 <= j < low ==> #[trigger] sorted@[j] < value,
            forall|j: int| high <= j < sorted.len() ==> #[trigger] sorted@[j] >= value,
        decreases high - low,
    {
        let middle = low + (high - low) / 2;
        if sorted[middle] < value {
            low = middle + 1;
        } else {
            high = middle;
        }
    }
    proof {
        lemma_count_below_partition(sorted@, value, low as int);
    }
    low
}

} // verus!
