//! Stable sorting: an ordering permutation built by merging sorted runs of
//! indices, and its application to the items.

use vstd::prelude::*;

use crate::merge::{before, code_range, lemma_merge_step, lemma_merged_contains, lemma_merged_len, law_merge_permutation, merged_by};
use crate::op::{BinaryPredicateOp, StrictWeakOrder};

verus! {

broadcast use vstd::seq_lib::group_seq_properties;

/// Index order induced by the items: `i` before `j` when `s[i]` is strictly
/// less than `s[j]`.
pub open spec fn by_item<T, Less: BinaryPredicateOp<T>>(s: Seq<T>) -> spec_fn(u32, u32) -> bool {
    |i: u32, j: u32| before::<T, Less>(s[i as int], s[j as int])
}

/// Neither item is less than the other.
pub open spec fn equivalent<T, Less: BinaryPredicateOp<T>>(x: T, y: T) -> bool {
    !before::<T, Less>(x, y) && !before::<T, Less>(y, x)
}

/// The items at the indices of `p` are in order.
pub open spec fn sorted_indices<T, Less: BinaryPredicateOp<T>>(s: Seq<T>, p: Seq<u32>) -> bool {
    forall|i: int, j: int|
        0 <= i < j < p.len() ==> !before::<T, Less>(s[#[trigger] p[j] as int], s[#[trigger] p[i] as int])
}

/// Indices of equivalent items appear in increasing order.
pub open spec fn stable_indices<T, Less: BinaryPredicateOp<T>>(s: Seq<T>, p: Seq<u32>) -> bool {
    forall|i: int, j: int|
        0 <= i < j < p.len() && equivalent::<T, Less>(s[#[trigger] p[i] as int], s[#[trigger] p[j] as int])
            ==> p[i] < p[j]
}

/// `p` is the stable sorting order of the items at `lo..hi`: a permutation of
/// those indices under which the items are sorted and equivalent items keep
/// their relative order.
pub open spec fn stable_order<T, Less: BinaryPredicateOp<T>>(s: Seq<T>, p: Seq<u32>, lo: int, hi: int) -> bool {
    &&& p.len() == hi - lo
    &&& p.to_multiset() == code_range(lo, hi).to_multiset()
    &&& sorted_indices::<T, Less>(s, p)
    &&& stable_indices::<T, Less>(s, p)
}

/// The merge-sort order of the items at `lo..hi`: the halves sorted apart and
/// merged stably.
pub open spec fn merge_sort_order<T, Less: BinaryPredicateOp<T>>(s: Seq<T>, lo: int, hi: int) -> Seq<u32>
    decreases hi - lo,
{
    if hi - lo <= 0 {
        Seq::empty()
    } else if hi - lo == 1 {
        seq![lo as u32]
    } else {
        let mid = lo + (hi - lo) / 2;
        merged_by(
            merge_sort_order::<T, Less>(s, lo, mid),
            merge_sort_order::<T, Less>(s, mid, hi),
            by_item::<T, Less>(s),
        )
    }
}

/// The items at `p`, in order.
pub open spec fn gather_items<T>(s: Seq<T>, p: Seq<u32>) -> Seq<T> {
    p.map_values(|i: u32| s[i as int])
}

/// Dropping the first index keeps an order sorted and stable.
proof fn lemma_order_drop_first<T, Less: BinaryPredicateOp<T>>(s: Seq<T>, p: Seq<u32>)
    requires
        p.len() > 0,
        sorted_indices::<T, Less>(s, p),
        stable_indices::<T, Less>(s, p),
    ensures
        sorted_indices::<T, Less>(s, p.drop_first()),
        stable_indices::<T, Less>(s, p.drop_first()),
{
    let q = p.drop_first();
    assert forall|i: int, j: int| 0 <= i < j < q.len() implies !before::<T, Less>(
        s[#[trigger] q[j] as int],
        s[#[trigger] q[i] as int],
    ) by {
        assert(q[i] == p[i + 1] && q[j] == p[j + 1]);
    }
    assert forall|i: int, j: int|
        0 <= i < j < q.len() && equivalent::<T, Less>(
            s[#[trigger] q[i] as int],
            s[#[trigger] q[j] as int],
        ) implies q[i] < q[j] by {
        assert(q[i] == p[i + 1] && q[j] == p[j + 1]);
    }
}

/// Merging two sorted, stable index runs, every index of the first below every
/// index of the second, gives a sorted, stable run.
proof fn lemma_merge_runs_ordered<T, Less: StrictWeakOrder<T>>(s: Seq<T>, a: Seq<u32>, b: Seq<u32>)
    requires
        sorted_indices::<T, Less>(s, a),
        sorted_indices::<T, Less>(s, b),
        stable_indices::<T, Less>(s, a),
        stable_indices::<T, Less>(s, b),
        forall|x: u32, y: u32| #![trigger a.contains(x), b.contains(y)] a.contains(x) && b.contains(y) ==> x < y,
    ensures
        sorted_indices::<T, Less>(s, merged_by(a, b, by_item::<T, Less>(s))),
        stable_indices::<T, Less>(s, merged_by(a, b, by_item::<T, Less>(s))),
    decreases a.len() + b.len(),
{
    let lt = by_item::<T, Less>(s);
    let m = merged_by(a, b, lt);
    if a.len() == 0 || b.len() == 0 {
        return;
    }
    let h: u32;
    let rest: Seq<u32>;
    if lt(b[0], a[0]) {
        h = b[0];
        rest = merged_by(a, b.drop_first(), lt);
        lemma_order_drop_first::<T, Less>(s, b);
        assert forall|x: u32, y: u32| a.contains(x) && b.drop_first().contains(y) implies x < y by {
            let k = choose|k: int| 0 <= k < b.drop_first().len() && b.drop_first()[k] == y;
            assert(b[k + 1] == y);
            assert(b.contains(y));
        }
        lemma_merge_runs_ordered::<T, Less>(s, a, b.drop_first());
        assert forall|t: int| 0 <= t < rest.len() implies !before::<T, Less>(
            s[rest[t] as int],
            s[h as int],
        ) && (equivalent::<T, Less>(s[h as int], s[rest[t] as int]) ==> h < rest[t]) by {
            let x = rest[t];
            assert(rest.contains(x));
            lemma_merged_contains(a, b.drop_first(), lt, x);
            if a.contains(x) {
                let k = choose|k: int| 0 <= k < a.len() && a[k] == x;
                if k > 0 {
                    assert(!before::<T, Less>(s[a[k] as int], s[a[0] as int]));
                } else {
                    Less::irreflexive(s[a[0] as int]);
                }
                if before::<T, Less>(s[x as int], s[h as int]) {
                    Less::transitive(s[x as int], s[h as int], s[a[0] as int]);
                }
                Less::weak(s[h as int], s[x as int], s[a[0] as int]);
            } else {
                let k = choose|k: int| 0 <= k < b.drop_first().len() && b.drop_first()[k] == x;
                assert(b[k + 1] == x);
                assert(!before::<T, Less>(s[b[k + 1] as int], s[b[0] as int]));
            }
        }
    } else {
        h = a[0];
        rest = merged_by(a.drop_first(), b, lt);
        lemma_order_drop_first::<T, Less>(s, a);
        assert forall|x: u32, y: u32| a.drop_first().contains(x) && b.contains(y) implies x < y by {
            let k = choose|k: int| 0 <= k < a.drop_first().len() && a.drop_first()[k] == x;
            assert(a[k + 1] == x);
            assert(a.contains(x));
        }
        lemma_merge_runs_ordered::<T, Less>(s, a.drop_first(), b);
        assert forall|t: int| 0 <= t < rest.len() implies !before::<T, Less>(
            s[rest[t] as int],
            s[h as int],
        ) && (equivalent::<T, Less>(s[h as int], s[rest[t] as int]) ==> h < rest[t]) by {
            let x = rest[t];
            assert(rest.contains(x));
            lemma_merged_contains(a.drop_first(), b, lt, x);
            if a.drop_first().contains(x) {
                let k = choose|k: int| 0 <= k < a.drop_first().len() && a.drop_first()[k] == x;
                assert(a[k + 1] == x);
                assert(!before::<T, Less>(s[a[k + 1] as int], s[a[0] as int]));
            } else {
                let k = choose|k: int| 0 <= k < b.len() && b[k] == x;
                assert(a.contains(h));
                if k > 0 {
                    assert(!before::<T, Less>(s[b[k] as int], s[b[0] as int]));
                } else {
                    Less::irreflexive(s[b[0] as int]);
                }
                if before::<T, Less>(s[x as int], s[h as int]) {
                    Less::weak(s[x as int], s[b[0] as int], s[h as int]);
                }
            }
        }
    }
    assert(m == seq![h] + rest);
    assert forall|i: int, j: int| 0 <= i < j < m.len() implies !before::<T, Less>(
        s[#[trigger] m[j] as int],
        s[#[trigger] m[i] as int],
    ) by {
        assert(m[j] == rest[j - 1]);
        if i > 0 {
            assert(m[i] == rest[i - 1]);
        }
    }
    assert forall|i: int, j: int|
        0 <= i < j < m.len() && equivalent::<T, Less>(
            s[#[trigger] m[i] as int],
            s[#[trigger] m[j] as int],
        ) implies m[i] < m[j] by {
        assert(m[j] == rest[j - 1]);
        if i > 0 {
            assert(m[i] == rest[i - 1]);
        }
    }
}

/// The codes `lo..mid` followed by `mid..hi` are the codes `lo..hi`.
proof fn lemma_code_range_split(lo: int, mid: int, hi: int)
    requires
        0 <= lo <= mid <= hi <= u32::MAX,
    ensures
        code_range(lo, mid) + code_range(mid, hi) == code_range(lo, hi),
{
    assert(code_range(lo, mid) + code_range(mid, hi) =~= code_range(lo, hi));
}

/// An index of an order of `lo..hi` lies in `lo..hi`.
proof fn lemma_order_member(p: Seq<u32>, lo: int, hi: int, x: u32)
    requires
        0 <= lo <= hi <= u32::MAX,
        p.to_multiset() == code_range(lo, hi).to_multiset(),
        p.contains(x),
    ensures
        lo <= x < hi,
{
    broadcast use vstd::seq_lib::to_multiset_contains;

    assert(p.to_multiset().count(x) > 0);
    assert(code_range(lo, hi).contains(x));
    let k = choose|k: int| 0 <= k < code_range(lo, hi).len() && code_range(lo, hi)[k] == x;
}

/// The merge-sort order is the stable sorting order.
pub proof fn law_merge_sort_is_stable_order<T, Less: StrictWeakOrder<T>>(s: Seq<T>, lo: int, hi: int)
    requires
        0 <= lo <= hi <= u32::MAX,
    ensures
        stable_order::<T, Less>(s, merge_sort_order::<T, Less>(s, lo, hi), lo, hi),
    decreases hi - lo,
{
    broadcast use vstd::seq_lib::lemma_multiset_commutative;

    let p = merge_sort_order::<T, Less>(s, lo, hi);
    if hi - lo == 0 {
        assert(p =~= code_range(lo, hi));
    } else if hi - lo == 1 {
        assert(p =~= code_range(lo, hi));
    } else {
        let mid = lo + (hi - lo) / 2;
        let a = merge_sort_order::<T, Less>(s, lo, mid);
        let b = merge_sort_order::<T, Less>(s, mid, hi);
        law_merge_sort_is_stable_order::<T, Less>(s, lo, mid);
        law_merge_sort_is_stable_order::<T, Less>(s, mid, hi);
        assert forall|x: u32, y: u32| a.contains(x) && b.contains(y) implies x < y by {
            lemma_order_member(a, lo, mid, x);
            lemma_order_member(b, mid, hi, y);
        }
        lemma_merge_runs_ordered::<T, Less>(s, a, b);
        lemma_merged_len(a, b, by_item::<T, Less>(s));
        law_merge_permutation(a, b, by_item::<T, Less>(s));
        lemma_code_range_split(lo, mid, hi);
    }
}

/// Stably merges two index runs by their items.
fn merge_runs<T: Copy, Less: BinaryPredicateOp<T>>(items: &Vec<T>, a: &Vec<u32>, b: &Vec<u32>) -> (out:
    Vec<u32>)
    requires
        forall|k: int| 0 <= k < a.len() ==> #[trigger] a@[k] < items.len(),
        forall|k: int| 0 <= k < b.len() ==> #[trigger] b@[k] < items.len(),
    ensures
        out@ == merged_by(a@, b@, by_item::<T, Less>(items@)),
{
    let ghost lt = by_item::<T, Less>(items@);
    let al = a.len();
    let bl = b.len();
    let mut out: Vec<u32> = Vec::new();
    let mut i: usize = 0;
    let mut j: usize = 0;
    while i < al || j < bl
        invariant
            al == a.len(),
            bl == b.len(),
            i <= al,
            j <= bl,
            lt == by_item::<T, Less>(items@),
            forall|k: int| 0 <= k < a.len() ==> #[trigger] a@[k] < items.len(),
            forall|k: int| 0 <= k < b.len() ==> #[trigger] b@[k] < items.len(),
            out@ + merged_by(a@.skip(i as int), b@.skip(j as int), lt) == merged_by(a@, b@, lt),
        decreases al + bl - i - j,
    {
        proof {
            lemma_merge_step(a@, b@, i as int, j as int, lt);
        }
        let take_right = i == al || (j < bl && Less::apply(items[b[j] as usize], items[a[i] as usize])
            != 0);
        let ghost before_step = out@;
        if take_right {
            out.push(b[j]);
            j = j + 1;
            proof {
                assert(out@ + merged_by(a@.skip(i as int), b@.skip(j as int), lt) =~= before_step + (
                seq![b@[j - 1]] + merged_by(a@.skip(i as int), b@.skip(j as int), lt)));
            }
        } else {
            out.push(a[i]);
            i = i + 1;
            proof {
                assert(out@ + merged_by(a@.skip(i as int), b@.skip(j as int), lt) =~= before_step + (
                seq![a@[i - 1]] + merged_by(a@.skip(i as int), b@.skip(j as int), lt)));
            }
        }
    }
    proof {
        assert(a@.skip(i as int).len() == 0);
        assert(b@.skip(j as int).len() == 0);
        assert(out@ =~= merged_by(a@, b@, lt));
    }
    out
}

/// An index of the merge-sort order of `lo..hi` lies in `lo..hi`.
pub proof fn lemma_merge_sort_member<T, Less: StrictWeakOrder<T>>(s: Seq<T>, lo: int, hi: int)
    requires
        0 <= lo <= hi <= u32::MAX,
    ensures
        forall|k: int|
            0 <= k < merge_sort_order::<T, Less>(s, lo, hi).len() ==> lo <= #[trigger] merge_sort_order::<
                T,
                Less,
            >(s, lo, hi)[k] < hi,
{
    law_merge_sort_is_stable_order::<T, Less>(s, lo, hi);
    let p = merge_sort_order::<T, Less>(s, lo, hi);
    assert forall|k: int| 0 <= k < p.len() implies lo <= #[trigger] p[k] < hi by {
        assert(p.contains(p[k]));
        lemma_order_member(p, lo, hi, p[k]);
    }
}

/// Builds the merge-sort order of the items at `lo..hi`.
pub(crate) fn sort_range<T: Copy, Less: StrictWeakOrder<T>>(items: &Vec<T>, lo: usize, hi: usize) -> (order: Vec<
    u32,
>)
    requires
        lo <= hi <= items.len(),
        items.len() <= u32::MAX,
    ensures
        order@ == merge_sort_order::<T, Less>(items@, lo as int, hi as int),
    decreases hi - lo,
{
    if hi - lo == 0 {
        return Vec::new();
    }
    if hi - lo == 1 {
        let mut order: Vec<u32> = Vec::new();
        order.push(lo as u32);
        proof {
            assert(order@ =~= seq![lo as u32]);
        }
        return order;
    }
    let mid = lo + (hi - lo) / 2;
    let left = sort_range::<T, Less>(items, lo, mid);
    let right = sort_range::<T, Less>(items, mid, hi);
    proof {
        lemma_merge_sort_member::<T, Less>(items@, lo as int, mid as int);
        lemma_merge_sort_member::<T, Less>(items@, mid as int, hi as int);
    }
    merge_runs::<T, Less>(items, &left, &right)
}

/// Returns the stable ordering permutation of `input`: the index of the item
/// that goes to each output position when the input is sorted by `less`,
/// equivalent items keeping their input order.
pub fn sort_control<T: Copy, Less: StrictWeakOrder<T>>(input: &Vec<T>, less: Less) -> (order: Vec<u32>)
    requires
        input.len() <= u32::MAX,
    ensures
        order@ == merge_sort_order::<T, Less>(input@, 0, input.len() as int),
        stable_order::<T, Less>(input@, order@, 0, input.len() as int),
{
    proof {
        law_merge_sort_is_stable_order::<T, Less>(input@, 0, input.len() as int);
    }
    sort_range::<T, Less>(input, 0, input.len())
}

/// Returns the items of `input` sorted stably by `less`.
pub fn sort<T: Copy, Less: StrictWeakOrder<T>>(input: &Vec<T>, less: Less) -> (sorted: Vec<T>)
    requires
        input.len() <= u32::MAX,
    ensures
        sorted@ == gather_items(input@, merge_sort_order::<T, Less>(input@, 0, input.len() as int)),
        stable_order::<T, Less>(input@, merge_sort_order::<T, Less>(input@, 0, input.len() as int), 0, input.len() as int),
        crate::merge::sorted_by::<T, Less>(sorted@),
{
    let order = sort_control(input, less);
    proof {
        lemma_merge_sort_member::<T, Less>(input@, 0, input.len() as int);
    }
    let n = order.len();
    let mut sorted: Vec<T> = Vec::new();
    let mut k: usize = 0;
    while k < n
        invariant
            n == order.len(),
            k <= n,
            sorted.len() == k,
            forall|t: int| 0 <= t < n ==> #[trigger] order@[t] < input.len(),
            forall|t: int| 0 <= t < k ==> #[trigger] sorted@[t] == input@[order@[t] as int],
        decreases n - k,
    {
        sorted.push(input[order[k] as usize]);
        k = k + 1;
    }
    proof {
        assert(sorted@ =~= gather_items(input@, order@));
        assert forall|i: int, j: int| 0 <= i < j < sorted.len() implies !before::<T, Less>(
            #[trigger] sorted@[j],
            #[trigger] sorted@[i],
        ) by {
            assert(sorted@[j] == input@[order@[j] as int]);
            assert(sorted@[i] == input@[order@[i] as int]);
        }
    }
    sorted
}

/// Two sorted, stable index sequences holding the same indices are equal: a
/// stable sorting order is unique.
pub proof fn law_stable_order_unique<T, Less: StrictWeakOrder<T>>(s: Seq<T>, p: Seq<u32>, q: Seq<u32>)
    requires
        sorted_indices::<T, Less>(s, p),
        sorted_indices::<T, Less>(s, q),
        stable_indices::<T, Less>(s, p),
        stable_indices::<T, Less>(s, q),
        p.to_multiset() == q.to_multiset(),
    ensures
        p == q,
    decreases p.len(),
{
    broadcast use vstd::seq_lib::to_multiset_contains;
    broadcast use vstd::seq_lib::to_multiset_len;

    vstd::seq_lib::to_multiset_len(p);
    vstd::seq_lib::to_multiset_len(q);
    if p.len() > 0 {
        let x = p[0];
        let y = q[0];
        assert(q.contains(y));
        assert(q.to_multiset().count(y) > 0);
        assert(p.contains(y));
        assert(p.contains(x));
        assert(p.to_multiset().count(x) > 0);
        assert(q.contains(x));
        if x != y {
            let k = choose|k: int| 0 <= k < p.len() && p[k] == y;
            let m = choose|m: int| 0 <= m < q.len() && q[m] == x;
            assert(k > 0 && m > 0);
            assert(!before::<T, Less>(s[p[k] as int], s[p[0] as int]));
            assert(!before::<T, Less>(s[q[m] as int], s[q[0] as int]));
            assert(equivalent::<T, Less>(s[p[0] as int], s[p[k] as int]));
            assert(p[0] < p[k]);
            assert(equivalent::<T, Less>(s[q[0] as int], s[q[m] as int]));
            assert(q[0] < q[m]);
        }
        vstd::seq_lib::to_multiset_remove(p, 0);
        vstd::seq_lib::to_multiset_remove(q, 0);
        assert(p.remove(0) =~= p.drop_first());
        assert(q.remove(0) =~= q.drop_first());
        lemma_order_drop_first::<T, Less>(s, p);
        lemma_order_drop_first::<T, Less>(s, q);
        law_stable_order_unique::<T, Less>(s, p.drop_first(), q.drop_first());
        assert(p =~= seq![x] + p.drop_first());
        assert(q =~= seq![y] + q.drop_first());
    }
}

} // verus!
