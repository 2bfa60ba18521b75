//! Stable merge of two ranges: a permutation control, its application to a
//! payload, and the direct merge.

use vstd::prelude::*;

use crate::error::Error;
use crate::op::{BinaryPredicateOp, StrictWeakOrder};

verus! {

broadcast use vstd::seq_lib::group_seq_properties;

/// `less(a, b)` is set.
pub open spec fn before<T, Less: BinaryPredicateOp<T>>(a: T, b: T) -> bool {
    Less::spec_apply(a, b) != 0
}

/// No later item is strictly less than an earlier one.
pub open spec fn sorted_by<T, Less: BinaryPredicateOp<T>>(s: Seq<T>) -> bool {
    forall|i: int, j: int| 0 <= i < j < s.len() ==> !before::<T, Less>(#[trigger] s[j], #[trigger] s[i])
}

/// The stable merge of `a` and `b` under `lt`: the head of `b` goes first
/// only when it is strictly less than the head of `a`, so ties keep `a` first.
pub open spec fn merged_by<A>(a: Seq<A>, b: Seq<A>, lt: spec_fn(A, A) -> bool) -> Seq<A>
    decreases a.len() + b.len(),
{
    if a.len() == 0 {
        b
    } else if b.len() == 0 {
        a
    } else if lt(b[0], a[0]) {
        seq![b[0]] + merged_by(a, b.drop_first(), lt)
    } else {
        seq![a[0]] + merged_by(a.drop_first(), b, lt)
    }
}

/// The stable merge of two item ranges.
pub open spec fn merged<T, Less: BinaryPredicateOp<T>>(left: Seq<T>, right: Seq<T>) -> Seq<T> {
    merged_by(left, right, |x: T, y: T| before::<T, Less>(x, y))
}

/// The item a merge code stands for: `left[c]` below `left.len()`, else
/// `right[c - left.len()]`.
pub open spec fn decode<T>(left: Seq<T>, right: Seq<T>, code: u32) -> T {
    if code < left.len() {
        left[code as int]
    } else {
        right[code - left.len()]
    }
}

/// The item a merge code stands for under a control whose left input holds
/// `capacity` items: `left[c]` below `capacity`, else `right[c - capacity]`.
pub open spec fn decode_by<T>(left: Seq<T>, right: Seq<T>, capacity: nat, code: u32) -> T {
    if code < capacity {
        left[code as int]
    } else {
        right[code - capacity]
    }
}

/// The codes `from..to` in order.
pub open spec fn code_range(from: int, to: int) -> Seq<u32> {
    Seq::new((to - from) as nat, |k: int| (from + k) as u32)
}

/// The merge order as codes: `l` stands for `left[l]` and `left.len() + r`
/// for `right[r]`.
pub open spec fn merge_codes<T, Less: BinaryPredicateOp<T>>(left: Seq<T>, right: Seq<T>) -> Seq<u32> {
    merged_by(
        code_range(0, left.len() as int),
        code_range(left.len() as int, (left.len() + right.len()) as int),
        |i: u32, j: u32| before::<T, Less>(decode(left, right, i), decode(left, right, j)),
    )
}

/// Merging commutes with mapping both inputs.
pub proof fn lemma_merged_map<A, B>(a: Seq<A>, b: Seq<A>, f: spec_fn(A) -> B, lt: spec_fn(B, B) -> bool)
    ensures
        merged_by(a.map_values(f), b.map_values(f), lt) == merged_by(
            a,
            b,
            |x: A, y: A| lt(f(x), f(y)),
        ).map_values(f),
    decreases a.len() + b.len(),
{
    let la = |x: A, y: A| lt(f(x), f(y));
    let fa = a.map_values(f);
    let fb = b.map_values(f);
    if a.len() == 0 {
        assert(fa.len() == 0);
    } else if b.len() == 0 {
        assert(fb.len() == 0);
    } else if lt(f(b[0]), f(a[0])) {
        lemma_merged_map(a, b.drop_first(), f, lt);
        assert(fb.drop_first() =~= b.drop_first().map_values(f));
        assert((seq![b[0]] + merged_by(a, b.drop_first(), la)).map_values(f) =~= seq![f(b[0])]
            + merged_by(a, b.drop_first(), la).map_values(f));
    } else {
        lemma_merged_map(a.drop_first(), b, f, lt);
        assert(fa.drop_first() =~= a.drop_first().map_values(f));
        assert((seq![a[0]] + merged_by(a.drop_first(), b, la)).map_values(f) =~= seq![f(a[0])]
            + merged_by(a.drop_first(), b, la).map_values(f));
    }
}

/// The merge length is the sum of the input lengths.
pub proof fn lemma_merged_len<A>(a: Seq<A>, b: Seq<A>, lt: spec_fn(A, A) -> bool)
    ensures
        merged_by(a, b, lt).len() == a.len() + b.len(),
    decreases a.len() + b.len(),
{
    if a.len() > 0 && b.len() > 0 {
        if lt(b[0], a[0]) {
            lemma_merged_len(a, b.drop_first(), lt);
        } else {
            lemma_merged_len(a.drop_first(), b, lt);
        }
    }
}

/// One merge control serves every payload: decoding the merge order of two
/// ranges gives their stable merge.
pub proof fn law_merge_control_decodes_to_merge<T, Less: BinaryPredicateOp<T>>(left: Seq<T>, right: Seq<T>)
    requires
        left.len() + right.len() <= u32::MAX,
    ensures
        merge_codes::<T, Less>(left, right).map_values(|c: u32| decode(left, right, c))
            == merged::<T, Less>(left, right),
        merge_codes::<T, Less>(left, right).len() == left.len() + right.len(),
{
    let f = |c: u32| decode(left, right, c);
    let lt = |x: T, y: T| before::<T, Less>(x, y);
    let a = code_range(0, left.len() as int);
    let b = code_range(left.len() as int, (left.len() + right.len()) as int);
    assert(a.map_values(f) =~= left);
    assert(b.map_values(f) =~= right);
    lemma_merged_map(a, b, f, lt);
    assert((|x: u32, y: u32| lt(f(x), f(y))) =~= (|i: u32, j: u32|
        before::<T, Less>(decode(left, right, i), decode(left, right, j))));
    lemma_merged_len(a, b, |i: u32, j: u32| before::<T, Less>(decode(left, right, i), decode(left, right, j)));
}

/// One step of a merge from positions `i` of `a` and `j` of `b`: the next
/// item comes from `b` when `a` is exhausted or `b[j]` is strictly less.
pub proof fn lemma_merge_step<A>(a: Seq<A>, b: Seq<A>, i: int, j: int, lt: spec_fn(A, A) -> bool)
    requires
        0 <= i <= a.len(),
        0 <= j <= b.len(),
        i + j < a.len() + b.len(),
    ensures
        (i == a.len() || (j < b.len() && lt(b[j], a[i]))) ==> merged_by(a.skip(i), b.skip(j), lt)
            == seq![b[j]] + merged_by(a.skip(i), b.skip(j + 1), lt),
        !(i == a.len() || (j < b.len() && lt(b[j], a[i]))) ==> merged_by(a.skip(i), b.skip(j), lt)
            == seq![a[i]] + merged_by(a.skip(i + 1), b.skip(j), lt),
{
    let sa = a.skip(i);
    let sb = b.skip(j);
    if i < a.len() {
        assert(sa.drop_first() =~= a.skip(i + 1));
        assert(sa[0] == a[i]);
    }
    if j < b.len() {
        assert(sb.drop_first() =~= b.skip(j + 1));
        assert(sb[0] == b[j]);
    }
    if i == a.len() {
        assert(sa.len() == 0);
        assert(sb =~= seq![b[j]] + b.skip(j + 1));
    } else if j == b.len() {
        assert(sb.len() == 0);
        assert(sa =~= seq![a[i]] + a.skip(i + 1));
    }
}

/// For each output position of a merge, the code of the item it receives.
pub struct MergeControl {
    pub permutation: Vec<u32>,
    pub left_capacity: usize,
}

impl MergeControl {
    /// The control is the stable merge order of `left` and `right`.
    pub open spec fn merges<T, Less: BinaryPredicateOp<T>>(&self, left: Seq<T>, right: Seq<T>) -> bool {
        &&& self.left_capacity == left.len()
        &&& self.permutation@ == merge_codes::<T, Less>(left, right)
    }
}

/// Computes the stable merge order of `left` and `right` as codes.
pub fn merge_control<T: Copy, Less: BinaryPredicateOp<T>>(
    left: &Vec<T>,
    right: &Vec<T>,
    less: Less,
) -> (control: MergeControl)
    requires
        left.len() + right.len() <= u32::MAX,
    ensures
        control.merges::<T, Less>(left@, right@),
{
    let ll = left.len();
    let rl = right.len();
    let ghost a = code_range(0, ll as int);
    let ghost b = code_range(ll as int, (ll + rl) as int);
    let ghost lt = |x: u32, y: u32| before::<T, Less>(decode(left@, right@, x), decode(left@, right@, y));
    let mut permutation: Vec<u32> = Vec::new();
    let mut i: usize = 0;
    let mut j: usize = 0;
    while i + j < ll + rl
        invariant
            ll == left.len(),
            rl == right.len(),
            ll + rl <= u32::MAX,
            i <= ll,
            j <= rl,
            a == code_range(0, ll as int),
            b == code_range(ll as int, (ll + rl) as int),
            lt == (|x: u32, y: u32| before::<T, Less>(decode(left@, right@, x), decode(left@, right@, y))),
            permutation@ + merged_by(a.skip(i as int), b.skip(j as int), lt) == merged_by(a, b, lt),
        decreases ll + rl - i - j,
    {
        proof {
            lemma_merge_step(a, b, i as int, j as int, lt);
        }
        let take_right = i == ll || (j < rl && Less::apply(right[j], left[i]) != 0);
        proof {
            if j < rl && i < ll {
                assert(decode(left@, right@, b[j as int]) == right@[j as int]);
                assert(decode(left@, right@, a[i as int]) == left@[i as int]);
            }
        }
        let ghost before_step = permutation@;
        if take_right {
            permutation.push((ll + j) as u32);
            j = j + 1;
            proof {
                assert(permutation@ + merged_by(a.skip(i as int), b.skip(j as int), lt) =~= before_step
                    + (seq![b[j - 1]] + merged_by(a.skip(i as int), b.skip(j as int), lt)));
            }
        } else {
            permutation.push(i as u32);
            i = i + 1;
            proof {
                assert(permutation@ + merged_by(a.skip(i as int), b.skip(j as int), lt) =~= before_step
                    + (seq![a[i - 1]] + merged_by(a.skip(i as int), b.skip(j as int), lt)));
            }
        }
    }
    proof {
        assert(a.skip(i as int).len() == 0);
        assert(b.skip(j as int).len() == 0);
        assert(permutation@ =~= merged_by(a, b, lt));
    }
    MergeControl { permutation, left_capacity: ll }
}

/// Writes the items a merge control orders to the front of `output`: a code
/// below the control's left capacity reads `left` there, any other code reads
/// `right` at the code minus that capacity.
///
/// Error: `OutputTooShort { input: control length, output: output length }`
/// when the output is shorter than the control; the output is then unchanged.
pub fn merge_apply<T: Copy>(
    left: &Vec<T>,
    right: &Vec<T>,
    control: &MergeControl,
    output: &mut Vec<T>,
) -> (result: Result<(), Error>)
    requires
        control.left_capacity <= left.len(),
        forall|k: int|
            0 <= k < control.permutation.len() ==> #[trigger] control.permutation@[k]
                < control.left_capacity + right.len(),
    ensures
        old(output).len() < control.permutation.len() ==> result == Err::<(), Error>(
            Error::OutputTooShort {
                input: control.permutation.len() as usize,
                output: old(output).len() as usize,
            },
        ) && final(output)@ == old(output)@,
        old(output).len() >= control.permutation.len() ==> result == Ok::<(), Error>(())
            && final(output).len() == old(output).len() && final(output)@.take(
            control.permutation.len() as int,
        ) == control.permutation@.map_values(
            |c: u32| decode_by(left@, right@, control.left_capacity as nat, c),
        ) && final(output)@.skip(control.permutation.len() as int) == old(output)@.skip(
            control.permutation.len() as int,
        ),
{
    let n = control.permutation.len();
    if output.len() < n {
        return Err(Error::OutputTooShort { input: n, output: output.len() });
    }
    let base = control.left_capacity;
    let mut k: usize = 0;
    while k < n
        invariant
            n == control.permutation.len(),
            base == control.left_capacity,
            base <= left.len(),
            n <= output.len(),
            output.len() == old(output).len(),
            k <= n,
            forall|t: int| 0 <= t < n ==> #[trigger] control.permutation@[t] < base + right.len(),
            forall|t: int|
                0 <= t < k ==> #[trigger] output@[t] == decode_by(
                    left@,
                    right@,
                    base as nat,
                    control.permutation@[t],
                ),
            forall|t: int| k <= t < output.len() ==> #[trigger] output@[t] == old(output)@[t],
        decreases n - k,
    {
        let code = control.permutation[k] as usize;
        let item = if code < base {
            left[code]
        } else {
            right[code - base]
        };
        output.set(k, item);
        k = k + 1;
    }
    proof {
        assert(output@.take(n as int) =~= control.permutation@.map_values(
            |c: u32| decode_by(left@, right@, base as nat, c),
        ));
        assert(output@.skip(n as int) =~= old(output)@.skip(n as int));
    }
    Ok(())
}

/// Every item of a merge comes from one of its inputs.
pub proof fn lemma_merged_contains<A>(a: Seq<A>, b: Seq<A>, lt: spec_fn(A, A) -> bool, x: A)
    requires
        merged_by(a, b, lt).contains(x),
    ensures
        a.contains(x) || b.contains(x),
    decreases a.len() + b.len(),
{
    if a.len() > 0 && b.len() > 0 {
        if lt(b[0], a[0]) {
            let rest = merged_by(a, b.drop_first(), lt);
            if x != b[0] {
                assert(rest.contains(x));
                lemma_merged_contains(a, b.drop_first(), lt, x);
                if b.drop_first().contains(x) {
                    let k = choose|k: int| 0 <= k < b.drop_first().len() && b.drop_first()[k] == x;
                    assert(b[k + 1] == x);
                }
            } else {
                assert(b[0] == x);
            }
        } else {
            let rest = merged_by(a.drop_first(), b, lt);
            if x != a[0] {
                assert(rest.contains(x));
                lemma_merged_contains(a.drop_first(), b, lt, x);
                if a.drop_first().contains(x) {
                    let k = choose|k: int| 0 <= k < a.drop_first().len() && a.drop_first()[k] == x;
                    assert(a[k + 1] == x);
                }
            } else {
                assert(a[0] == x);
            }
        }
    }
}

/// A merge holds every item of both inputs, as often as they do together.
pub proof fn law_merge_permutation<A>(a: Seq<A>, b: Seq<A>, lt: spec_fn(A, A) -> bool)
    ensures
        merged_by(a, b, lt).to_multiset() == a.to_multiset().add(b.to_multiset()),
    decreases a.len() + b.len(),
{
    broadcast use vstd::seq_lib::lemma_multiset_commutative;
    broadcast use vstd::multiset::group_multiset_axioms;

    if a.len() == 0 {
        assert(a.to_multiset() =~= vstd::multiset::Multiset::empty());
        assert(merged_by(a, b, lt).to_multiset() =~= a.to_multiset().add(b.to_multiset()));
    } else if b.len() == 0 {
        assert(b.to_multiset() =~= vstd::multiset::Multiset::empty());
        assert(merged_by(a, b, lt).to_multiset() =~= a.to_multiset().add(b.to_multiset()));
    } else if lt(b[0], a[0]) {
        law_merge_permutation(a, b.drop_first(), lt);
        assert(b =~= seq![b[0]] + b.drop_first());
        assert(merged_by(a, b, lt).to_multiset() =~= a.to_multiset().add(b.to_multiset()));
    } else {
        law_merge_permutation(a.drop_first(), b, lt);
        assert(a =~= seq![a[0]] + a.drop_first());
        assert(merged_by(a, b, lt).to_multiset() =~= a.to_multiset().add(b.to_multiset()));
    }
}

/// Under a strict weak order, merging two sorted ranges gives a sorted range.
pub proof fn law_merge_sorted<T, Less: StrictWeakOrder<T>>(left: Seq<T>, right: Seq<T>)
    requires
        sorted_by::<T, Less>(left),
        sorted_by::<T, Less>(right),
    ensures
        sorted_by::<T, Less>(merged::<T, Less>(left, right)),
    decreases left.len() + right.len(),
{
    let lt = |x: T, y: T| before::<T, Less>(x, y);
    let m = merged::<T, Less>(left, right);
    if left.len() > 0 && right.len() > 0 {
        let a = left;
        let b = right;
        if before::<T, Less>(b[0], a[0]) {
            let rest = merged_by(a, b.drop_first(), lt);
            law_merge_sorted::<T, Less>(a, b.drop_first());
            assert(m == seq![b[0]] + rest);
            assert forall|j: int| 0 < j < m.len() implies !before::<T, Less>(m[j], m[0]) by {
                let x = m[j];
                assert(rest[j - 1] == x);
                assert(rest.contains(x));
                lemma_merged_contains(a, b.drop_first(), lt, x);
                if a.contains(x) {
                    let k = choose|k: int| 0 <= k < a.len() && a[k] == x;
                    if before::<T, Less>(x, b[0]) {
                        Less::transitive(x, b[0], a[0]);
                        if k == 0 {
                            Less::irreflexive(a[0]);
                        } else {
                            assert(!before::<T, Less>(a[k], a[0]));
                        }
                    }
                } else {
                    let k = choose|k: int| 0 <= k < b.drop_first().len() && b.drop_first()[k] == x;
                    assert(b[k + 1] == x);
                    assert(!before::<T, Less>(b[k + 1], b[0]));
                }
            }
            assert forall|i: int, j: int| 0 <= i < j < m.len() implies !before::<T, Less>(
                #[trigger] m[j],
                #[trigger] m[i],
            ) by {
                if i > 0 {
                    assert(m[i] == rest[i - 1]);
                    assert(m[j] == rest[j - 1]);
                }
            }
        } else {
            let rest = merged_by(a.drop_first(), b, lt);
            law_merge_sorted::<T, Less>(a.drop_first(), b);
            assert(m == seq![a[0]] + rest);
            assert forall|j: int| 0 < j < m.len() implies !before::<T, Less>(m[j], m[0]) by {
                let x = m[j];
                assert(rest[j - 1] == x);
                assert(rest.contains(x));
                lemma_merged_contains(a.drop_first(), b, lt, x);
                if a.drop_first().contains(x) {
                    let k = choose|k: int| 0 <= k < a.drop_first().len() && a.drop_first()[k] == x;
                    assert(a[k + 1] == x);
                    assert(!before::<T, Less>(a[k + 1], a[0]));
                } else {
                    let k = choose|k: int| 0 <= k < b.len() && b[k] == x;
                    if before::<T, Less>(x, a[0]) {
                        Less::weak(x, b[0], a[0]);
                        if k == 0 {
                            Less::irreflexive(b[0]);
                        } else {
                            assert(!before::<T, Less>(b[k], b[0]));
                        }
                    }
                }
            }
            assert forall|i: int, j: int| 0 <= i < j < m.len() implies !before::<T, Less>(
                #[trigger] m[j],
                #[trigger] m[i],
            ) by {
                if i > 0 {
                    assert(m[i] == rest[i - 1]);
                    assert(m[j] == rest[j - 1]);
                }
            }
        }
    }
}

/// Cutting `left` after `i` items and `right` after `j` items is a cut of
/// their stable merge: no later right item goes before the last kept left
/// item, and the last kept right item goes strictly before the next left item.
pub open spec fn merge_cut<T, Less: BinaryPredicateOp<T>>(left: Seq<T>, right: Seq<T>, i: int, j: int) -> bool {
    &&& 0 <= i <= left.len()
    &&& 0 <= j <= right.len()
    &&& (i == 0 || j == right.len() || !before::<T, Less>(right[j], left[i - 1]))
    &&& (j == 0 || i == left.len() || before::<T, Less>(right[j - 1], left[i]))
}

/// In sorted ranges, a right item not before a left item stays so for any
/// later right item and earlier left item.
proof fn lemma_not_before_spread<T, Less: StrictWeakOrder<T>>(
    left: Seq<T>,
    right: Seq<T>,
    k: int,
    m: int,
    a: int,
    b: int,
)
    requires
        sorted_by::<T, Less>(left),
        sorted_by::<T, Less>(right),
        0 <= k <= a < right.len(),
        0 <= b <= m < left.len(),
        !before::<T, Less>(right[k], left[m]),
    ensures
        !before::<T, Less>(right[a], left[b]),
{
    if before::<T, Less>(right[a], left[b]) {
        Less::weak(right[a], right[k], left[b]);
        if a > k {
            assert(!before::<T, Less>(right[a], right[k]));
        } else {
            Less::irreflexive(right[a]);
        }
        Less::weak(right[k], left[m], left[b]);
        if m > b {
            assert(!before::<T, Less>(left[m], left[b]));
        } else {
            Less::irreflexive(left[m]);
        }
    }
}

/// A cut of sorted ranges splits their merge into the merge of the kept
/// prefixes followed by the merge of the rest.
pub proof fn lemma_cut_split<T, Less: StrictWeakOrder<T>>(left: Seq<T>, right: Seq<T>, i: int, j: int)
    requires
        sorted_by::<T, Less>(left),
        sorted_by::<T, Less>(right),
        merge_cut::<T, Less>(left, right, i, j),
    ensures
        merged::<T, Less>(left, right) == merged::<T, Less>(left.take(i), right.take(j)) + merged::<T, Less>(
            left.skip(i),
            right.skip(j),
        ),
    decreases i + j,
{
    let lt = |x: T, y: T| before::<T, Less>(x, y);
    if i == 0 && j == 0 {
        assert(left.take(0) =~= Seq::<T>::empty());
        assert(right.take(0) =~= Seq::<T>::empty());
        assert(left.skip(0) =~= left);
        assert(right.skip(0) =~= right);
        assert(merged_by(left.take(0), right.take(0), lt) =~= Seq::<T>::empty());
        assert(Seq::<T>::empty() + merged::<T, Less>(left, right) =~= merged::<T, Less>(left, right));
    } else if left.len() == 0 {
        assert(left.take(i) =~= left);
        assert(left.skip(i) =~= left);
        assert(right =~= right.take(j) + right.skip(j));
    } else if right.len() == 0 {
        assert(right.take(j) =~= right);
        assert(right.skip(j) =~= right);
        assert(left =~= left.take(i) + left.skip(i));
    } else if lt(right[0], left[0]) {
        if j == 0 {
            lemma_not_before_spread::<T, Less>(left, right, 0, i - 1, 0, 0);
        }
        let r2 = right.drop_first();
        assert forall|a: int, b: int| 0 <= a < b < r2.len() implies !before::<T, Less>(
            #[trigger] r2[b],
            #[trigger] r2[a],
        ) by {
            assert(r2[a] == right[a + 1] && r2[b] == right[b + 1]);
        }
        lemma_cut_split::<T, Less>(left, r2, i, j - 1);
        assert(r2.skip(j - 1) =~= right.skip(j));
        assert(right.take(j).drop_first() =~= r2.take(j - 1));
        if i == 0 {
            assert(left.take(0) =~= Seq::<T>::empty());
            assert(right.take(j) =~= seq![right[0]] + r2.take(j - 1));
        } else {
            assert(left.take(i)[0] == left[0]);
            assert(right.take(j)[0] == right[0]);
        }
        assert(merged::<T, Less>(left, right) =~= seq![right[0]] + merged::<T, Less>(left, r2));
        assert(merged::<T, Less>(left.take(i), right.take(j)) =~= seq![right[0]] + merged::<T, Less>(
            left.take(i),
            r2.take(j - 1),
        ));
    } else {
        if i == 0 {
            lemma_not_before_spread::<T, Less>(left, right, 0, 0, j - 1, 0);
        }
        let l2 = left.drop_first();
        assert forall|a: int, b: int| 0 <= a < b < l2.len() implies !before::<T, Less>(
            #[trigger] l2[b],
            #[trigger] l2[a],
        ) by {
            assert(l2[a] == left[a + 1] && l2[b] == left[b + 1]);
        }
        lemma_cut_split::<T, Less>(l2, right, i - 1, j);
        assert(l2.skip(i - 1) =~= left.skip(i));
        assert(left.take(i).drop_first() =~= l2.take(i - 1));
        if j == 0 {
            assert(right.take(0) =~= Seq::<T>::empty());
            assert(left.take(i) =~= seq![left[0]] + l2.take(i - 1));
        } else {
            assert(left.take(i)[0] == left[0]);
            assert(right.take(j)[0] == right[0]);
        }
        assert(merged::<T, Less>(left, right) =~= seq![left[0]] + merged::<T, Less>(l2, right));
        assert(merged::<T, Less>(left.take(i), right.take(j)) =~= seq![left[0]] + merged::<T, Less>(
            l2.take(i - 1),
            right.take(j),
        ));
    }
}

/// Cuts of sorted ranges at increasing diagonals move forward in both ranges.
proof fn lemma_cut_monotone<T, Less: StrictWeakOrder<T>>(
    left: Seq<T>,
    right: Seq<T>,
    i: int,
    j: int,
    i2: int,
    j2: int,
)
    requires
        sorted_by::<T, Less>(left),
        sorted_by::<T, Less>(right),
        merge_cut::<T, Less>(left, right, i, j),
        merge_cut::<T, Less>(left, right, i2, j2),
        i + j <= i2 + j2,
    ensures
        i <= i2,
        j <= j2,
{
    if i2 < i {
        lemma_not_before_spread::<T, Less>(left, right, j, i - 1, j2 - 1, i2);
    }
    if j2 < j {
        lemma_not_before_spread::<T, Less>(left, right, j2, i2 - 1, j - 1, i);
    }
}

/// Whether the merge of the first `diagonal` items needs more than `m` left items.
pub open spec fn path_needs_more<T, Less: BinaryPredicateOp<T>>(
    left: Seq<T>,
    right: Seq<T>,
    diagonal: int,
    m: int,
) -> bool {
    m < left.len() && diagonal - m > 0 && !before::<T, Less>(right[diagonal - m - 1], left[m])
}

/// Finds, by binary search along the merge path, how many of the first
/// `diagonal` merged items come from sorted `left`: the cut of the merge at
/// that diagonal.
pub fn merge_path<T: Copy, Less: StrictWeakOrder<T>>(left: &Vec<T>, right: &Vec<T>, diagonal: usize) -> (i:
    usize)
    requires
        sorted_by::<T, Less>(left@),
        sorted_by::<T, Less>(right@),
        diagonal <= left.len() + right.len(),
    ensures
        i <= diagonal,
        merge_cut::<T, Less>(left@, right@, i as int, diagonal - i),
{
    let ll = left.len();
    let rl = right.len();
    let low_init = if diagonal > rl {
        diagonal - rl
    } else {
        0
    };
    let high_init = if diagonal < ll {
        diagonal
    } else {
        ll
    };
    let mut low = low_init;
    let mut high = high_init;
    while low < high
        invariant
            ll == left.len(),
            rl == right.len(),
            diagonal <= ll + rl,
            low_init == (if diagonal > rl { diagonal - rl } else { 0 }),
            high_init == (if diagonal < ll { diagonal } else { ll }),
            sorted_by::<T, Less>(left@),
            sorted_by::<T, Less>(right@),
            low_init <= low <= high <= high_init,
            forall|m: int| low_init <= m < low ==> path_needs_more::<T, Less>(left@, right@, diagonal as int, m),
            forall|m: int|
                high <= m < high_init ==> !path_needs_more::<T, Less>(left@, right@, diagonal as int, m),
        decreases high - low,
    {
        let middle = low + (high - low) / 2;
        let right_rank = diagonal - middle;
        let more = middle < ll && right_rank > 0 && Less::apply(right[right_rank - 1], left[middle]) == 0;
        if more {
            proof {
                assert forall|m: int| low_init <= m < middle + 1 implies path_needs_more::<T, Less>(
                    left@,
                    right@,
                    diagonal as int,
                    m,
                ) by {
                    if m < middle {
                        lemma_not_before_spread::<T, Less>(
                            left@,
                            right@,
                            diagonal - middle - 1,
                            middle as int,
                            diagonal - m - 1,
                            m,
                        );
                    }
                }
            }
            low = middle + 1;
        } else {
            proof {
                assert forall|m: int| middle <= m < high_init implies !path_needs_more::<T, Less>(
                    left@,
                    right@,
                    diagonal as int,
                    m,
                ) by {
                    if middle < m && path_needs_more::<T, Less>(left@, right@, diagonal as int, m) {
                        lemma_not_before_spread::<T, Less>(
                            left@,
                            right@,
                            diagonal - m - 1,
                            m,
                            diagonal - middle - 1,
                            middle as int,
                        );
                    }
                }
            }
            high = middle;
        }
    }
    proof {
        let i = low as int;
        let j = diagonal - low;
        if low > low_init {
            assert(path_needs_more::<T, Less>(left@, right@, diagonal as int, i - 1));
        }
        if low < high_init {
            assert(!path_needs_more::<T, Less>(left@, right@, diagonal as int, i));
        }
    }
    low
}

/// Items merged per tile: each tile is merged on its own between two cuts of
/// the merge path.
pub const MERGE_TILE: usize = 256;

/// A suffix of a sorted range is sorted.
proof fn lemma_sorted_skip<T, Less: BinaryPredicateOp<T>>(s: Seq<T>, k: int)
    requires
        sorted_by::<T, Less>(s),
        0 <= k <= s.len(),
    ensures
        sorted_by::<T, Less>(s.skip(k)),
{
    let t = s.skip(k);
    assert forall|a: int, b: int| 0 <= a < b < t.len() implies !before::<T, Less>(
        #[trigger] t[b],
        #[trigger] t[a],
    ) by {
        assert(t[a] == s[a + k] && t[b] == s[b + k]);
    }
}

/// Between two cuts of sorted ranges, the rest of the merge is the merge of
/// the items between the cuts followed by the merge of the items after them.
proof fn lemma_tile_split<T, Less: StrictWeakOrder<T>>(
    left: Seq<T>,
    right: Seq<T>,
    i: int,
    j: int,
    i2: int,
    j2: int,
)
    requires
        sorted_by::<T, Less>(left),
        sorted_by::<T, Less>(right),
        merge_cut::<T, Less>(left, right, i, j),
        merge_cut::<T, Less>(left, right, i2, j2),
        i + j <= i2 + j2,
    ensures
        i <= i2,
        j <= j2,
        merged::<T, Less>(left.skip(i), right.skip(j)) == merged::<T, Less>(
            left.subrange(i, i2),
            right.subrange(j, j2),
        ) + merged::<T, Less>(left.skip(i2), right.skip(j2)),
{
    lemma_cut_monotone::<T, Less>(left, right, i, j, i2, j2);
    let sa = left.skip(i);
    let sb = right.skip(j);
    lemma_sorted_skip::<T, Less>(left, i);
    lemma_sorted_skip::<T, Less>(right, j);
    if i2 > i && j2 < right.len() {
        assert(sb[j2 - j] == right[j2] && sa[i2 - i - 1] == left[i2 - 1]);
    }
    if j2 > j && i2 < left.len() {
        assert(sb[j2 - j - 1] == right[j2 - 1] && sa[i2 - i] == left[i2]);
    }
    assert(merge_cut::<T, Less>(sa, sb, i2 - i, j2 - j));
    lemma_cut_split::<T, Less>(sa, sb, i2 - i, j2 - j);
    assert(sa.take(i2 - i) =~= left.subrange(i, i2));
    assert(sb.take(j2 - j) =~= right.subrange(j, j2));
    assert(sa.skip(i2 - i) =~= left.skip(i2));
    assert(sb.skip(j2 - j) =~= right.skip(j2));
}

/// Merges `left[i..i2]` with `right[j..j2]` into `output[i + j..i2 + j2]`.
fn merge_tile<T: Copy, Less: BinaryPredicateOp<T>>(
    left: &Vec<T>,
    right: &Vec<T>,
    i: usize,
    i2: usize,
    j: usize,
    j2: usize,
    output: &mut Vec<T>,
)
    requires
        i <= i2 <= left.len(),
        j <= j2 <= right.len(),
        i2 + j2 <= old(output).len(),
    ensures
        final(output).len() == old(output).len(),
        final(output)@.subrange(i + j, i2 + j2) == merged::<T, Less>(
            left@.subrange(i as int, i2 as int),
            right@.subrange(j as int, j2 as int),
        ),
        forall|t: int|
            0 <= t < final(output).len() && !(i + j <= t < i2 + j2) ==> #[trigger] final(output)@[t] == old(
                output,
            )@[t],
{
    let ghost a = left@.subrange(i as int, i2 as int);
    let ghost b = right@.subrange(j as int, j2 as int);
    let ghost lt = |x: T, y: T| before::<T, Less>(x, y);
    let base = i + j;
    let mut p: usize = i;
    let mut q: usize = j;
    while p < i2 || q < j2
        invariant
            i <= p <= i2 <= left.len(),
            j <= q <= j2 <= right.len(),
            base == i + j,
            i2 + j2 <= output.len(),
            output.len() == old(output).len(),
            a == left@.subrange(i as int, i2 as int),
            b == right@.subrange(j as int, j2 as int),
            lt == (|x: T, y: T| before::<T, Less>(x, y)),
            output@.subrange(base as int, (p + q) as int) + merged_by(a.skip(p - i), b.skip(q - j), lt)
                == merged_by(a, b, lt),
            forall|t: int|
                0 <= t < output.len() && !(base <= t < p + q) ==> #[trigger] output@[t] == old(output)@[t],
        decreases i2 + j2 - p - q,
    {
        proof {
            lemma_merge_step(a, b, p - i, q - j, lt);
        }
        let k = p + q;
        let ghost prefix = output@.subrange(base as int, k as int);
        let take_right = p == i2 || (q < j2 && Less::apply(right[q], left[p]) != 0);
        proof {
            if q < j2 {
                assert(b[q - j] == right@[q as int]);
            }
            if p < i2 {
                assert(a[p - i] == left@[p as int]);
            }
        }
        if take_right {
            output.set(k, right[q]);
            q = q + 1;
            proof {
                assert(output@.subrange(base as int, (p + q) as int) =~= prefix.push(b[q - 1 - j]));
                assert(output@.subrange(base as int, (p + q) as int) + merged_by(a.skip(p - i), b.skip(q - j), lt)
                    =~= prefix + (seq![b[q - 1 - j]] + merged_by(a.skip(p - i), b.skip(q - j), lt)));
            }
        } else {
            output.set(k, left[p]);
            p = p + 1;
            proof {
                assert(output@.subrange(base as int, (p + q) as int) =~= prefix.push(a[p - 1 - i]));
                assert(output@.subrange(base as int, (p + q) as int) + merged_by(a.skip(p - i), b.skip(q - j), lt)
                    =~= prefix + (seq![a[p - 1 - i]] + merged_by(a.skip(p - i), b.skip(q - j), lt)));
            }
        }
    }
    proof {
        assert(a.skip(p - i).len() == 0);
        assert(b.skip(q - j).len() == 0);
        assert(output@.subrange(base as int, (i2 + j2) as int) =~= merged_by(a, b, lt));
    }
}

/// Stably merges sorted `left` and sorted `right` into the front of `output`:
/// on ties the left item comes first. The merge runs tile by tile; each tile
/// is bounded by cuts of the merge path found by binary search.
///
/// Errors: `LengthTooLarge { len: usize::MAX }` when the total length
/// overflows; `OutputTooShort { input: total, output: output length }` when
/// the output cannot hold both ranges. On error the output is unchanged.
pub fn merge_into<T: Copy, Less: StrictWeakOrder<T>>(
    left: &Vec<T>,
    right: &Vec<T>,
    less: Less,
    output: &mut Vec<T>,
) -> (result: Result<(), Error>)
    requires
        sorted_by::<T, Less>(left@) && sorted_by::<T, Less>(right@) || left.len() + right.len()
            > old(output).len(),
    ensures
        left.len() + right.len() > usize::MAX ==> result == Err::<(), Error>(
            Error::LengthTooLarge { len: usize::MAX },
        ) && final(output)@ == old(output)@,
        left.len() + right.len() <= usize::MAX && old(output).len() < left.len() + right.len()
            ==> result == Err::<(), Error>(
            Error::OutputTooShort {
                input: (left.len() + right.len()) as usize,
                output: old(output).len() as usize,
            },
        ) && final(output)@ == old(output)@,
        left.len() + right.len() <= old(output).len() ==> result == Ok::<(), Error>(()) && final(output).len()
            == old(output).len() && final(output)@.take(left.len() + right.len())
            == merged::<T, Less>(left@, right@) && final(output)@.skip(left.len() + right.len())
            == old(output)@.skip(left.len() + right.len()),
{
    let ll = left.len();
    let rl = right.len();
    let total = match ll.checked_add(rl) {
        Some(total) => total,
        None => return Err(Error::LengthTooLarge { len: usize::MAX }),
    };
    if output.len() < total {
        return Err(Error::OutputTooShort { input: total, output: output.len() });
    }
    let mut start: usize = 0;
    let mut i: usize = 0;
    proof {
        assert(left@.skip(0) =~= left@);
        assert(right@.skip(0) =~= right@);
        assert(output@.take(0) + merged::<T, Less>(left@, right@) =~= merged::<T, Less>(left@, right@));
    }
    while start < total
        invariant
            ll == left.len(),
            rl == right.len(),
            total == ll + rl,
            total <= output.len(),
            output.len() == old(output).len(),
            sorted_by::<T, Less>(left@),
            sorted_by::<T, Less>(right@),
            i <= start <= total,
            merge_cut::<T, Less>(left@, right@, i as int, start - i),
            output@.take(start as int) + merged::<T, Less>(left@.skip(i as int), right@.skip(start - i))
                == merged::<T, Less>(left@, right@),
            forall|t: int| start <= t < output.len() ==> #[trigger] output@[t] == old(output)@[t],
        decreases total - start,
    {
        let end = if total - start > MERGE_TILE {
            start + MERGE_TILE
        } else {
            total
        };
        let i2 = merge_path::<T, Less>(left, right, end);
        let j = start - i;
        let j2 = end - i2;
        proof {
            lemma_tile_split::<T, Less>(left@, right@, i as int, j as int, i2 as int, j2 as int);
        }
        let ghost before_tile = output@;
        merge_tile::<T, Less>(left, right, i, i2, j, j2, output);
        proof {
            assert(output@.take(start as int) =~= before_tile.take(start as int));
            assert(output@.take(end as int) =~= output@.take(start as int) + output@.subrange(
                start as int,
                end as int,
            ));
        }
        start = end;
        i = i2;
    }
    proof {
        assert(left@.skip(i as int).len() == 0);
        assert(right@.skip(start - i).len() == 0);
        assert(merged::<T, Less>(left@.skip(i as int), right@.skip(start - i)) =~= Seq::<T>::empty());
        assert(output@.take(total as int) =~= merged::<T, Less>(left@, right@));
        assert(output@.skip(total as int) =~= old(output)@.skip(total as int));
    }
    Ok(())
}

} // verus!
