//! Ordered partitions of a flat range, in their three interchangeable forms:
//! segment lengths, zero-based segment ids, and CSR-style offsets.

use vstd::prelude::*;

use crate::error::Error;
use crate::op::{MaxU32, ReductionOp, SumU32};
use crate::reduce::{lemma_reduce1_push, lemma_reduce1_single, reduce1};
use crate::runtime::{DeviceVec, Executor};
use crate::scan::{inclusive_at, inclusive_scan};
use crate::search::{count_below, lower_bound_u32, sorted_u32};
use crate::MIndex;

use super::SegmentIterator;

verus! {

/// CSR-style offsets of an ordered partition: non-empty, starting at zero,
/// nondecreasing, and with a segment count that fits in `MIndex`.
pub open spec fn valid_offsets(o: Seq<u32>) -> bool {
    &&& 1 <= o.len() <= u32::MAX
    &&& o[0] == 0
    &&& forall|i: int, j: int| 0 <= i <= j < o.len() ==> o[i] <= o[j]
}

/// Item `i` lies in segment `k`.
pub open spec fn in_segment(o: Seq<u32>, k: int, i: int) -> bool {
    &&& 0 <= k < o.len() - 1
    &&& o[k] <= i < o[k + 1]
}

/// The length of every segment.
pub open spec fn lengths_of(o: Seq<u32>) -> Seq<u32> {
    Seq::new((o.len() - 1) as nat, |k: int| (o[k + 1] - o[k]) as u32)
}

/// The sum of the items, as an unbounded integer.
pub open spec fn sum(s: Seq<u32>) -> int
    decreases s.len(),
{
    if s.len() == 0 {
        0
    } else {
        sum(s.drop_last()) + s.last()
    }
}

/// The length reported when a value count overflows `MIndex`: `2^32` where
/// `usize` can hold it, else `usize::MAX`.
pub open spec fn overflow_len() -> usize {
    if usize::MAX > u32::MAX {
        (u32::MAX + 1) as usize
    } else {
        usize::MAX
    }
}

pub(crate) fn overflow_len_value() -> (len: usize)
    ensures
        len == overflow_len(),
{
    match (u32::MAX as usize).checked_add(1) {
        Some(len) => len,
        None => usize::MAX,
    }
}

/// A wrapped `u32` sum is not below its left operand exactly when it did not wrap.
proof fn lemma_wrap(a: u32, b: u32)
    ensures
        ((a + b) as u32 >= a) == (a + b <= 0xffff_ffff),
        a + b <= 0xffff_ffff ==> (a + b) as u32 == a + b,
{
    assert(((a + b) as u32 >= a) == (a + b <= 0xffff_ffff)) by (bit_vector);
    assert(a + b <= 0xffff_ffff ==> (a + b) as u32 == a + b) by (bit_vector);
}

/// Adjacent nondecreasing steps make a sequence nondecreasing.
proof fn lemma_adjacent_sorted(o: Seq<u32>)
    requires
        forall|k: int| 0 < k < o.len() ==> #[trigger] o[k - 1] <= o[k],
    ensures
        forall|i: int, j: int| 0 <= i <= j < o.len() ==> o[i] <= o[j],
{
    assert forall|i: int, j: int| 0 <= i <= j < o.len() implies o[i] <= o[j] by {
        lemma_adjacent_sorted_at(o, i, j);
    }
}

proof fn lemma_adjacent_sorted_at(o: Seq<u32>, i: int, j: int)
    requires
        forall|k: int| 0 < k < o.len() ==> #[trigger] o[k - 1] <= o[k],
        0 <= i <= j < o.len(),
    ensures
        o[i] <= o[j],
    decreases j - i,
{
    if i < j {
        lemma_adjacent_sorted_at(o, i, j - 1);
        assert(o[j - 1] <= o[j]);
    }
}

/// Every item of a valid partition lies in some segment.
pub proof fn lemma_find_segment(o: Seq<u32>, i: int, k: int) -> (segment: int)
    requires
        valid_offsets(o),
        0 <= k < o.len() - 1,
        o[k] <= i < o.last(),
    ensures
        in_segment(o, segment, i),
    decreases o.len() - k,
{
    if i < o[k + 1] {
        k
    } else {
        lemma_find_segment(o, i, k + 1)
    }
}

/// The segment holding an item is unique.
pub proof fn lemma_segment_unique(o: Seq<u32>, i: int, k1: int, k2: int)
    requires
        valid_offsets(o),
        in_segment(o, k1, i),
        in_segment(o, k2, i),
    ensures
        k1 == k2,
{
    if k1 < k2 {
        assert(o[k1 + 1] <= o[k2]);
    }
    if k2 < k1 {
        assert(o[k2 + 1] <= o[k1]);
    }
}

/// A reusable partition of one flat value range into ordered segments.
///
/// Offsets are the canonical form: segment `k` is the half-open range
/// `offsets[k]..offsets[k + 1]`, and the last offset is the value count.
pub struct Segmentation {
    offsets: DeviceVec<u32>,
    value_count: MIndex,
}

impl Segmentation {
    /// The canonical offsets.
    pub closed spec fn offsets_view(&self) -> Seq<u32> {
        self.offsets.items()
    }

    /// The number of partitioned values.
    pub closed spec fn value_count_view(&self) -> u32 {
        self.value_count
    }

    /// The executor owning the offsets.
    pub closed spec fn owner_id(&self) -> u64 {
        self.offsets.owner_id()
    }

    /// The offsets form a valid partition of `value_count` values.
    pub open spec fn wf(&self) -> bool {
        &&& valid_offsets(self.offsets_view())
        &&& self.value_count_view() == self.offsets_view().last()
    }

    /// Builds a segmentation from CSR-style offsets.
    ///
    /// Offsets must be non-empty, start at zero and be nondecreasing
    /// (else `InvalidSegmentation`); the last offset is the value count.
    pub fn from_offsets(exec: &Executor, offsets: &DeviceVec<u32>) -> (result: Result<
        Segmentation,
        Error,
    >)
        ensures
            offsets.owner_id() != exec.id() ==> result == Err::<Segmentation, Error>(
                Error::ForeignExecutor,
            ),
            offsets.owner_id() == exec.id() && !valid_offsets(offsets.items()) ==> result == Err::<
                Segmentation,
                Error,
            >(Error::InvalidSegmentation),
            offsets.owner_id() == exec.id() && valid_offsets(offsets.items()) ==> (result matches Ok(
                seg,
            ) && seg.wf() && seg.offsets_view() == offsets.items() && seg.owner_id() == exec.id()),
    {
        let n = offsets.len();
        let items = match exec.to_host(offsets) {
            Ok(items) => items,
            Err(e) => return Err(e),
        };
        if items.len() == 0 {
            return Err(Error::InvalidSegmentation);
        }
        let mut invalid = items[0] != 0u32;
        let mut i: usize = 1;
        while i < items.len()
            invariant
                1 <= i <= items.len(),
                invalid == !(items@[0] == 0 && forall|k: int|
                    0 < k < i ==> #[trigger] items@[k - 1] <= items@[k]),
            decreases items.len() - i,
        {
            if items[i] < items[i - 1] {
                invalid = true;
            }
            i = i + 1;
        }
        if invalid {
            proof {
                if valid_offsets(items@) {
                    assert(forall|k: int| 0 < k < items.len() ==> #[trigger] items@[k - 1] <= items@[k]);
                }
            }
            return Err(Error::InvalidSegmentation);
        }
        proof {
            lemma_adjacent_sorted(items@);
        }
        let value_count = items[items.len() - 1];
        Ok(Segmentation { offsets: exec.adopt(items), value_count })
    }

    /// Builds a segmentation from one length per segment.
    ///
    /// Offsets are the prefix sums of the lengths. A segment count of
    /// `MIndex::MAX` is rejected (its offsets need one more item), and so is a
    /// total length that does not fit in `MIndex`.
    pub fn from_lengths(exec: &Executor, lengths: &DeviceVec<u32>) -> (result: Result<
        Segmentation,
        Error,
    >)
        ensures
            lengths.items().len() == u32::MAX ==> result == Err::<Segmentation, Error>(
                Error::LengthTooLarge { len: usize::MAX },
            ),
            lengths.items().len() < u32::MAX && lengths.owner_id() != exec.id() ==> result
                == Err::<Segmentation, Error>(Error::ForeignExecutor),
            lengths.items().len() < u32::MAX && lengths.owner_id() == exec.id() && sum(
                lengths.items(),
            ) > u32::MAX ==> result == Err::<Segmentation, Error>(
                Error::LengthTooLarge { len: overflow_len() },
            ),
            lengths.items().len() < u32::MAX && lengths.owner_id() == exec.id() && sum(
                lengths.items(),
            ) <= u32::MAX ==> (result matches Ok(seg) && seg.wf() && seg.owner_id() == exec.id()
                && seg.offsets_view().len() == lengths.items().len() + 1 && forall|k: int|
                0 <= k <= lengths.items().len() ==> #[trigger] seg.offsets_view()[k] == sum(
                    lengths.items().take(k),
                )),
    {
        let count = lengths.len();
        if count == u32::MAX {
            return Err(Error::LengthTooLarge { len: usize::MAX });
        }
        let items = match exec.to_host(lengths) {
            Ok(items) => items,
            Err(e) => return Err(e),
        };
        let n = items.len();
        let prefix = inclusive_scan::<u32, SumU32>(&items, SumU32);
        let mut offsets: Vec<u32> = Vec::new();
        offsets.push(0u32);
        let mut overflow = false;
        let mut i: usize = 0;
        proof {
            assert(items@.take(0) =~= Seq::<u32>::empty());
        }
        while i < n
            invariant
                n == items.len(),
                n < u32::MAX,
                prefix.len() == n,
                forall|k: int|
                    0 <= k < n ==> #[trigger] prefix@[k] == inclusive_at::<u32, SumU32>(items@, k),
                i <= n,
                offsets.len() == i + 1,
                offsets@[0] == 0,
                i > 0 ==> offsets@[i as int] == prefix@[i - 1],
                !overflow ==> sum(items@.take(i as int)) <= u32::MAX,
                !overflow ==> forall|k: int|
                    0 <= k <= i ==> #[trigger] offsets@[k] == sum(items@.take(k)),
                overflow ==> sum(items@.take(i as int)) > u32::MAX,
            decreases n - i,
        {
            let p = prefix[i];
            proof {
                assert(items@.take(i as int + 1).drop_last() =~= items@.take(i as int));
                if i == 0 {
                    assert(items@.take(1) =~= seq![items@[0]]);
                    lemma_reduce1_single::<u32, SumU32>(items@[0]);
                } else {
                    assert(items@.take(i as int + 1) =~= items@.take(i as int).push(items@[i as int]));
                    lemma_reduce1_push::<u32, SumU32>(items@.take(i as int), items@[i as int]);
                    assert(items@.take(i as int) =~= items@.take((i - 1) + 1));
                    lemma_wrap(prefix@[i - 1], items@[i as int]);
                }
            }
            if i > 0 && p < prefix[i - 1] {
                overflow = true;
            }
            offsets.push(p);
            i = i + 1;
        }
        if overflow {
            proof {
                assert(items@.take(n as int) =~= items@);
            }
            return Err(Error::LengthTooLarge { len: overflow_len_value() });
        }
        proof {
            assert(items@.take(n as int) =~= items@);
            assert forall|a: int, b: int| 0 <= a <= b < offsets.len() implies offsets@[a]
                <= offsets@[b] by {
                lemma_sum_prefix_mono(items@, a, b);
            }
        }
        let value_count = offsets[n];
        Ok(Segmentation { offsets: exec.adopt(offsets), value_count })
    }

    /// Builds a segmentation from one zero-based segment id per flat value.
    ///
    /// Ids must be nondecreasing and less than `segment_count` (else
    /// `InvalidSegmentation`). The explicit count keeps trailing and
    /// all-empty segments. `segment_count == MIndex::MAX` is rejected since
    /// its offsets need one more item. Offset `k` is the number of ids below `k`.
    pub fn from_segment_ids(exec: &Executor, ids: &DeviceVec<u32>, segment_count: MIndex) -> (result:
        Result<Segmentation, Error>)
        ensures
            segment_count == u32::MAX ==> result == Err::<Segmentation, Error>(
                Error::LengthTooLarge { len: usize::MAX },
            ),
            segment_count < u32::MAX && ids.owner_id() != exec.id() ==> result == Err::<
                Segmentation,
                Error,
            >(Error::ForeignExecutor),
            segment_count < u32::MAX && ids.owner_id() == exec.id() && !(sorted_u32(ids.items())
                && forall|i: int| 0 <= i < ids.items().len() ==> #[trigger] ids.items()[i]
                < segment_count) ==> result == Err::<Segmentation, Error>(
                Error::InvalidSegmentation,
            ),
            segment_count < u32::MAX && ids.owner_id() == exec.id() && sorted_u32(ids.items())
                && (forall|i: int| 0 <= i < ids.items().len() ==> #[trigger] ids.items()[i]
                < segment_count) ==> (result matches Ok(seg) && seg.wf() && seg.owner_id()
                == exec.id() && seg.value_count_view() == ids.items().len()
                && seg.offsets_view().len() == segment_count + 1 && forall|k: int|
                0 <= k <= segment_count ==> #[trigger] seg.offsets_view()[k] == count_below(
                    ids.items(),
                    k as u32,
                )),
    {
        if segment_count == u32::MAX {
            return Err(Error::LengthTooLarge { len: usize::MAX });
        }
        let value_len = ids.len();
        let items = match exec.to_host(ids) {
            Ok(items) => items,
            Err(e) => return Err(e),
        };
        let n = items.len();
        let mut invalid = false;
        let mut i: usize = 0;
        while i < n
            invariant
                n == items.len(),
                i <= n,
                invalid == !((forall|k: int| 0 <= k < i ==> #[trigger] items@[k] < segment_count)
                    && forall|k: int| 0 < k < i ==> #[trigger] items@[k - 1] <= items@[k]),
            decreases n - i,
        {
            if items[i] >= segment_count || (i > 0 && items[i] < items[i - 1]) {
                invalid = true;
            }
            i = i + 1;
        }
        if invalid {
            return Err(Error::InvalidSegmentation);
        }
        proof {
            lemma_adjacent_sorted(items@);
        }
        let mut offsets: Vec<u32> = Vec::new();
        let mut k: u32 = 0;
        while k <= segment_count
            invariant
                n == items.len(),
                n <= u32::MAX,
                segment_count < u32::MAX,
                sorted_u32(items@),
                k <= segment_count + 1,
                offsets.len() == k,
                forall|j: int| 0 <= j < k ==> #[trigger] offsets@[j] == count_below(items@, j as u32),
            decreases segment_count + 1 - k,
        {
            let bound = if n == 0 { 0usize } else { lower_bound_u32(&items, k) };
            proof {
                if n == 0 {
                    assert(items@ =~= Seq::<u32>::empty());
                }
                lemma_count_below_le(items@, k);
            }
            offsets.push(bound as u32);
            k = k + 1;
        }
        proof {
            assert(offsets@[0] == count_below(items@, 0));
            lemma_count_below_zero(items@);
            lemma_count_below_all(items@, segment_count);
            assert forall|a: int, b: int| 0 <= a <= b < offsets.len() implies offsets@[a]
                <= offsets@[b] by {
                lemma_count_below_mono(items@, a as u32, b as u32);
            }
        }
        Ok(Segmentation { offsets: exec.adopt(offsets), value_count: value_len })
    }

    /// Wraps offsets already known to be valid, as generated by an algorithm.
    pub(crate) fn from_generated_offsets(exec: &Executor, offsets: Vec<u32>) -> (seg: Segmentation)
        requires
            valid_offsets(offsets@),
        ensures
            seg.wf(),
            seg.offsets_view() == offsets@,
            seg.owner_id() == exec.id(),
    {
        let value_count = offsets[offsets.len() - 1];
        Segmentation { offsets: exec.adopt(offsets), value_count }
    }

    /// Returns the canonical offsets.
    pub fn offsets(&self) -> (offsets: &DeviceVec<u32>)
        ensures
            offsets.items() == self.offsets_view(),
            offsets.owner_id() == self.owner_id(),
    {
        &self.offsets
    }

    /// Returns the number of segments.
    pub fn segment_count(&self) -> (count: MIndex)
        requires
            self.wf(),
        ensures
            count == self.offsets_view().len() - 1,
    {
        self.offsets.len() - 1
    }

    /// Returns the number of values in the partitioned range.
    pub fn value_count(&self) -> (count: MIndex)
        ensures
            count == self.value_count_view(),
    {
        self.value_count
    }

    /// A copy of this segmentation.
    pub fn copy(&self) -> (copy: Segmentation)
        ensures
            copy.offsets_view() == self.offsets_view(),
            copy.value_count_view() == self.value_count_view(),
            copy.owner_id() == self.owner_id(),
    {
        let exec = Executor::new(self.offsets.owner());
        let items = self.offsets.as_vec();
        Segmentation { offsets: exec.to_device(items.as_slice()), value_count: self.value_count }
    }

    /// Materializes one length per segment.
    pub fn lengths(&self, exec: &Executor) -> (result: Result<DeviceVec<u32>, Error>)
        requires
            self.wf(),
        ensures
            self.owner_id() != exec.id() ==> result == Err::<DeviceVec<u32>, Error>(
                Error::ForeignExecutor,
            ),
            self.owner_id() == exec.id() ==> (result matches Ok(lengths) && lengths.items()
                == lengths_of(self.offsets_view()) && lengths.owner_id() == exec.id()),
    {
        if exec.identity() != self.offsets.owner() {
            return Err(Error::ForeignExecutor);
        }
        let o = self.offsets.as_vec();
        let count = o.len() - 1;
        let mut lengths: Vec<u32> = Vec::new();
        let mut k: usize = 0;
        while k < count
            invariant
                count == o.len() - 1,
                valid_offsets(o@),
                k <= count,
                lengths.len() == k,
                forall|j: int| 0 <= j < k ==> #[trigger] lengths@[j] == lengths_of(o@)[j],
            decreases count - k,
        {
            lengths.push(o[k + 1] - o[k]);
            k = k + 1;
        }
        proof {
            assert(lengths@ =~= lengths_of(o@));
        }
        Ok(exec.adopt(lengths))
    }

    /// Materializes one zero-based segment id per flat value.
    ///
    /// Every non-empty segment marks its first value with its id; a running
    /// maximum (an inclusive scan with `max`) then carries each id across its
    /// segment.
    pub fn segment_ids(&self, exec: &Executor) -> (result: Result<DeviceVec<u32>, Error>)
        requires
            self.wf(),
        ensures
            self.owner_id() != exec.id() ==> result == Err::<DeviceVec<u32>, Error>(
                Error::ForeignExecutor,
            ),
            self.owner_id() == exec.id() ==> (result matches Ok(ids) && ids.owner_id()
                == exec.id() && ids.items().len() == self.value_count_view() && forall|i: int|
                0 <= i < self.value_count_view() ==> #[trigger] in_segment(
                    self.offsets_view(),
                    ids.items()[i] as int,
                    i,
                )),
    {
        if exec.identity() != self.offsets.owner() {
            return Err(Error::ForeignExecutor);
        }
        let o = self.offsets.as_vec();
        let ids = segment_ids_of(o);
        Ok(exec.adopt(ids))
    }

    /// Materializes each value's zero-based index within its segment.
    pub fn local_indices(&self, exec: &Executor) -> (result: Result<DeviceVec<u32>, Error>)
        requires
            self.wf(),
        ensures
            self.owner_id() != exec.id() ==> result == Err::<DeviceVec<u32>, Error>(
                Error::ForeignExecutor,
            ),
            self.owner_id() == exec.id() ==> (result matches Ok(local) && local.owner_id()
                == exec.id() && local.items().len() == self.value_count_view() && forall|
                i: int,
                k: int,
            |
                #![trigger local.items()[i], in_segment(self.offsets_view(), k, i)]
                0 <= i < self.value_count_view() && in_segment(self.offsets_view(), k, i)
                    ==> local.items()[i] == i - self.offsets_view()[k]),
    {
        if exec.identity() != self.offsets.owner() {
            return Err(Error::ForeignExecutor);
        }
        let o = self.offsets.as_vec();
        let ids = segment_ids_of(o);
        let n = ids.len();
        let mut local: Vec<u32> = Vec::new();
        let mut i: usize = 0;
        while i < n
            invariant
                valid_offsets(o@),
                n == ids.len(),
                n == o@.last(),
                forall|j: int| 0 <= j < n ==> #[trigger] in_segment(o@, ids@[j] as int, j),
                i <= n,
                local.len() == i,
                forall|j: int, k: int|
                    #![trigger local@[j], in_segment(o@, k, j)]
                    0 <= j < i && in_segment(o@, k, j) ==> local@[j] == j - o@[k],
            decreases n - i,
        {
            let segment = ids[i] as usize;
            proof {
                assert(in_segment(o@, segment as int, i as int));
                assert forall|k: int| #[trigger] in_segment(o@, k, i as int) implies k == segment by {
                    lemma_segment_unique(o@, i as int, k, segment as int);
                }
            }
            local.push(i as u32 - o[segment]);
            i = i + 1;
        }
        Ok(exec.adopt(local))
    }

    /// Applies this partition to a flat column of the same length.
    ///
    /// A column whose length differs from the value count is rejected with
    /// `LengthMismatch { left: column length, right: value count }`.
    pub fn segments<T>(&self, values: DeviceVec<T>) -> (result: Result<
        SegmentIterator<DeviceVec<T>, Segmentation>,
        Error,
    >)
        ensures
            values.items().len() != self.value_count_view() ==> result == Err::<
                SegmentIterator<DeviceVec<T>, Segmentation>,
                Error,
            >(
                Error::LengthMismatch {
                    left: values.items().len() as usize,
                    right: self.value_count_view() as usize,
                },
            ),
            values.items().len() == self.value_count_view() ==> (result matches Ok(input)
                && input.values_view() == values && input.offsets_view().offsets_view()
                == self.offsets_view() && input.offsets_view().value_count_view()
                == self.value_count_view() && input.offsets_view().owner_id() == self.owner_id()),
    {
        let len = values.len();
        if len != self.value_count {
            return Err(Error::LengthMismatch { left: len as usize, right: self.value_count as usize });
        }
        Ok(SegmentIterator::new(values, self.copy()))
    }
}

/// Lengths and offsets are interchangeable: the prefix sums of a
/// partition's lengths are its offsets, and their total is the value count,
/// so rebuilding a segmentation from its lengths reproduces its offsets.
pub proof fn law_lengths_round_trip(o: Seq<u32>)
    requires
        valid_offsets(o),
    ensures
        lengths_of(o).len() < u32::MAX,
        sum(lengths_of(o)) == o.last(),
        forall|k: int| 0 <= k < o.len() ==> #[trigger] sum(lengths_of(o).take(k)) == o[k],
{
    let lengths = lengths_of(o);
    assert forall|k: int| 0 <= k < o.len() implies #[trigger] sum(lengths.take(k)) == o[k] by {
        lemma_prefix_sum_of_lengths(o, k);
    }
    assert(lengths.take(lengths.len() as int) =~= lengths);
}

proof fn lemma_prefix_sum_of_lengths(o: Seq<u32>, k: int)
    requires
        valid_offsets(o),
        0 <= k < o.len(),
    ensures
        sum(lengths_of(o).take(k)) == o[k],
    decreases k,
{
    if k == 0 {
        assert(lengths_of(o).take(0) =~= Seq::<u32>::empty());
    } else {
        lemma_prefix_sum_of_lengths(o, k - 1);
        assert(lengths_of(o).take(k).drop_last() =~= lengths_of(o).take(k - 1));
        assert(o[k - 1] <= o[k]);
    }
}

/// Segment ids and offsets are interchangeable: the ids of a partition are
/// nondecreasing and below the segment count, and the number of ids below `k`
/// is offset `k`, so rebuilding a segmentation from its ids and segment count
/// reproduces its offsets.
pub proof fn law_ids_round_trip(o: Seq<u32>, ids: Seq<u32>)
    requires
        valid_offsets(o),
        ids.len() == o.last(),
        forall|i: int| 0 <= i < ids.len() ==> #[trigger] in_segment(o, ids[i] as int, i),
    ensures
        o.len() - 1 < u32::MAX,
        sorted_u32(ids),
        forall|i: int| 0 <= i < ids.len() ==> #[trigger] ids[i] < o.len() - 1,
        forall|k: int| 0 <= k < o.len() ==> #[trigger] count_below(ids, k as u32) == o[k],
{
    assert forall|i: int, j: int| 0 <= i <= j < ids.len() implies ids[i] <= ids[j] by {
        assert(in_segment(o, ids[i] as int, i));
        assert(in_segment(o, ids[j] as int, j));
        if ids[i] > ids[j] {
            assert(o[ids[j] + 1] <= o[ids[i] as int]);
        }
    }
    assert forall|i: int| 0 <= i < ids.len() implies #[trigger] ids[i] < o.len() - 1 by {
        assert(in_segment(o, ids[i] as int, i));
    }
    assert forall|k: int| 0 <= k < o.len() implies #[trigger] count_below(ids, k as u32) == o[k] by {
        assert(o[k] <= o.last());
        assert forall|j: int| 0 <= j < o[k] implies #[trigger] ids[j] < k as u32 by {
            assert(in_segment(o, ids[j] as int, j));
            if ids[j] >= k {
                assert(o[k] <= o[ids[j] as int]);
            }
        }
        assert forall|j: int| o[k] <= j < ids.len() implies #[trigger] ids[j] >= k as u32 by {
            assert(in_segment(o, ids[j] as int, j));
            if ids[j] < k {
                assert(o[ids[j] + 1] <= o[k]);
            }
        }
        crate::search::lemma_count_below_partition(ids, k as u32, o[k] as int);
    }
}

/// Segment id of every value of a valid partition: heads, then a running maximum.
fn segment_ids_of(o: &Vec<u32>) -> (ids: Vec<u32>)
    requires
        valid_offsets(o@),
    ensures
        ids.len() == o@.last(),
        forall|i: int| 0 <= i < ids.len() ==> #[trigger] in_segment(o@, ids@[i] as int, i),
{
    let n = o[o.len() - 1] as usize;
    let count = o.len() - 1;
    // Heads: the first value of each non-empty segment holds the segment id.
    let mut heads: Vec<u32> = Vec::new();
    let mut i: usize = 0;
    while i < n
        invariant
            i <= n,
            heads.len() == i,
            forall|j: int| 0 <= j < i ==> #[trigger] heads@[j] == 0,
        decreases n - i,
    {
        heads.push(0u32);
        i = i + 1;
    }
    let mut k: usize = 0;
    while k < count
        invariant
            valid_offsets(o@),
            count == o.len() - 1,
            n == o@.last(),
            k <= count,
            heads.len() == n,
            forall|j: int|
                0 <= j < n ==> (#[trigger] heads@[j] == 0 || exists|s: int|
                    #![trigger o@[s]]
                    0 <= s < k && o@[s] == j && o@[s] < o@[s + 1] && heads@[j] == s),
            forall|s: int|
                0 <= s < k && o@[s] < o@[s + 1] ==> #[trigger] heads@[o@[s] as int] == s,
        decreases count - k,
    {
        let start = o[k];
        let end = o[k + 1];
        if start < end {
            let ghost before = heads@;
            proof {
                assert(o@[k as int + 1] <= o@.last());
            }
            heads.set(start as usize, k as u32);
            proof {
                assert forall|s: int|
                    0 <= s < k + 1 && o@[s] < o@[s + 1] implies #[trigger] heads@[o@[s] as int]
                    == s by {
                    if s < k {
                        assert(o@[s + 1] <= o@[k as int]);
                    }
                }
                assert forall|j: int|
                    0 <= j < n implies (#[trigger] heads@[j] == 0 || exists|s: int|
                    #![trigger o@[s]]
                    0 <= s < k + 1 && o@[s] == j && o@[s] < o@[s + 1] && heads@[j] == s) by {
                    if j == start {
                        assert(o@[k as int] == j && heads@[j] == k);
                    } else {
                        assert(heads@[j] == before[j]);
                    }
                }
            }
        }
        k = k + 1;
    }
    let ids = inclusive_scan::<u32, MaxU32>(&heads, MaxU32);
    proof {
        assert forall|i: int| 0 <= i < n implies #[trigger] in_segment(o@, ids@[i] as int, i) by {
            let seg = lemma_find_segment(o@, i, 0);
            let prefix = heads@.take(i + 1);
            // The head of i's segment lies at or before i.
            assert(o@[seg] < o@[seg + 1]);
            assert(heads@[o@[seg] as int] == seg);
            assert(prefix[o@[seg] as int] == seg);
            lemma_max_lower(prefix, o@[seg] as int);
            // Every head at or before i belongs to a segment no later than i's.
            assert forall|j: int| 0 <= j < prefix.len() implies #[trigger] prefix[j] <= seg by {
                assert(prefix[j] == heads@[j]);
                if heads@[j] != 0 {
                    let s = choose|s: int|
                        #![trigger o@[s]]
                        0 <= s < count && o@[s] == j && o@[s] < o@[s + 1] && heads@[j] == s;
                    if s > seg {
                        assert(o@[seg + 1] <= o@[s]);
                    }
                }
            }
            lemma_max_upper(prefix, seg as u32);
        }
    }
    ids
}

/// A running maximum is at least every item.
proof fn lemma_max_lower(s: Seq<u32>, j: int)
    requires
        0 <= j < s.len(),
    ensures
        reduce1::<u32, MaxU32>(s) >= s[j],
    decreases s.len(),
{
    if s.len() == 1 {
        assert(s =~= seq![s[0]]);
        lemma_reduce1_single::<u32, MaxU32>(s[0]);
    } else {
        assert(s =~= s.drop_last().push(s.last()));
        lemma_reduce1_push::<u32, MaxU32>(s.drop_last(), s.last());
        if j < s.len() - 1 {
            lemma_max_lower(s.drop_last(), j);
        }
    }
}

/// A running maximum never exceeds a common bound of the items.
proof fn lemma_max_upper(s: Seq<u32>, bound: u32)
    requires
        s.len() > 0,
        forall|j: int| 0 <= j < s.len() ==> #[trigger] s[j] <= bound,
    ensures
        reduce1::<u32, MaxU32>(s) <= bound,
    decreases s.len(),
{
    if s.len() == 1 {
        assert(s =~= seq![s[0]]);
        lemma_reduce1_single::<u32, MaxU32>(s[0]);
    } else {
        assert(s =~= s.drop_last().push(s.last()));
        lemma_reduce1_push::<u32, MaxU32>(s.drop_last(), s.last());
        lemma_max_upper(s.drop_last(), bound);
    }
}

/// Prefix sums grow with the prefix.
proof fn lemma_sum_prefix_mono(s: Seq<u32>, a: int, b: int)
    requires
        0 <= a <= b <= s.len(),
    ensures
        sum(s.take(a)) <= sum(s.take(b)),
    decreases b - a,
{
    if a < b {
        lemma_sum_prefix_mono(s, a, b - 1);
        assert(s.take(b).drop_last() =~= s.take(b - 1));
    }
}

proof fn lemma_count_below_le(s: Seq<u32>, v: u32)
    ensures
        count_below(s, v) <= s.len(),
    decreases s.len(),
{
    if s.len() > 0 {
        lemma_count_below_le(s.drop_last(), v);
    }
}

proof fn lemma_count_below_zero(s: Seq<u32>)
    ensures
        count_below(s, 0) == 0,
    decreases s.len(),
{
    if s.len() > 0 {
        lemma_count_below_zero(s.drop_last());
    }
}

proof fn lemma_count_below_all(s: Seq<u32>, v: u32)
    requires
        forall|i: int| 0 <= i < s.len() ==> #[trigger] s[i] < v,
    ensures
        count_below(s, v) == s.len(),
    decreases s.len(),
{
    if s.len() > 0 {
        lemma_count_below_all(s.drop_last(), v);
    }
}

proof fn lemma_count_below_mono(s: Seq<u32>, a: u32, b: u32)
    requires
        a <= b,
    ensures
        count_below(s, a) <= count_below(s, b),
    decreases s.len(),
{
    if s.len() > 0 {
        lemma_count_below_mono(s.drop_last(), a, b);
    }
}

} // verus!
