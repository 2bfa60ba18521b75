//! Writable output trees: their logical lengths, same-shaped subviews, and
//! the left-to-right order in which their leaf columns are bound to slots.

use core::marker::PhantomData;

use vstd::prelude::*;

use crate::error::Error;

verus! {

/// A binary node pairing two columns (or two trees of columns) row by row.
#[derive(Clone, Copy, Debug)]
pub struct Zip<X, Y>(pub X, pub Y);

impl<X, Y> Zip<X, Y> {
    /// Pairs `left` and `right`.
    pub fn new(left: X, right: Y) -> (zip: Self)
        ensures
            zip.0 == left,
            zip.1 == right,
    {
        Zip(left, right)
    }
}

/// A writable window of `len` items starting at `offset` in the device
/// buffer `buffer` (of `buffer_len` items) owned by executor `owner`.
#[derive(Debug)]
pub struct ColumnMut<T> {
    pub buffer: u64,
    pub owner: u64,
    pub buffer_len: usize,
    pub offset: usize,
    pub len: usize,
    pub item: PhantomData<T>,
}

/// A read-only window with the same fields as [`ColumnMut`].
#[derive(Debug)]
pub struct Column<T> {
    pub buffer: u64,
    pub owner: u64,
    pub buffer_len: usize,
    pub offset: usize,
    pub len: usize,
    pub item: PhantomData<T>,
}

impl<T> ColumnMut<T> {
    /// The window lies inside its buffer and the buffer length fits in `MIndex`.
    pub open spec fn wf(&self) -> bool {
        &&& self.offset + self.len <= self.buffer_len
        &&& self.buffer_len <= u32::MAX
    }

    /// The whole buffer as one window.
    pub fn whole(buffer: u64, owner: u64, buffer_len: usize) -> (column: Self)
        requires
            buffer_len <= u32::MAX,
        ensures
            column.wf(),
            column.buffer == buffer,
            column.owner == owner,
            column.buffer_len == buffer_len,
            column.offset == 0,
            column.len == buffer_len,
    {
        ColumnMut { buffer, owner, buffer_len, offset: 0, len: buffer_len, item: PhantomData }
    }
}

/// A zero-copy mutable subrange tied to a runtime `R`.
#[derive(Debug)]
pub struct Slice<R, Output> {
    output: Output,
    runtime: PhantomData<R>,
}

impl<R, Output> Slice<R, Output> {
    /// The wrapped output tree.
    pub closed spec fn inner(&self) -> Output {
        self.output
    }

    /// Wraps `output`.
    pub fn new(output: Output) -> (slice: Self)
        ensures
            slice.inner() == output,
    {
        Slice { output, runtime: PhantomData }
    }

    /// Unwraps the output tree.
    pub fn into_inner(self) -> (output: Output)
        ensures
            output == self.inner(),
    {
        self.output
    }
}

/// A mutable output whose shape is a binary tree of columns.
pub trait OutputExpression {
    type Item;

    /// What `logical_len` returns.
    spec fn spec_logical_len(&self) -> Result<usize, Error>;

    /// The number of rows, or why the tree has none.
    fn logical_len(&self) -> (len: Result<usize, Error>)
        requires
            self.output_wf(),
        ensures
            len == self.spec_logical_len(),
    ;

    /// Every leaf window lies inside its buffer.
    spec fn output_wf(&self) -> bool;
}

/// The length of an output tree is known and equal to `len`.
pub open spec fn has_len<O: OutputExpression>(output: &O, len: usize) -> bool {
    output.spec_logical_len() == Ok::<usize, Error>(len)
}

/// Creates same-shaped subviews of an output tree.
pub trait SliceOutput: OutputExpression + Sized {
    /// What `slice_output` returns.
    spec fn spec_slice_output(&self, start: usize, end: usize) -> Self;

    /// The rows `start..end` of every leaf, as a tree of the same shape.
    fn slice_output(&self, start: usize, end: usize) -> (sliced: Self)
        requires
            self.output_wf(),
            self.spec_logical_len() matches Ok(len) && start <= end <= len,
        ensures
            sliced == self.spec_slice_output(start, end),
            sliced.output_wf(),
            has_len(&sliced, (end - start) as usize),
    ;
}

/// Creates a read-only view over a mutable output tree.
pub trait ReadOutput: OutputExpression {
    type Read;

    /// What `slice_read` returns.
    spec fn spec_slice_read(&self, start: usize, end: usize) -> Self::Read;

    /// A read-only view of the rows `start..end`.
    fn slice_read(&self, start: usize, end: usize) -> (read: Self::Read)
        requires
            self.output_wf(),
            self.spec_logical_len() matches Ok(len) && start <= end <= len,
        ensures
            read == self.spec_slice_read(start, end),
    ;
}

impl<T> OutputExpression for ColumnMut<T> {
    type Item = T;

    open spec fn spec_logical_len(&self) -> Result<usize, Error> {
        Ok(self.len)
    }

    fn logical_len(&self) -> (len: Result<usize, Error>) {
        Ok(self.len)
    }

    open spec fn output_wf(&self) -> bool {
        self.wf()
    }
}

impl<T> SliceOutput for ColumnMut<T> {
    open spec fn spec_slice_output(&self, start: usize, end: usize) -> Self {
        ColumnMut {
            buffer: self.buffer,
            owner: self.owner,
            buffer_len: self.buffer_len,
            offset: (self.offset + start) as usize,
            len: (end - start) as usize,
            item: PhantomData,
        }
    }

    fn slice_output(&self, start: usize, end: usize) -> (sliced: Self) {
        ColumnMut {
            buffer: self.buffer,
            owner: self.owner,
            buffer_len: self.buffer_len,
            offset: self.offset + start,
            len: end - start,
            item: PhantomData,
        }
    }
}

impl<T> ReadOutput for ColumnMut<T> {
    type Read = Column<T>;

    open spec fn spec_slice_read(&self, start: usize, end: usize) -> Column<T> {
        Column {
            buffer: self.buffer,
            owner: self.owner,
            buffer_len: self.buffer_len,
            offset: (self.offset + start) as usize,
            len: (end - start) as usize,
            item: PhantomData,
        }
    }

    fn slice_read(&self, start: usize, end: usize) -> (read: Column<T>) {
        Column {
            buffer: self.buffer,
            owner: self.owner,
            buffer_len: self.buffer_len,
            offset: self.offset + start,
            len: end - start,
            item: PhantomData,
        }
    }
}

impl<L: OutputExpression, R: OutputExpression> OutputExpression for Zip<L, R> {
    type Item = (L::Item, R::Item);

    /// The left error first, then the right one, then a length mismatch.
    open spec fn spec_logical_len(&self) -> Result<usize, Error> {
        match self.0.spec_logical_len() {
            Err(e) => Err(e),
            Ok(left) => match self.1.spec_logical_len() {
                Err(e) => Err(e),
                Ok(right) => if left != right {
                    Err(Error::LengthMismatch { left, right })
                } else {
                    Ok(left)
                },
            },
        }
    }

    fn logical_len(&self) -> (len: Result<usize, Error>) {
        let left = match self.0.logical_len() {
            Ok(left) => left,
            Err(e) => return Err(e),
        };
        let right = match self.1.logical_len() {
            Ok(right) => right,
            Err(e) => return Err(e),
        };
        if left != right {
            return Err(Error::LengthMismatch { left, right });
        }
        Ok(left)
    }

    open spec fn output_wf(&self) -> bool {
        self.0.output_wf() && self.1.output_wf()
    }
}

impl<L: SliceOutput, R: SliceOutput> SliceOutput for Zip<L, R> {
    open spec fn spec_slice_output(&self, start: usize, end: usize) -> Self {
        Zip(self.0.spec_slice_output(start, end), self.1.spec_slice_output(start, end))
    }

    fn slice_output(&self, start: usize, end: usize) -> (sliced: Self) {
        Zip::new(self.0.slice_output(start, end), self.1.slice_output(start, end))
    }
}

impl<L: ReadOutput, R: ReadOutput> ReadOutput for Zip<L, R> {
    type Read = Zip<L::Read, R::Read>;

    open spec fn spec_slice_read(&self, start: usize, end: usize) -> Zip<L::Read, R::Read> {
        Zip(self.0.spec_slice_read(start, end), self.1.spec_slice_read(start, end))
    }

    fn slice_read(&self, start: usize, end: usize) -> (read: Zip<L::Read, R::Read>) {
        Zip::new(self.0.slice_read(start, end), self.1.slice_read(start, end))
    }
}

impl<Rt, O: OutputExpression> OutputExpression for Slice<Rt, O> {
    type Item = O::Item;

    open spec fn spec_logical_len(&self) -> Result<usize, Error> {
        self.inner().spec_logical_len()
    }

    fn logical_len(&self) -> (len: Result<usize, Error>) {
        self.output.logical_len()
    }

    open spec fn output_wf(&self) -> bool {
        self.inner().output_wf()
    }
}

impl<Rt, O: SliceOutput> SliceOutput for Slice<Rt, O> {
    closed spec fn spec_slice_output(&self, start: usize, end: usize) -> Self {
        Slice { output: self.inner().spec_slice_output(start, end), runtime: PhantomData }
    }

    fn slice_output(&self, start: usize, end: usize) -> (sliced: Self)
        ensures
            sliced.inner() == self.inner().spec_slice_output(start, end),
    {
        Slice::new(self.output.slice_output(start, end))
    }
}

impl<Rt, O: ReadOutput> ReadOutput for Slice<Rt, O> {
    type Read = Slice<Rt, O::Read>;

    closed spec fn spec_slice_read(&self, start: usize, end: usize) -> Slice<Rt, O::Read> {
        Slice { output: self.inner().spec_slice_read(start, end), runtime: PhantomData }
    }

    fn slice_read(&self, start: usize, end: usize) -> (read: Slice<Rt, O::Read>)
        ensures
            read.inner() == self.inner().spec_slice_read(start, end),
    {
        Slice::new(self.output.slice_read(start, end))
    }
}

/// The empty slot environment: no output leaf bound yet.
#[derive(Debug)]
pub struct Env0;

/// The environment `Prev` with one more leaf of item type `T` bound after it.
#[derive(Debug)]
pub struct EnvNext<Prev, T> {
    marker: PhantomData<(Prev, T)>,
}

/// An environment of bound output slots.
pub trait OutputSlotEnvironment {
    /// The number of bound slots.
    spec fn slot_count() -> nat;
}

impl OutputSlotEnvironment for Env0 {
    open spec fn slot_count() -> nat {
        0
    }
}

impl<Prev: OutputSlotEnvironment, T> OutputSlotEnvironment for EnvNext<Prev, T> {
    open spec fn slot_count() -> nat {
        Prev::slot_count() + 1
    }
}

/// Binds output leaves left-to-right after the slots of `Env`.
pub trait BindOutputSlots<Env> {
    type NextEnv;
}

impl<T, Env> BindOutputSlots<Env> for ColumnMut<T> {
    type NextEnv = EnvNext<Env, T>;
}

impl<L, R, Env> BindOutputSlots<Env> for Zip<L, R> where
    L: BindOutputSlots<Env>,
    R: BindOutputSlots<L::NextEnv>,
 {
    type NextEnv = R::NextEnv;
}

impl<Rt, O: BindOutputSlots<Env>, Env> BindOutputSlots<Env> for Slice<Rt, O> {
    type NextEnv = O::NextEnv;
}

/// A fully bound output tree: its leaves bound from the empty environment.
pub trait LowerOutputExpression: OutputExpression + BindOutputSlots<Env0> {
    type Slots: OutputSlotEnvironment;
}

impl<O> LowerOutputExpression for O where
    O: OutputExpression + BindOutputSlots<Env0>,
    O::NextEnv: OutputSlotEnvironment,
 {
    type Slots = O::NextEnv;
}

/// Most output slots a launch binds.
pub const OUTPUT_SLOTS: usize = 12;

/// The buffers bound for a launch: `(buffer, buffer length)` per slot, and the
/// first item written in each.
pub struct OutputBindings {
    pub slots: Vec<(u64, usize)>,
    pub offsets: Vec<u32>,
}

impl OutputBindings {
    /// Slots and offsets are bound pairwise.
    pub open spec fn wf(&self) -> bool {
        self.slots.len() == self.offsets.len()
    }

    /// No slot bound yet.
    pub fn new() -> (bindings: Self)
        ensures
            bindings.wf(),
            bindings.slots@ == Seq::<(u64, usize)>::empty(),
            bindings.offsets@ == Seq::<u32>::empty(),
    {
        OutputBindings { slots: Vec::new(), offsets: Vec::new() }
    }

    /// Binds one more slot.
    pub fn push(&mut self, buffer: u64, buffer_len: usize, offset: u32)
        requires
            old(self).wf(),
        ensures
            final(self).wf(),
            final(self).slots@ == old(self).slots@.push((buffer, buffer_len)),
            final(self).offsets@ == old(self).offsets@.push(offset),
    {
        self.slots.push((buffer, buffer_len));
        self.offsets.push(offset);
    }

    /// Pads the bindings to twelve slots with the one-item buffer `dummy`,
    /// at offset zero; padded slots are never written.
    pub fn pad_to_twelve(&mut self, dummy: u64)
        requires
            old(self).wf(),
            old(self).slots.len() <= OUTPUT_SLOTS,
        ensures
            final(self).wf(),
            final(self).slots.len() == OUTPUT_SLOTS,
            final(self).slots@.take(old(self).slots.len() as int) == old(self).slots@,
            final(self).offsets@.take(old(self).offsets.len() as int) == old(self).offsets@,
            forall|k: int|
                old(self).slots.len() <= k < OUTPUT_SLOTS ==> #[trigger] final(self).slots@[k] == (
                    dummy,
                    1usize,
                ),
            forall|k: int|
                old(self).slots.len() <= k < OUTPUT_SLOTS ==> #[trigger] final(self).offsets@[k] == 0u32,
    {
        let ghost start = old(self).slots.len() as int;
        let ghost first_slots = self.slots@;
        let ghost first_offsets = self.offsets@;
        while self.slots.len() < OUTPUT_SLOTS
            invariant
                self.wf(),
                start <= self.slots.len() <= OUTPUT_SLOTS,
                first_slots.len() == start,
                self.slots@.take(start) == first_slots,
                self.offsets@.take(start) == first_offsets,
                forall|k: int| start <= k < self.slots.len() ==> #[trigger] self.slots@[k] == (dummy, 1usize),
                forall|k: int| start <= k < self.offsets.len() ==> #[trigger] self.offsets@[k] == 0u32,
            decreases OUTPUT_SLOTS - self.slots.len(),
        {
            self.push(dummy, 1, 0);
            proof {
                assert(self.slots@.take(start) =~= first_slots);
                assert(self.offsets@.take(start) =~= first_offsets);
            }
        }
    }
}

/// Stages the leaf buffers of an output tree, left leaf first.
pub trait StageOutput<Env>: BindOutputSlots<Env> + OutputExpression {
    /// The `(buffer, buffer length, offset, owner)` of each leaf, left first.
    spec fn leaf_slots(&self) -> Seq<(u64, usize, u32, u64)>;

    /// Appends the leaves to `bindings`, left first, up to the first leaf of
    /// another executor, which is rejected.
    fn stage_output(&self, owner: u64, bindings: &mut OutputBindings) -> (result: Result<(), Error>)
        requires
            old(bindings).wf(),
            self.output_wf(),
        ensures
            final(bindings).wf(),
            final(bindings).slots@ == old(bindings).slots@ + slot_buffers(
                self.leaf_slots().take(owned_prefix(self.leaf_slots(), owner) as int),
            ),
            final(bindings).offsets@ == old(bindings).offsets@ + slot_offsets(
                self.leaf_slots().take(owned_prefix(self.leaf_slots(), owner) as int),
            ),
            owned_by(self.leaf_slots(), owner) ==> result == Ok::<(), Error>(()),
            !owned_by(self.leaf_slots(), owner) ==> result == Err::<(), Error>(Error::ForeignExecutor),
    ;
}

/// Every leaf belongs to executor `owner`.
pub open spec fn owned_by(leaves: Seq<(u64, usize, u32, u64)>, owner: u64) -> bool {
    forall|i: int| 0 <= i < leaves.len() ==> (#[trigger] leaves[i]).3 == owner
}

/// The number of leading leaves that belong to executor `owner`.
pub open spec fn owned_prefix(leaves: Seq<(u64, usize, u32, u64)>, owner: u64) -> nat
    decreases leaves.len(),
{
    if leaves.len() == 0 || leaves[0].3 != owner {
        0
    } else {
        1 + owned_prefix(leaves.drop_first(), owner)
    }
}

/// The owned prefix is all of `leaves` exactly when every leaf is owned.
pub proof fn lemma_owned_prefix(leaves: Seq<(u64, usize, u32, u64)>, owner: u64)
    ensures
        owned_prefix(leaves, owner) <= leaves.len(),
        owned_prefix(leaves, owner) == leaves.len() <==> owned_by(leaves, owner),
    decreases leaves.len(),
{
    if leaves.len() > 0 {
        let rest = leaves.drop_first();
        lemma_owned_prefix(rest, owner);
        if owned_by(rest, owner) && leaves[0].3 == owner {
            assert forall|i: int| 0 <= i < leaves.len() implies (#[trigger] leaves[i]).3 == owner by {
                if i > 0 {
                    assert(leaves[i] == rest[i - 1]);
                }
            }
        }
        if owned_by(leaves, owner) {
            assert forall|i: int| 0 <= i < rest.len() implies (#[trigger] rest[i]).3 == owner by {
                assert(rest[i] == leaves[i + 1]);
            }
            assert(leaves[0].3 == owner);
        }
    }
}

/// The owned prefix of two leaf lists in a row.
pub proof fn lemma_owned_prefix_concat(a: Seq<(u64, usize, u32, u64)>, b: Seq<(u64, usize, u32, u64)>, owner: u64)
    ensures
        owned_prefix(a + b, owner) == if owned_prefix(a, owner) == a.len() {
            a.len() + owned_prefix(b, owner)
        } else {
            owned_prefix(a, owner)
        },
    decreases a.len(),
{
    lemma_owned_prefix(a, owner);
    if a.len() == 0 {
        assert(a + b =~= b);
    } else {
        assert((a + b).drop_first() =~= a.drop_first() + b);
        assert((a + b)[0] == a[0]);
        lemma_owned_prefix_concat(a.drop_first(), b, owner);
    }
}

/// The `(buffer, buffer length)` parts of staged slots.
pub open spec fn slot_buffers(slots: Seq<(u64, usize, u32, u64)>) -> Seq<(u64, usize)> {
    slots.map_values(|s: (u64, usize, u32, u64)| (s.0, s.1))
}

/// The offset parts of staged slots.
pub open spec fn slot_offsets(slots: Seq<(u64, usize, u32, u64)>) -> Seq<u32> {
    slots.map_values(|s: (u64, usize, u32, u64)| s.2)
}

impl<T, Env> StageOutput<Env> for ColumnMut<T> {
    open spec fn leaf_slots(&self) -> Seq<(u64, usize, u32, u64)> {
        seq![(self.buffer, self.buffer_len, self.offset as u32, self.owner)]
    }

    fn stage_output(&self, owner: u64, bindings: &mut OutputBindings) -> (result: Result<(), Error>) {
        let ghost leaves = seq![(self.buffer, self.buffer_len, self.offset as u32, self.owner)];
        proof {
            assert(leaves.drop_first() =~= Seq::<(u64, usize, u32, u64)>::empty());
            assert(leaves.take(0) =~= Seq::<(u64, usize, u32, u64)>::empty());
            assert(leaves.take(1) =~= leaves);
        }
        if self.owner != owner {
            proof {
                assert(slot_buffers(leaves.take(0)) =~= Seq::<(u64, usize)>::empty());
                assert(slot_offsets(leaves.take(0)) =~= Seq::<u32>::empty());
                assert(bindings.slots@ + Seq::<(u64, usize)>::empty() =~= bindings.slots@);
                assert(bindings.offsets@ + Seq::<u32>::empty() =~= bindings.offsets@);
                assert(!owned_by(leaves, owner) ) by {
                    assert(leaves[0].3 != owner);
                }
            }
            return Err(Error::ForeignExecutor);
        }
        bindings.push(self.buffer, self.buffer_len, self.offset as u32);
        proof {
            assert(owned_prefix(leaves.drop_first(), owner) == 0);
            assert(owned_prefix(leaves, owner) == 1);
            assert(slot_buffers(leaves) =~= seq![(self.buffer, self.buffer_len)]);
            assert(slot_offsets(leaves) =~= seq![self.offset as u32]);
        }
        Ok(())
    }
}

impl<L, R, Env> StageOutput<Env> for Zip<L, R> where
    L: StageOutput<Env>,
    R: StageOutput<L::NextEnv>,
 {
    open spec fn leaf_slots(&self) -> Seq<(u64, usize, u32, u64)> {
        self.0.leaf_slots() + self.1.leaf_slots()
    }

    fn stage_output(&self, owner: u64, bindings: &mut OutputBindings) -> (result: Result<(), Error>) {
        let ghost a = <L as StageOutput<Env>>::leaf_slots(&self.0);
        let ghost b = <R as StageOutput<L::NextEnv>>::leaf_slots(&self.1);
        let ghost start_slots = bindings.slots@;
        let ghost start_offsets = bindings.offsets@;
        proof {
            lemma_owned_prefix(a, owner);
            lemma_owned_prefix(b, owner);
            lemma_owned_prefix(a + b, owner);
            lemma_owned_prefix_concat(a, b, owner);
        }
        let left = self.0.stage_output(owner, bindings);
        if left.is_err() {
            proof {
                assert((a + b).take(owned_prefix(a + b, owner) as int) =~= a.take(owned_prefix(a, owner) as int));
                if owned_by(a + b, owner) {
                    assert forall|i: int| 0 <= i < a.len() implies (#[trigger] a[i]).3 == owner by {
                        assert((a + b)[i] == a[i]);
                    }
                }
            }
            return left;
        }
        let right = self.1.stage_output(owner, bindings);
        proof {
            let pb = owned_prefix(b, owner) as int;
            assert((a + b).take(a.len() + pb) =~= a + b.take(pb));
            assert(a.take(a.len() as int) =~= a);
            assert(slot_buffers(a + b.take(pb)) =~= slot_buffers(a) + slot_buffers(b.take(pb)));
            assert(slot_offsets(a + b.take(pb)) =~= slot_offsets(a) + slot_offsets(b.take(pb)));
            assert(start_slots + slot_buffers(a) + slot_buffers(b.take(pb)) =~= start_slots + (
            slot_buffers(a) + slot_buffers(b.take(pb))));
            assert(start_offsets + slot_offsets(a) + slot_offsets(b.take(pb)) =~= start_offsets + (
            slot_offsets(a) + slot_offsets(b.take(pb))));
        }
        right
    }
}

impl<Rt, O: StageOutput<Env>, Env> StageOutput<Env> for Slice<Rt, O> {
    open spec fn leaf_slots(&self) -> Seq<(u64, usize, u32, u64)> {
        self.inner().leaf_slots()
    }

    fn stage_output(&self, owner: u64, bindings: &mut OutputBindings) -> (result: Result<(), Error>) {
        self.output.stage_output(owner, bindings)
    }
}

/// An output tree that can be staged from the empty environment.
pub trait KernelOutput: LowerOutputExpression + StageOutput<Env0> {
}

impl<O> KernelOutput for O where O: LowerOutputExpression + StageOutput<Env0> {
}

} // verus!
