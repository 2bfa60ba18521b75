//! Vector algorithms over the columns of an executor.
//!
//! Inputs are columns, views of columns, zips of inputs and lazy transforms;
//! outputs are columns and zips of columns. Each algorithm first checks the
//! shape and the ownership of its columns and then runs the host algorithm
//! that states its result.

use vstd::prelude::*;

use crate::error::Error;
use crate::op::{PredicateOp, ReductionOp, StrictWeakOrder, UnaryOp};
use crate::selection::{count_set, falsity, predicate_flags, selected, selection_outcome};
use crate::set::{difference, intersection, union};
use crate::by_key::run_offsets;
use crate::ordering::unique_head_flags;
use crate::seg::each::{exclusive_scanned, inclusive_scanned, reduced};
use crate::selection::selected_indices;
use crate::op::BinaryPredicateOp;
use crate::indexed::scattered;
use crate::merge::{merged, sorted_by};
use crate::MFlag;
use crate::sort::{gather_items, merge_sort_order};
use crate::MIndex;
use crate::output::Zip;
use crate::reduce::fold;
use crate::runtime::{DeviceRead, DeviceSlice, DeviceSliceMut, DeviceVec, Executor};
use crate::scan::{exclusive_at, inclusive_at};

verus! {

/// The rows of two row sequences side by side; the left error first, then the
/// right one, then `LengthMismatch { left, right }` for unequal lengths.
pub open spec fn zip_rows<A, B>(left: Result<Seq<A>, Error>, right: Result<Seq<B>, Error>) -> Result<
    Seq<(A, B)>,
    Error,
> {
    match left {
        Err(e) => Err(e),
        Ok(l) => match right {
            Err(e) => Err(e),
            Ok(r) => if l.len() == r.len() {
                Ok(Seq::new(l.len(), |i: int| (l[i], r[i])))
            } else {
                Err(Error::LengthMismatch { left: l.len() as usize, right: r.len() as usize })
            },
        },
    }
}

/// A readable tree of columns: its rows, or why it has none.
pub trait DeviceInput {
    type Item;

    /// The rows, or the error that a read of them reports.
    spec fn rows(&self) -> Result<Seq<Self::Item>, Error>;

    /// Every column belongs to executor `owner`.
    spec fn owned_by(&self, owner: u64) -> bool;

    /// Returns whether every column belongs to executor `owner`.
    fn is_owned_by(&self, owner: u64) -> (owned: bool)
        ensures
            owned == self.owned_by(owner),
    ;

    /// Copies the rows to the host.
    fn read_rows(&self) -> (rows: Result<Vec<Self::Item>, Error>)
        ensures
            self.rows() is Ok ==> (rows matches Ok(v) && v@ == self.rows()->Ok_0 && v.len() <= u32::MAX),
            self.rows() is Err ==> rows == Err::<Vec<Self::Item>, Error>(self.rows()->Err_0),
    ;
}

impl<T: Copy> DeviceInput for DeviceVec<T> {
    type Item = T;

    open spec fn rows(&self) -> Result<Seq<T>, Error> {
        Ok(self.items())
    }

    open spec fn owned_by(&self, owner: u64) -> bool {
        self.owner_id() == owner
    }

    fn is_owned_by(&self, owner: u64) -> (owned: bool) {
        self.owner() == owner
    }

    fn read_rows(&self) -> (rows: Result<Vec<T>, Error>) {
        let _ = self.len();
        Ok(self.read_items())
    }
}

impl<'a, T: Copy> DeviceInput for DeviceSlice<'a, T> {
    type Item = T;

    open spec fn rows(&self) -> Result<Seq<T>, Error> {
        Ok(self.items())
    }

    open spec fn owned_by(&self, owner: u64) -> bool {
        self.owner_id() == owner
    }

    fn is_owned_by(&self, owner: u64) -> (owned: bool) {
        self.owner() == owner
    }

    fn read_rows(&self) -> (rows: Result<Vec<T>, Error>) {
        let _ = self.len();
        Ok(self.read_items())
    }
}

impl<L: DeviceInput, R: DeviceInput> DeviceInput for Zip<L, R> where L::Item: Copy, R::Item: Copy {
    type Item = (L::Item, R::Item);

    open spec fn rows(&self) -> Result<Seq<(L::Item, R::Item)>, Error> {
        zip_rows(self.0.rows(), self.1.rows())
    }

    open spec fn owned_by(&self, owner: u64) -> bool {
        self.0.owned_by(owner) && self.1.owned_by(owner)
    }

    fn is_owned_by(&self, owner: u64) -> (owned: bool) {
        self.0.is_owned_by(owner) && self.1.is_owned_by(owner)
    }

    fn read_rows(&self) -> (rows: Result<Vec<(L::Item, R::Item)>, Error>) {
        let left = match self.0.read_rows() {
            Ok(v) => v,
            Err(e) => return Err(e),
        };
        let right = match self.1.read_rows() {
            Ok(v) => v,
            Err(e) => return Err(e),
        };
        if left.len() != right.len() {
            return Err(Error::LengthMismatch { left: left.len(), right: right.len() });
        }
        let n = left.len();
        let mut rows: Vec<(L::Item, R::Item)> = Vec::new();
        let mut i: usize = 0;
        while i < n
            invariant
                n == left.len(),
                n == right.len(),
                i <= n,
                rows.len() == i,
                forall|k: int| 0 <= k < i ==> #[trigger] rows@[k] == (left@[k], right@[k]),
            decreases n - i,
        {
            rows.push((left[i], right[i]));
            i = i + 1;
        }
        proof {
            assert(rows@ =~= Seq::new(left@.len(), |k: int| (left@[k], right@[k])));
        }
        Ok(rows)
    }
}

/// A lazy transform: the rows of `input`, each mapped by `op`.
pub struct Transform<I, U> {
    pub input: I,
    pub op: U,
}

impl<I, U> Transform<I, U> {
    /// Maps the rows of `input` by `op` when they are read.
    pub fn new(input: I, op: U) -> (transform: Self)
        ensures
            transform.input == input,
            transform.op == op,
    {
        Transform { input, op }
    }
}

impl<I: DeviceInput, U: UnaryOp<I::Item> + Copy> DeviceInput for Transform<I, U> where I::Item: Copy {
    type Item = U::Output;

    open spec fn rows(&self) -> Result<Seq<U::Output>, Error> {
        match self.input.rows() {
            Ok(r) => Ok(r.map_values(|x: I::Item| U::spec_apply(x))),
            Err(e) => Err(e),
        }
    }

    open spec fn owned_by(&self, owner: u64) -> bool {
        self.input.owned_by(owner)
    }

    fn is_owned_by(&self, owner: u64) -> (owned: bool) {
        self.input.is_owned_by(owner)
    }

    fn read_rows(&self) -> (rows: Result<Vec<U::Output>, Error>) {
        match self.input.read_rows() {
            Ok(v) => Ok(crate::transform::map(&v, self.op)),
            Err(e) => Err(e),
        }
    }
}

/// The rows of `input` in reverse order.
pub struct Reverse<I> {
    pub input: I,
}

impl<I: DeviceInput> DeviceInput for Reverse<I> where I::Item: Copy {
    type Item = I::Item;

    open spec fn rows(&self) -> Result<Seq<I::Item>, Error> {
        match self.input.rows() {
            Ok(r) => Ok(r.reverse()),
            Err(e) => Err(e),
        }
    }

    open spec fn owned_by(&self, owner: u64) -> bool {
        self.input.owned_by(owner)
    }

    fn is_owned_by(&self, owner: u64) -> (owned: bool) {
        self.input.is_owned_by(owner)
    }

    fn read_rows(&self) -> (rows: Result<Vec<I::Item>, Error>) {
        let forward = match self.input.read_rows() {
            Ok(v) => v,
            Err(e) => return Err(e),
        };
        let n = forward.len();
        let mut rows: Vec<I::Item> = Vec::new();
        let mut i: usize = 0;
        while i < n
            invariant
                n == forward.len(),
                i <= n,
                rows.len() == i,
                forall|k: int| 0 <= k < i ==> #[trigger] rows@[k] == forward@[n - 1 - k],
            decreases n - i,
        {
            rows.push(forward[n - 1 - i]);
            i = i + 1;
        }
        proof {
            assert(rows@ =~= forward@.reverse());
        }
        Ok(rows)
    }
}

/// `len` copies of `value`; it reads no column, so every executor may use it.
pub struct Constant<T> {
    pub value: T,
    pub len: u32,
}

impl<T: Copy> DeviceInput for Constant<T> {
    type Item = T;

    open spec fn rows(&self) -> Result<Seq<T>, Error> {
        Ok(Seq::new(self.len as nat, |i: int| self.value))
    }

    open spec fn owned_by(&self, owner: u64) -> bool {
        true
    }

    fn is_owned_by(&self, owner: u64) -> (owned: bool) {
        true
    }

    fn read_rows(&self) -> (rows: Result<Vec<T>, Error>) {
        let mut rows: Vec<T> = Vec::new();
        let mut i: u32 = 0;
        while i < self.len
            invariant
                i <= self.len,
                rows.len() == i,
                forall|k: int| 0 <= k < i ==> #[trigger] rows@[k] == self.value,
            decreases self.len - i,
        {
            rows.push(self.value);
            i = i + 1;
        }
        proof {
            assert(rows@ =~= Seq::new(self.len as nat, |i: int| self.value));
        }
        Ok(rows)
    }
}

/// Index `i` counted from `start`, wrapping at `2^32` as `u32` arithmetic
/// on the device does.
pub open spec fn count_from(start: u32, i: int) -> u32 {
    if start + i <= u32::MAX {
        (start + i) as u32
    } else {
        (start + i - 0x1_0000_0000) as u32
    }
}

/// The `len` indices `start, start + 1, …`; it reads no column, so every
/// executor may use it.
pub struct Counting {
    pub start: u32,
    pub len: u32,
}

impl DeviceInput for Counting {
    type Item = u32;

    open spec fn rows(&self) -> Result<Seq<u32>, Error> {
        Ok(Seq::new(self.len as nat, |i: int| count_from(self.start, i)))
    }

    open spec fn owned_by(&self, owner: u64) -> bool {
        true
    }

    fn is_owned_by(&self, owner: u64) -> (owned: bool) {
        true
    }

    fn read_rows(&self) -> (rows: Result<Vec<u32>, Error>) {
        let mut rows: Vec<u32> = Vec::new();
        let mut i: u32 = 0;
        while i < self.len
            invariant
                i <= self.len,
                rows.len() == i,
                forall|k: int| 0 <= k < i ==> #[trigger] rows@[k] == count_from(self.start, k),
            decreases self.len - i,
        {
            let value = if i <= u32::MAX - self.start {
                self.start + i
            } else {
                i - (u32::MAX - self.start) - 1
            };
            rows.push(value);
            i = i + 1;
        }
        proof {
            assert(rows@ =~= Seq::new(self.len as nat, |i: int| count_from(self.start, i)));
        }
        Ok(rows)
    }
}

/// The rows of `values` at the positions `indices` names, in index order.
///
/// Every index must name a row of `values`; `Permute::new` asks for that.
pub struct Permute<V: DeviceInput, X: DeviceInput<Item = u32>> {
    values: V,
    indices: X,
}

impl<V: DeviceInput, X: DeviceInput<Item = u32>> Permute<V, X> {
    #[verifier::type_invariant]
    spec fn inv(self) -> bool {
        indices_in_bounds(self.values.rows(), self.indices.rows())
    }

    /// The permuted input.
    pub closed spec fn values_view(&self) -> V {
        self.values
    }

    /// The index input.
    pub closed spec fn indices_view(&self) -> X {
        self.indices
    }

    /// Reads `values` through `indices` when the rows are read.
    pub fn new(values: V, indices: X) -> (permute: Self)
        requires
            indices_in_bounds(values.rows(), indices.rows()),
        ensures
            permute.values_view() == values,
            permute.indices_view() == indices,
    {
        Permute { values, indices }
    }
}

/// Every index names a row of the values, when both read without error.
pub open spec fn indices_in_bounds<T>(values: Result<Seq<T>, Error>, indices: Result<Seq<u32>, Error>) -> bool {
    values is Ok && indices is Ok ==> forall|k: int|
        0 <= k < indices->Ok_0.len() ==> #[trigger] indices->Ok_0[k] < values->Ok_0.len()
}

impl<V: DeviceInput, X: DeviceInput<Item = u32>> DeviceInput for Permute<V, X> where V::Item: Copy {
    type Item = V::Item;

    /// An error of the values, then of the indices; else the values at the
    /// indices.
    open spec fn rows(&self) -> Result<Seq<V::Item>, Error> {
        match self.values_view().rows() {
            Err(e) => Err(e),
            Ok(v) => match self.indices_view().rows() {
                Err(e) => Err(e),
                Ok(x) => Ok(Seq::new(x.len(), |k: int| v[x[k] as int])),
            },
        }
    }

    open spec fn owned_by(&self, owner: u64) -> bool {
        self.values_view().owned_by(owner) && self.indices_view().owned_by(owner)
    }

    fn is_owned_by(&self, owner: u64) -> (owned: bool) {
        self.values.is_owned_by(owner) && self.indices.is_owned_by(owner)
    }

    fn read_rows(&self) -> (rows: Result<Vec<V::Item>, Error>) {
        proof {
            use_type_invariant(self);
        }
        let items = match self.values.read_rows() {
            Ok(v) => v,
            Err(e) => return Err(e),
        };
        let positions = match self.indices.read_rows() {
            Ok(v) => v,
            Err(e) => return Err(e),
        };
        let n = positions.len();
        let mut rows: Vec<V::Item> = Vec::new();
        let mut k: usize = 0;
        while k < n
            invariant
                n == positions.len(),
                k <= n,
                rows.len() == k,
                forall|t: int| 0 <= t < n ==> #[trigger] positions@[t] < items.len(),
                forall|t: int| 0 <= t < k ==> #[trigger] rows@[t] == items@[positions@[t] as int],
            decreases n - k,
        {
            rows.push(items[positions[k] as usize]);
            k = k + 1;
        }
        proof {
            assert(rows@ =~= Seq::new(positions@.len(), |t: int| items@[positions@[t] as int]));
        }
        Ok(rows)
    }
}

/// A writable tree of columns: its current rows, or why it has none.
pub trait DeviceOutput: Sized {
    type Item;

    /// The current rows, or the error that a write of them reports.
    spec fn rows(&self) -> Result<Seq<Self::Item>, Error>;

    /// Every column belongs to executor `owner`.
    spec fn owned_by(&self, owner: u64) -> bool;

    /// Returns whether every column belongs to executor `owner`.
    fn is_owned_by(&self, owner: u64) -> (owned: bool)
        ensures
            owned == self.owned_by(owner),
    ;

    /// The number of rows, or why there are none.
    fn row_count(&self) -> (count: Result<usize, Error>)
        ensures
            self.rows() is Ok ==> count == Ok::<usize, Error>(self.rows()->Ok_0.len() as usize)
                && self.rows()->Ok_0.len() <= u32::MAX,
            self.rows() is Err ==> count == Err::<usize, Error>(self.rows()->Err_0),
    ;

    /// Copies the current rows to the host.
    fn read_current(&self) -> (rows: Vec<Self::Item>)
        requires
            self.rows() is Ok,
        ensures
            rows@ == self.rows()->Ok_0,
    ;

    /// `after` is `self` with `rows` in place of its rows: nothing else of its
    /// columns changed, and they keep their owners.
    spec fn rewritten(&self, rows: Seq<Self::Item>, after: Self) -> bool;

    /// Replaces every row; the columns keep their owners.
    fn write_rows(&mut self, rows: Vec<Self::Item>)
        requires
            old(self).rows() is Ok,
            old(self).rows()->Ok_0.len() == rows.len(),
        ensures
            final(self).rows() == Ok::<Seq<Self::Item>, Error>(rows@),
            old(self).rewritten(rows@, *final(self)),
            forall|owner: u64| #[trigger] final(self).owned_by(owner) == old(self).owned_by(owner),
    ;
}

impl<T: Copy> DeviceOutput for DeviceVec<T> {
    type Item = T;

    open spec fn rows(&self) -> Result<Seq<T>, Error> {
        Ok(self.items())
    }

    open spec fn owned_by(&self, owner: u64) -> bool {
        self.owner_id() == owner
    }

    fn is_owned_by(&self, owner: u64) -> (owned: bool) {
        self.owner() == owner
    }

    fn row_count(&self) -> (count: Result<usize, Error>) {
        Ok(self.len() as usize)
    }

    fn read_current(&self) -> (rows: Vec<T>) {
        self.read_items()
    }

    open spec fn rewritten(&self, rows: Seq<T>, after: Self) -> bool {
        after.items() == rows && after.owner_id() == self.owner_id()
    }

    fn write_rows(&mut self, rows: Vec<T>) {
        self.overwrite(rows);
    }
}

impl<T: Copy> DeviceOutput for DeviceSliceMut<T> {
    type Item = T;

    /// The items of the window; a window past the column's end is rejected
    /// with `OutputTooShort { input: window end, output: column length }`.
    open spec fn rows(&self) -> Result<Seq<T>, Error> {
        if self.window.first() <= self.window.last() <= self.column.items().len() {
            Ok(self.column.items().subrange(self.window.first(), self.window.last()))
        } else {
            Err(
                Error::OutputTooShort {
                    input: self.window.last() as usize,
                    output: self.column.items().len() as usize,
                },
            )
        }
    }

    open spec fn owned_by(&self, owner: u64) -> bool {
        self.column.owner_id() == owner
    }

    fn is_owned_by(&self, owner: u64) -> (owned: bool) {
        self.column.owner() == owner
    }

    fn row_count(&self) -> (count: Result<usize, Error>) {
        let (start, end) = self.window.bounds();
        let len = self.column.len() as usize;
        if end <= len {
            Ok(end - start)
        } else {
            Err(Error::OutputTooShort { input: end, output: len })
        }
    }

    fn read_current(&self) -> (rows: Vec<T>) {
        let (start, end) = self.window.bounds();
        let column: &DeviceVec<T> = &self.column;
        let _ = column.len();
        column.slice(start as u32, end as u32).read_items()
    }

    open spec fn rewritten(&self, rows: Seq<T>, after: Self) -> bool {
        &&& after.window == self.window
        &&& after.column.owner_id() == self.column.owner_id()
        &&& after.column.items() == self.column.items().take(self.window.first()) + rows
            + self.column.items().skip(self.window.last())
    }

    fn write_rows(&mut self, rows: Vec<T>) {
        let (start, _) = self.window.bounds();
        let ghost before = self.column.items();
        self.column.overwrite_range(start, rows);
        proof {
            assert(self.column.items().subrange(self.window.first(), self.window.last()) =~= rows@);
        }
    }
}

impl<L: DeviceOutput, R: DeviceOutput> DeviceOutput for Zip<L, R> where L::Item: Copy, R::Item: Copy {
    type Item = (L::Item, R::Item);

    open spec fn rows(&self) -> Result<Seq<(L::Item, R::Item)>, Error> {
        zip_rows(self.0.rows(), self.1.rows())
    }

    open spec fn owned_by(&self, owner: u64) -> bool {
        self.0.owned_by(owner) && self.1.owned_by(owner)
    }

    fn is_owned_by(&self, owner: u64) -> (owned: bool) {
        self.0.is_owned_by(owner) && self.1.is_owned_by(owner)
    }

    fn row_count(&self) -> (count: Result<usize, Error>) {
        let left = match self.0.row_count() {
            Ok(n) => n,
            Err(e) => return Err(e),
        };
        let right = match self.1.row_count() {
            Ok(n) => n,
            Err(e) => return Err(e),
        };
        if left != right {
            return Err(Error::LengthMismatch { left, right });
        }
        Ok(left)
    }

    fn read_current(&self) -> (rows: Vec<(L::Item, R::Item)>) {
        let left = self.0.read_current();
        let right = self.1.read_current();
        let n = left.len();
        let mut rows: Vec<(L::Item, R::Item)> = Vec::new();
        let mut i: usize = 0;
        while i < n
            invariant
                n == left.len(),
                n == right.len(),
                i <= n,
                rows.len() == i,
                forall|k: int| 0 <= k < i ==> #[trigger] rows@[k] == (left@[k], right@[k]),
            decreases n - i,
        {
            rows.push((left[i], right[i]));
            i = i + 1;
        }
        proof {
            assert(rows@ =~= Seq::new(left@.len(), |k: int| (left@[k], right@[k])));
        }
        rows
    }

    open spec fn rewritten(&self, rows: Seq<(L::Item, R::Item)>, after: Self) -> bool {
        &&& self.0.rewritten(rows.map_values(|r: (L::Item, R::Item)| r.0), after.0)
        &&& self.1.rewritten(rows.map_values(|r: (L::Item, R::Item)| r.1), after.1)
    }

    fn write_rows(&mut self, rows: Vec<(L::Item, R::Item)>) {
        let n = rows.len();
        let mut left: Vec<L::Item> = Vec::new();
        let mut right: Vec<R::Item> = Vec::new();
        let mut i: usize = 0;
        while i < n
            invariant
                n == rows.len(),
                i <= n,
                left.len() == i,
                right.len() == i,
                forall|k: int| 0 <= k < i ==> #[trigger] left@[k] == rows@[k].0,
                forall|k: int| 0 <= k < i ==> #[trigger] right@[k] == rows@[k].1,
            decreases n - i,
        {
            left.push(rows[i].0);
            right.push(rows[i].1);
            i = i + 1;
        }
        let ghost left_rows = left@;
        let ghost right_rows = right@;
        proof {
            assert(left_rows =~= rows@.map_values(|r: (L::Item, R::Item)| r.0));
            assert(right_rows =~= rows@.map_values(|r: (L::Item, R::Item)| r.1));
        }
        self.0.write_rows(left);
        self.1.write_rows(right);
        proof {
            assert(Seq::new(left_rows.len(), |k: int| (left_rows[k], right_rows[k])) =~= rows@);
        }
    }
}

/// The error with which an algorithm reading `input` into `output` rejects its
/// columns, if any: an error of the input rows, then of the output rows, then
/// `LengthMismatch { left: input rows, right: output rows }`, then
/// `ForeignExecutor` for a column of another executor.
pub open spec fn column_error<I: DeviceInput, O: DeviceOutput>(exec: Executor, input: I, output: O) -> Option<
    Error,
> {
    match input.rows() {
        Err(e) => Some(e),
        Ok(r) => match output.rows() {
            Err(e) => Some(e),
            Ok(w) => if r.len() != w.len() {
                Some(Error::LengthMismatch { left: r.len() as usize, right: w.len() as usize })
            } else if !input.owned_by(exec.id()) || !output.owned_by(exec.id()) {
                Some(Error::ForeignExecutor)
            } else {
                None
            },
        },
    }
}

/// The inclusive scan of `s`.
pub open spec fn inclusive_rows<T, Op: ReductionOp<T>>(s: Seq<T>) -> Seq<T> {
    Seq::new(s.len(), |i: int| inclusive_at::<T, Op>(s, i))
}

/// The exclusive scan of `s` from `init`.
pub open spec fn exclusive_rows<T, Op: ReductionOp<T>>(init: T, s: Seq<T>) -> Seq<T> {
    Seq::new(s.len(), |i: int| exclusive_at::<T, Op>(init, s, i))
}

/// Checks the columns of a scan, returning the input rows.
fn checked_rows<I: DeviceInput, O: DeviceOutput>(exec: &Executor, input: &I, output: &O) -> (result: Result<
    Vec<I::Item>,
    Error,
>)
    ensures
        column_error(*exec, *input, *output) matches Some(e) ==> result == Err::<Vec<I::Item>, Error>(e),
        column_error(*exec, *input, *output) is None ==> (result matches Ok(v) && v@ == input.rows()->Ok_0
            && output.rows()->Ok_0.len() == v.len()),
{
    let rows = match input.read_rows() {
        Ok(v) => v,
        Err(e) => return Err(e),
    };
    let count = match output.row_count() {
        Ok(n) => n,
        Err(e) => return Err(e),
    };
    if rows.len() != count {
        return Err(Error::LengthMismatch { left: rows.len(), right: count });
    }
    let id = exec.identity();
    if !input.is_owned_by(id) || !output.is_owned_by(id) {
        return Err(Error::ForeignExecutor);
    }
    Ok(rows)
}

/// Writes the inclusive scan of the input rows to the output:
/// row `i` is `input[0] ⊕ … ⊕ input[i]`.
///
/// The columns are checked first (see `column_error`); a rejected call leaves
/// the output unchanged.
pub fn inclusive_scan<I: DeviceInput, O: DeviceOutput<Item = I::Item>, Op: ReductionOp<I::Item>>(
    exec: &Executor,
    input: &I,
    op: Op,
    output: &mut O,
) -> (result: Result<(), Error>)
    where
        I::Item: Copy,
    ensures
        column_error(*exec, *input, *old(output)) matches Some(e) ==> result == Err::<(), Error>(e)
            && *final(output) == *old(output),
        column_error(*exec, *input, *old(output)) is None ==> result == Ok::<(), Error>(())
            && final(output).rows() == Ok::<Seq<I::Item>, Error>(
            inclusive_rows::<I::Item, Op>(input.rows()->Ok_0),
        ) && old(output).rewritten(inclusive_rows::<I::Item, Op>(input.rows()->Ok_0), *final(output))
            && forall|owner: u64| #[trigger] final(output).owned_by(owner) == old(output).owned_by(owner),
{
    let rows = match checked_rows(exec, input, output) {
        Ok(v) => v,
        Err(e) => return Err(e),
    };
    let scanned = crate::scan::inclusive_scan(&rows, op);
    proof {
        assert(scanned@ =~= inclusive_rows::<I::Item, Op>(rows@));
    }
    output.write_rows(scanned);
    Ok(())
}

/// Writes the exclusive scan of the input rows from `init` to the output:
/// row `i` is `init ⊕ input[0] ⊕ … ⊕ input[i-1]`.
///
/// The columns are checked first (see `column_error`); a rejected call leaves
/// the output unchanged.
pub fn exclusive_scan<I: DeviceInput, O: DeviceOutput<Item = I::Item>, Op: ReductionOp<I::Item>>(
    exec: &Executor,
    input: &I,
    init: I::Item,
    op: Op,
    output: &mut O,
) -> (result: Result<(), Error>)
    where
        I::Item: Copy,
    ensures
        column_error(*exec, *input, *old(output)) matches Some(e) ==> result == Err::<(), Error>(e)
            && *final(output) == *old(output),
        column_error(*exec, *input, *old(output)) is None ==> result == Ok::<(), Error>(())
            && final(output).rows() == Ok::<Seq<I::Item>, Error>(
            exclusive_rows::<I::Item, Op>(init, input.rows()->Ok_0),
        ) && old(output).rewritten(exclusive_rows::<I::Item, Op>(init, input.rows()->Ok_0), *final(output))
            && forall|owner: u64| #[trigger] final(output).owned_by(owner) == old(output).owned_by(owner),
{
    let rows = match checked_rows(exec, input, output) {
        Ok(v) => v,
        Err(e) => return Err(e),
    };
    let scanned = crate::scan::exclusive_scan(&rows, init, op);
    proof {
        assert(scanned@ =~= exclusive_rows::<I::Item, Op>(init, rows@));
    }
    output.write_rows(scanned);
    Ok(())
}

/// Reduces the input rows from `init`: `init ⊕ input[0] ⊕ … ⊕ input[n-1]`.
///
/// Errors: an error of the input rows; `ForeignExecutor` for a column of
/// another executor.
pub fn reduce<I: DeviceInput, Op: ReductionOp<I::Item>>(exec: &Executor, input: &I, init: I::Item, op: Op) -> (result:
    Result<I::Item, Error>)
    where
        I::Item: Copy,
    ensures
        input.rows() is Err ==> result == Err::<I::Item, Error>(input.rows()->Err_0),
        input.rows() is Ok && !input.owned_by(exec.id()) ==> result == Err::<I::Item, Error>(
            Error::ForeignExecutor,
        ),
        input.rows() is Ok && input.owned_by(exec.id()) ==> result == Ok::<I::Item, Error>(
            fold::<I::Item, Op>(init, input.rows()->Ok_0),
        ),
{
    let rows = match input.read_rows() {
        Ok(v) => v,
        Err(e) => return Err(e),
    };
    if !input.is_owned_by(exec.identity()) {
        return Err(Error::ForeignExecutor);
    }
    Ok(crate::reduce::reduce(&rows, init, op))
}

/// Maps every input row by `op` into a new column of this executor.
///
/// Errors: an error of the input rows; `ForeignExecutor` for a column of
/// another executor.
pub fn map<I: DeviceInput, U: UnaryOp<I::Item>>(exec: &Executor, input: &I, op: U) -> (result: Result<
    DeviceVec<U::Output>,
    Error,
>)
    where
        I::Item: Copy,
    ensures
        input.rows() is Err ==> result is Err && result->Err_0 == input.rows()->Err_0,
        input.rows() is Ok && !input.owned_by(exec.id()) ==> result is Err && result->Err_0
            == Error::ForeignExecutor,
        input.rows() is Ok && input.owned_by(exec.id()) ==> (result matches Ok(column) && column.items()
            == input.rows()->Ok_0.map_values(|x: I::Item| U::spec_apply(x)) && column.owner_id()
            == exec.id()),
{
    let rows = match input.read_rows() {
        Ok(v) => v,
        Err(e) => return Err(e),
    };
    if !input.is_owned_by(exec.identity()) {
        return Err(Error::ForeignExecutor);
    }
    let mapped = crate::transform::map(&rows, op);
    Ok(exec.adopt(mapped))
}

/// Sorts the input rows stably by `less` into a new column of this executor.
///
/// Errors: an error of the input rows; `ForeignExecutor` for a column of
/// another executor.
pub fn sort<I: DeviceInput, Less: StrictWeakOrder<I::Item>>(exec: &Executor, input: &I, less: Less) -> (result:
    Result<DeviceVec<I::Item>, Error>)
    where
        I::Item: Copy,
    ensures
        input.rows() is Err ==> result is Err && result->Err_0 == input.rows()->Err_0,
        input.rows() is Ok && !input.owned_by(exec.id()) ==> result is Err && result->Err_0
            == Error::ForeignExecutor,
        input.rows() is Ok && input.owned_by(exec.id()) ==> (result matches Ok(column) && column.items()
            == gather_items(
            input.rows()->Ok_0,
            merge_sort_order::<I::Item, Less>(input.rows()->Ok_0, 0, input.rows()->Ok_0.len() as int),
        ) && column.owner_id() == exec.id()),
{
    let rows = match input.read_rows() {
        Ok(v) => v,
        Err(e) => return Err(e),
    };
    if !input.is_owned_by(exec.identity()) {
        return Err(Error::ForeignExecutor);
    }
    let sorted = crate::sort::sort(&rows, less);
    proof {
        crate::sort::lemma_merge_sort_member::<I::Item, Less>(rows@, 0, rows.len() as int);
    }
    Ok(exec.adopt(sorted))
}

/// Counts the input rows that satisfy `pred`.
///
/// Errors: an error of the input rows; `ForeignExecutor` for a column of
/// another executor.
pub fn count_if<I: DeviceInput, Pred: PredicateOp<I::Item>>(exec: &Executor, input: &I, pred: Pred) -> (result:
    Result<MIndex, Error>)
    where
        I::Item: Copy,
    ensures
        input.rows() is Err ==> result == Err::<MIndex, Error>(input.rows()->Err_0),
        input.rows() is Ok && !input.owned_by(exec.id()) ==> result == Err::<MIndex, Error>(
            Error::ForeignExecutor,
        ),
        input.rows() is Ok && input.owned_by(exec.id()) ==> (result matches Ok(count) && count
            == count_set(predicate_flags::<I::Item, Pred>(input.rows()->Ok_0))),
{
    let rows = match input.read_rows() {
        Ok(v) => v,
        Err(e) => return Err(e),
    };
    if !input.is_owned_by(exec.identity()) {
        return Err(Error::ForeignExecutor);
    }
    Ok(crate::predicate::count_if(&rows, pred))
}

/// Stably copies the input rows whose stencil flag is set (non-zero) to the
/// front of the output and returns how many were copied.
///
/// Errors, in this order: an error of the input, stencil or output rows; the
/// errors of a selection (`LengthMismatch { left: input rows, right: stencil
/// rows }`, then `OutputTooShort`); `ForeignExecutor` for a column of another
/// executor. A rejected call leaves the output unchanged.
pub fn copy_where<I: DeviceInput, S: DeviceInput<Item = MFlag>, O: DeviceOutput<Item = I::Item>>(
    exec: &Executor,
    input: &I,
    stencil: &S,
    output: &mut O,
) -> (result: Result<u32, Error>)
    where
        I::Item: Copy,
    ensures
        input.rows() is Err ==> result == Err::<u32, Error>(input.rows()->Err_0) && *final(output) == *old(output),
        input.rows() is Ok && stencil.rows() is Err ==> result == Err::<u32, Error>(stencil.rows()->Err_0)
            && *final(output) == *old(output),
        input.rows() is Ok && stencil.rows() is Ok && old(output).rows() is Err ==> result == Err::<u32, Error>(
            old(output).rows()->Err_0,
        ) && *final(output) == *old(output),
        input.rows() is Ok && stencil.rows() is Ok && old(output).rows() is Ok ==> ({
            let x = input.rows()->Ok_0;
            let f = stencil.rows()->Ok_0;
            let w = old(output).rows()->Ok_0;
            let fits = x.len() == f.len() && w.len() >= x.len();
            let owned = input.owned_by(exec.id()) && stencil.owned_by(exec.id()) && old(output).owned_by(exec.id());
            &&& !fits ==> selection_outcome(x, f.len() as usize, f, w, w, result) && *final(output) == *old(output)
            &&& fits && !owned ==> result == Err::<u32, Error>(Error::ForeignExecutor) && *final(output) == *old(output)
            &&& fits && owned ==> final(output).rows() is Ok && selection_outcome(
                x,
                f.len() as usize,
                f,
                w,
                final(output).rows()->Ok_0,
                result,
            ) && old(output).rewritten(final(output).rows()->Ok_0, *final(output))
        }),
{
    let rows = match input.read_rows() {
        Ok(v) => v,
        Err(e) => return Err(e),
    };
    let flags = match stencil.read_rows() {
        Ok(v) => v,
        Err(e) => return Err(e),
    };
    match output.row_count() {
        Ok(_) => {},
        Err(e) => return Err(e),
    }
    let mut current = output.read_current();
    if rows.len() != flags.len() || current.len() < rows.len() {
        return crate::selection::copy_where(&rows, &flags, &mut current);
    }
    let id = exec.identity();
    if !input.is_owned_by(id) || !stencil.is_owned_by(id) || !output.is_owned_by(id) {
        return Err(Error::ForeignExecutor);
    }
    let result = crate::selection::copy_where(&rows, &flags, &mut current);
    output.write_rows(current);
    result
}

/// Writes `values[indices[k]]` to output row `k` for every index; later
/// output rows keep their items.
///
/// Errors, in this order: an error of the values, indices or output rows;
/// `OutputTooShort { input: index rows, output: output rows }`;
/// `ForeignExecutor` for a column of another executor. A rejected call leaves
/// the output unchanged.
pub fn gather<V: DeviceInput, X: DeviceInput<Item = u32>, O: DeviceOutput<Item = V::Item>>(
    exec: &Executor,
    values: &V,
    indices: &X,
    output: &mut O,
) -> (result: Result<(), Error>)
    where
        V::Item: Copy,
    requires
        values.rows() is Ok && indices.rows() is Ok ==> forall|k: int|
            0 <= k < indices.rows()->Ok_0.len() ==> #[trigger] indices.rows()->Ok_0[k]
                < values.rows()->Ok_0.len(),
    ensures
        values.rows() is Err ==> result == Err::<(), Error>(values.rows()->Err_0) && *final(output) == *old(output),
        values.rows() is Ok && indices.rows() is Err ==> result == Err::<(), Error>(indices.rows()->Err_0)
            && *final(output) == *old(output),
        values.rows() is Ok && indices.rows() is Ok && old(output).rows() is Err ==> result == Err::<(), Error>(
            old(output).rows()->Err_0,
        ) && *final(output) == *old(output),
        values.rows() is Ok && indices.rows() is Ok && old(output).rows() is Ok ==> ({
            let v = values.rows()->Ok_0;
            let x = indices.rows()->Ok_0;
            let w = old(output).rows()->Ok_0;
            let owned = values.owned_by(exec.id()) && indices.owned_by(exec.id()) && old(output).owned_by(exec.id());
            &&& w.len() < x.len() ==> result == Err::<(), Error>(
                Error::OutputTooShort { input: x.len() as usize, output: w.len() as usize },
            ) && *final(output) == *old(output)
            &&& w.len() >= x.len() && !owned ==> result == Err::<(), Error>(Error::ForeignExecutor)
                && *final(output) == *old(output)
            &&& w.len() >= x.len() && owned ==> result == Ok::<(), Error>(()) && final(output).rows() is Ok && {
                let after = final(output).rows()->Ok_0;
                &&& after.len() == w.len()
                &&& forall|k: int| 0 <= k < x.len() ==> #[trigger] after[k] == v[x[k] as int]
                &&& forall|k: int| x.len() <= k < w.len() ==> #[trigger] after[k] == w[k]
                &&& old(output).rewritten(after, *final(output))
            }
        }),
{
    let items = match values.read_rows() {
        Ok(v) => v,
        Err(e) => return Err(e),
    };
    let positions = match indices.read_rows() {
        Ok(v) => v,
        Err(e) => return Err(e),
    };
    match output.row_count() {
        Ok(_) => {},
        Err(e) => return Err(e),
    }
    let mut current = output.read_current();
    if current.len() < positions.len() {
        return Err(Error::OutputTooShort { input: positions.len(), output: current.len() });
    }
    let id = exec.identity();
    if !values.is_owned_by(id) || !indices.is_owned_by(id) || !output.is_owned_by(id) {
        return Err(Error::ForeignExecutor);
    }
    let result = crate::indexed::gather_into(&items, &positions, &mut current);
    output.write_rows(current);
    result
}

/// Writes each `values[k]` to output row `indices[k]`; a row that several
/// indices name receives the value of one of them.
///
/// Errors, in this order: an error of the values, indices or output rows;
/// `LengthMismatch { left: value rows, right: index rows }`;
/// `ForeignExecutor` for a column of another executor. A rejected call leaves
/// the output unchanged.
pub fn scatter<V: DeviceInput, X: DeviceInput<Item = u32>, O: DeviceOutput<Item = V::Item>>(
    exec: &Executor,
    values: &V,
    indices: &X,
    output: &mut O,
) -> (result: Result<(), Error>)
    where
        V::Item: Copy,
    requires
        values.rows() is Ok && indices.rows() is Ok && old(output).rows() is Ok ==> forall|k: int|
            0 <= k < indices.rows()->Ok_0.len() ==> #[trigger] indices.rows()->Ok_0[k]
                < old(output).rows()->Ok_0.len(),
    ensures
        values.rows() is Err ==> result == Err::<(), Error>(values.rows()->Err_0) && *final(output) == *old(output),
        values.rows() is Ok && indices.rows() is Err ==> result == Err::<(), Error>(indices.rows()->Err_0)
            && *final(output) == *old(output),
        values.rows() is Ok && indices.rows() is Ok && old(output).rows() is Err ==> result == Err::<(), Error>(
            old(output).rows()->Err_0,
        ) && *final(output) == *old(output),
        values.rows() is Ok && indices.rows() is Ok && old(output).rows() is Ok ==> ({
            let v = values.rows()->Ok_0;
            let x = indices.rows()->Ok_0;
            let w = old(output).rows()->Ok_0;
            let owned = values.owned_by(exec.id()) && indices.owned_by(exec.id()) && old(output).owned_by(exec.id());
            &&& v.len() != x.len() ==> result == Err::<(), Error>(
                Error::LengthMismatch { left: v.len() as usize, right: x.len() as usize },
            ) && *final(output) == *old(output)
            &&& v.len() == x.len() && !owned ==> result == Err::<(), Error>(Error::ForeignExecutor)
                && *final(output) == *old(output)
            &&& v.len() == x.len() && owned ==> result == Ok::<(), Error>(()) && final(output).rows() is Ok
                && scattered(w, final(output).rows()->Ok_0, v, x, None, v.len() as int)
                && old(output).rewritten(final(output).rows()->Ok_0, *final(output))
        }),
{
    let items = match values.read_rows() {
        Ok(v) => v,
        Err(e) => return Err(e),
    };
    let positions = match indices.read_rows() {
        Ok(v) => v,
        Err(e) => return Err(e),
    };
    match output.row_count() {
        Ok(_) => {},
        Err(e) => return Err(e),
    }
    let mut current = output.read_current();
    if items.len() != positions.len() {
        return Err(Error::LengthMismatch { left: items.len(), right: positions.len() });
    }
    let id = exec.identity();
    if !values.is_owned_by(id) || !indices.is_owned_by(id) || !output.is_owned_by(id) {
        return Err(Error::ForeignExecutor);
    }
    let result = crate::indexed::scatter(&items, &positions, &mut current);
    output.write_rows(current);
    result
}

/// Stably merges the sorted rows of `left` and `right` into the front of the
/// output: on ties the left row comes first; later output rows keep their
/// items.
///
/// Errors, in this order: an error of the left, right or output rows;
/// `LengthTooLarge { len: usize::MAX }` when the total overflows `usize`;
/// `OutputTooShort { input: left rows + right rows, output: output rows }`;
/// `ForeignExecutor` for a column of another executor. A rejected call leaves
/// the output unchanged.
pub fn merge<L: DeviceInput, R: DeviceInput<Item = L::Item>, O: DeviceOutput<Item = L::Item>, Less: StrictWeakOrder<L::Item>>(
    exec: &Executor,
    left: &L,
    right: &R,
    less: Less,
    output: &mut O,
) -> (result: Result<(), Error>)
    where
        L::Item: Copy,
    requires
        left.rows() is Ok && right.rows() is Ok && old(output).rows() is Ok && left.rows()->Ok_0.len()
            + right.rows()->Ok_0.len() <= old(output).rows()->Ok_0.len() ==> sorted_by::<L::Item, Less>(
            left.rows()->Ok_0,
        ) && sorted_by::<L::Item, Less>(right.rows()->Ok_0),
    ensures
        left.rows() is Err ==> result == Err::<(), Error>(left.rows()->Err_0) && *final(output) == *old(output),
        left.rows() is Ok && right.rows() is Err ==> result == Err::<(), Error>(right.rows()->Err_0)
            && *final(output) == *old(output),
        left.rows() is Ok && right.rows() is Ok && old(output).rows() is Err ==> result == Err::<(), Error>(
            old(output).rows()->Err_0,
        ) && *final(output) == *old(output),
        left.rows() is Ok && right.rows() is Ok && old(output).rows() is Ok ==> ({
            let a = left.rows()->Ok_0;
            let b = right.rows()->Ok_0;
            let w = old(output).rows()->Ok_0;
            let owned = left.owned_by(exec.id()) && right.owned_by(exec.id()) && old(output).owned_by(exec.id());
            &&& a.len() + b.len() > usize::MAX ==> result == Err::<(), Error>(
                Error::LengthTooLarge { len: usize::MAX },
            ) && *final(output) == *old(output)
            &&& a.len() + b.len() <= usize::MAX && w.len() < a.len() + b.len() ==> result == Err::<(), Error>(
                Error::OutputTooShort { input: (a.len() + b.len()) as usize, output: w.len() as usize },
            ) && *final(output) == *old(output)
            &&& w.len() >= a.len() + b.len() && !owned ==> result == Err::<(), Error>(Error::ForeignExecutor)
                && *final(output) == *old(output)
            &&& w.len() >= a.len() + b.len() && owned ==> result == Ok::<(), Error>(()) && final(output).rows() is Ok && {
                let after = final(output).rows()->Ok_0;
                &&& after.len() == w.len()
                &&& after.take((a.len() + b.len()) as int) == merged::<L::Item, Less>(a, b)
                &&& after.skip((a.len() + b.len()) as int) == w.skip((a.len() + b.len()) as int)
                &&& old(output).rewritten(after, *final(output))
            }
        }),
{
    let a = match left.read_rows() {
        Ok(v) => v,
        Err(e) => return Err(e),
    };
    let b = match right.read_rows() {
        Ok(v) => v,
        Err(e) => return Err(e),
    };
    match output.row_count() {
        Ok(_) => {},
        Err(e) => return Err(e),
    }
    let mut current = output.read_current();
    let total = match a.len().checked_add(b.len()) {
        Some(total) => total,
        None => return Err(Error::LengthTooLarge { len: usize::MAX }),
    };
    if current.len() < total {
        return Err(Error::OutputTooShort { input: total, output: current.len() });
    }
    let id = exec.identity();
    if !left.is_owned_by(id) || !right.is_owned_by(id) || !output.is_owned_by(id) {
        return Err(Error::ForeignExecutor);
    }
    let result = crate::merge::merge_into(&a, &b, less, &mut current);
    output.write_rows(current);
    result
}

/// `after` holds `front` in its first rows and the rows of `before` after
/// them.
pub open spec fn front_written<T>(before: Seq<T>, after: Seq<T>, front: Seq<T>) -> bool {
    &&& after.len() == before.len()
    &&& after.take(front.len() as int) == front
    &&& after.skip(front.len() as int) == before.skip(front.len() as int)
}

/// Stably partitions the input rows into the output: the rows passing `pred`
/// first, then the others, each group in input order. Returns the number of
/// passing rows.
///
/// Errors, in this order: an error of the input or output rows;
/// `OutputTooShort { input: input rows, output: output rows }`;
/// `ForeignExecutor` for a column of another executor. A rejected call leaves
/// the output unchanged.
pub fn partition<I: DeviceInput, O: DeviceOutput<Item = I::Item>, Pred: PredicateOp<I::Item>>(
    exec: &Executor,
    input: &I,
    pred: Pred,
    output: &mut O,
) -> (result: Result<u32, Error>)
    where
        I::Item: Copy,
    ensures
        input.rows() is Err ==> result == Err::<u32, Error>(input.rows()->Err_0) && *final(output) == *old(output),
        input.rows() is Ok && old(output).rows() is Err ==> result == Err::<u32, Error>(old(output).rows()->Err_0)
            && *final(output) == *old(output),
        input.rows() is Ok && old(output).rows() is Ok ==> ({
            let x = input.rows()->Ok_0;
            let w = old(output).rows()->Ok_0;
            let flags = predicate_flags::<I::Item, Pred>(x);
            let owned = input.owned_by(exec.id()) && old(output).owned_by(exec.id());
            &&& w.len() < x.len() ==> result == Err::<u32, Error>(
                Error::OutputTooShort { input: x.len() as usize, output: w.len() as usize },
            ) && *final(output) == *old(output)
            &&& w.len() >= x.len() && !owned ==> result == Err::<u32, Error>(Error::ForeignExecutor)
                && *final(output) == *old(output)
            &&& w.len() >= x.len() && owned ==> result == Ok::<u32, Error>(count_set(flags) as u32)
                && final(output).rows() is Ok && {
                let after = final(output).rows()->Ok_0;
                &&& after.len() == w.len()
                &&& after.take(x.len() as int) == selected(x, flags) + selected(x, falsity(flags))
                &&& after.skip(x.len() as int) == w.skip(x.len() as int)
                &&& old(output).rewritten(after, *final(output))
            }
        }),
{
    let rows = match input.read_rows() {
        Ok(v) => v,
        Err(e) => return Err(e),
    };
    match output.row_count() {
        Ok(_) => {},
        Err(e) => return Err(e),
    }
    let mut current = output.read_current();
    if current.len() < rows.len() {
        return Err(Error::OutputTooShort { input: rows.len(), output: current.len() });
    }
    let id = exec.identity();
    if !input.is_owned_by(id) || !output.is_owned_by(id) {
        return Err(Error::ForeignExecutor);
    }
    let result = crate::selection::partition(&rows, pred, &mut current);
    output.write_rows(current);
    result
}

/// Which ordered multiset operation `set_operation` runs.
#[derive(Clone, Copy, Debug)]
pub enum SetOperation {
    /// Every left row, merged with the right rows beyond the multiplicity the
    /// left rows already have.
    Union,
    /// The left rows matched by right rows, up to multiplicity.
    Intersection,
    /// The left rows not matched by right rows, up to multiplicity.
    Difference,
}

/// The rows an ordered multiset operation writes.
pub open spec fn set_rows<T, Less: StrictWeakOrder<T>>(operation: SetOperation, left: Seq<T>, right: Seq<T>) -> Seq<T> {
    match operation {
        SetOperation::Union => union::<T, Less>(left, right),
        SetOperation::Intersection => intersection::<T, Less>(left, right),
        SetOperation::Difference => difference::<T, Less>(left, right),
    }
}

/// The output rows an ordered multiset operation needs: the left and right
/// rows for a union, the left rows otherwise.
pub open spec fn set_room(operation: SetOperation, left_len: nat, right_len: nat) -> nat {
    match operation {
        SetOperation::Union => left_len + right_len,
        _ => left_len,
    }
}

/// Runs an ordered multiset operation on the sorted rows of `left` and
/// `right`, writing its rows sorted to the front of the output and returning
/// how many were written.
///
/// Errors, in this order: an error of the left, right or output rows;
/// `OutputTooShort { input: the rows the operation needs (see `set_room`),
/// output: output rows }`; `ForeignExecutor` for a column of another
/// executor. A rejected call leaves the output unchanged.
pub fn set_operation<L: DeviceInput, R: DeviceInput<Item = L::Item>, O: DeviceOutput<Item = L::Item>, Less: StrictWeakOrder<L::Item> + Copy>(
    exec: &Executor,
    operation: SetOperation,
    left: &L,
    right: &R,
    less: Less,
    output: &mut O,
) -> (result: Result<u32, Error>)
    where
        L::Item: Copy,
    requires
        left.rows() is Ok && right.rows() is Ok && old(output).rows() is Ok && set_room(
            operation,
            left.rows()->Ok_0.len(),
            right.rows()->Ok_0.len(),
        ) <= old(output).rows()->Ok_0.len() ==> sorted_by::<L::Item, Less>(left.rows()->Ok_0)
            && sorted_by::<L::Item, Less>(right.rows()->Ok_0),
        operation is Union && left.rows() is Ok && right.rows() is Ok ==> left.rows()->Ok_0.len()
            + right.rows()->Ok_0.len() <= u32::MAX,
    ensures
        left.rows() is Err ==> result == Err::<u32, Error>(left.rows()->Err_0) && *final(output) == *old(output),
        left.rows() is Ok && right.rows() is Err ==> result == Err::<u32, Error>(right.rows()->Err_0)
            && *final(output) == *old(output),
        left.rows() is Ok && right.rows() is Ok && old(output).rows() is Err ==> result == Err::<u32, Error>(
            old(output).rows()->Err_0,
        ) && *final(output) == *old(output),
        left.rows() is Ok && right.rows() is Ok && old(output).rows() is Ok ==> ({
            let a = left.rows()->Ok_0;
            let b = right.rows()->Ok_0;
            let w = old(output).rows()->Ok_0;
            let room = set_room(operation, a.len(), b.len());
            let chosen = set_rows::<L::Item, Less>(operation, a, b);
            let owned = left.owned_by(exec.id()) && right.owned_by(exec.id()) && old(output).owned_by(exec.id());
            &&& w.len() < room ==> result == Err::<u32, Error>(
                Error::OutputTooShort { input: room as usize, output: w.len() as usize },
            ) && *final(output) == *old(output)
            &&& w.len() >= room && !owned ==> result == Err::<u32, Error>(Error::ForeignExecutor)
                && *final(output) == *old(output)
            &&& w.len() >= room && owned ==> result == Ok::<u32, Error>(chosen.len() as u32)
                && final(output).rows() is Ok && front_written(w, final(output).rows()->Ok_0, chosen)
                && old(output).rewritten(final(output).rows()->Ok_0, *final(output))
        }),
{
    let a = match left.read_rows() {
        Ok(v) => v,
        Err(e) => return Err(e),
    };
    let b = match right.read_rows() {
        Ok(v) => v,
        Err(e) => return Err(e),
    };
    match output.row_count() {
        Ok(_) => {},
        Err(e) => return Err(e),
    }
    let mut current = output.read_current();
    let room = match operation {
        SetOperation::Union => a.len() + b.len(),
        _ => a.len(),
    };
    if current.len() < room {
        return Err(Error::OutputTooShort { input: room, output: current.len() });
    }
    let id = exec.identity();
    if !left.is_owned_by(id) || !right.is_owned_by(id) || !output.is_owned_by(id) {
        return Err(Error::ForeignExecutor);
    }
    let result = match operation {
        SetOperation::Union => crate::set::set_union_into(&a, &b, less, &mut current),
        SetOperation::Intersection => crate::set::set_intersection_into(&a, &b, less, &mut current),
        SetOperation::Difference => crate::set::set_difference_into(&a, &b, less, &mut current),
    };
    output.write_rows(current);
    result
}

/// Reduces the value rows of every run of adjacent equal key rows, starting
/// from `init`, into two new columns of this executor: the first key of every
/// run and the run reductions.
///
/// Errors, in this order: an error of the key or value rows;
/// `LengthMismatch { left: key rows, right: value rows }`; `ForeignExecutor`
/// for a column of another executor.
pub fn reduce_by_key<K: DeviceInput, V: DeviceInput, Equal: BinaryPredicateOp<K::Item>, Op: ReductionOp<V::Item>>(
    exec: &Executor,
    keys: &K,
    values: &V,
    equal: Equal,
    init: V::Item,
    op: Op,
) -> (result: Result<(DeviceVec<K::Item>, DeviceVec<V::Item>), Error>)
    where
        K::Item: Copy,
        V::Item: Copy,
    requires
        keys.rows() is Ok ==> keys.rows()->Ok_0.len() < u32::MAX,
    ensures
        keys.rows() is Err ==> result is Err && result->Err_0 == keys.rows()->Err_0,
        keys.rows() is Ok && values.rows() is Err ==> result is Err && result->Err_0 == values.rows()->Err_0,
        keys.rows() is Ok && values.rows() is Ok ==> ({
            let k = keys.rows()->Ok_0;
            let v = values.rows()->Ok_0;
            let owned = keys.owned_by(exec.id()) && values.owned_by(exec.id());
            &&& k.len() != v.len() ==> result is Err && result->Err_0 == Error::LengthMismatch {
                left: k.len() as usize,
                right: v.len() as usize,
            }
            &&& k.len() == v.len() && !owned ==> result is Err && result->Err_0 == Error::ForeignExecutor
            &&& k.len() == v.len() && owned ==> (result matches Ok(columns) && columns.0.items() == selected(
                k,
                unique_head_flags::<K::Item, Equal>(k),
            ) && reduced::<V::Item, Op>(v, run_offsets::<K::Item, Equal>(k), init, columns.1.items())
                && columns.0.owner_id() == exec.id() && columns.1.owner_id() == exec.id())
        }),
{
    let key_rows = match keys.read_rows() {
        Ok(v) => v,
        Err(e) => return Err(e),
    };
    let value_rows = match values.read_rows() {
        Ok(v) => v,
        Err(e) => return Err(e),
    };
    if key_rows.len() != value_rows.len() {
        return Err(Error::LengthMismatch { left: key_rows.len(), right: value_rows.len() });
    }
    let id = exec.identity();
    if !keys.is_owned_by(id) || !values.is_owned_by(id) {
        return Err(Error::ForeignExecutor);
    }
    match crate::by_key::reduce_by_key(&key_rows, &value_rows, equal, init, op) {
        Ok((heads, sums)) => {
            proof {
                crate::selection::lemma_selected_indices(key_rows@, unique_head_flags::<K::Item, Equal>(key_rows@));
                crate::by_key::lemma_run_offsets_valid::<K::Item, Equal>(key_rows@);
            }
            Ok((exec.adopt(heads), exec.adopt(sums)))
        },
        Err(e) => Err(e),
    }
}

/// Writes `value` to every output row.
///
/// Errors, in this order: an error of the output rows; `ForeignExecutor` for a
/// column of another executor. A rejected call leaves the output unchanged.
pub fn fill<O: DeviceOutput>(exec: &Executor, value: O::Item, output: &mut O) -> (result: Result<(), Error>)
    where
        O::Item: Copy,
    ensures
        old(output).rows() is Err ==> result == Err::<(), Error>(old(output).rows()->Err_0)
            && *final(output) == *old(output),
        old(output).rows() is Ok && !old(output).owned_by(exec.id()) ==> result == Err::<(), Error>(
            Error::ForeignExecutor,
        ) && *final(output) == *old(output),
        old(output).rows() is Ok && old(output).owned_by(exec.id()) ==> result == Ok::<(), Error>(())
            && old(output).rewritten(
            Seq::new(old(output).rows()->Ok_0.len(), |i: int| value),
            *final(output),
        ) && final(output).rows() == Ok::<Seq<O::Item>, Error>(
            Seq::new(old(output).rows()->Ok_0.len(), |i: int| value),
        ),
{
    match output.row_count() {
        Ok(_) => {},
        Err(e) => return Err(e),
    }
    if !output.is_owned_by(exec.identity()) {
        return Err(Error::ForeignExecutor);
    }
    let mut current = output.read_current();
    crate::selection::fill(value, &mut current);
    proof {
        assert(current@ =~= Seq::new(old(output).rows()->Ok_0.len(), |i: int| value));
    }
    output.write_rows(current);
    Ok(())
}

/// Replaces the output rows whose stencil flag is set (non-zero) with `value`;
/// the other rows keep their items.
///
/// Errors, in this order: an error of the stencil or output rows;
/// `LengthMismatch { left: stencil rows, right: output rows }`;
/// `ForeignExecutor` for a column of another executor. A rejected call leaves
/// the output unchanged.
pub fn replace_where<S: DeviceInput<Item = MFlag>, O: DeviceOutput>(
    exec: &Executor,
    value: O::Item,
    stencil: &S,
    output: &mut O,
) -> (result: Result<(), Error>)
    where
        O::Item: Copy,
    ensures
        stencil.rows() is Err ==> result == Err::<(), Error>(stencil.rows()->Err_0) && *final(output) == *old(output),
        stencil.rows() is Ok && old(output).rows() is Err ==> result == Err::<(), Error>(old(output).rows()->Err_0)
            && *final(output) == *old(output),
        stencil.rows() is Ok && old(output).rows() is Ok ==> ({
            let f = stencil.rows()->Ok_0;
            let w = old(output).rows()->Ok_0;
            let owned = stencil.owned_by(exec.id()) && old(output).owned_by(exec.id());
            let after = Seq::new(w.len(), |i: int| if f[i] != 0 { value } else { w[i] });
            &&& f.len() != w.len() ==> result == Err::<(), Error>(
                Error::LengthMismatch { left: f.len() as usize, right: w.len() as usize },
            ) && *final(output) == *old(output)
            &&& f.len() == w.len() && !owned ==> result == Err::<(), Error>(Error::ForeignExecutor)
                && *final(output) == *old(output)
            &&& f.len() == w.len() && owned ==> result == Ok::<(), Error>(()) && final(output).rows()
                == Ok::<Seq<O::Item>, Error>(after) && old(output).rewritten(after, *final(output))
        }),
{
    let flags = match stencil.read_rows() {
        Ok(v) => v,
        Err(e) => return Err(e),
    };
    match output.row_count() {
        Ok(_) => {},
        Err(e) => return Err(e),
    }
    let mut current = output.read_current();
    if flags.len() != current.len() {
        return Err(Error::LengthMismatch { left: flags.len(), right: current.len() });
    }
    let id = exec.identity();
    if !stencil.is_owned_by(id) || !output.is_owned_by(id) {
        return Err(Error::ForeignExecutor);
    }
    let ghost w = current@;
    let result = crate::selection::replace_where(value, &flags, &mut current);
    proof {
        let f = stencil.rows()->Ok_0;
        let w0 = old(output).rows()->Ok_0;
        assert(current@ =~= Seq::new(w0.len(), |i: int| if f[i] != 0 { value } else { w0[i] }));
    }
    output.write_rows(current);
    match result {
        Ok(()) => Ok(()),
        Err(e) => Err(e),
    }
}

/// Writes `op(input[i])` to output row `i` where stencil flag `i` is set
/// (non-zero); the other output rows keep their items.
///
/// Errors, in this order: an error of the input, stencil or output rows;
/// `LengthMismatch { left: input rows, right: stencil rows }`, then
/// `LengthMismatch { left: input rows, right: output rows }`;
/// `ForeignExecutor` for a column of another executor. A rejected call leaves
/// the output unchanged.
pub fn transform_where<I: DeviceInput, S: DeviceInput<Item = MFlag>, O: DeviceOutput<Item = I::Item>, Op: UnaryOp<
    I::Item,
    Output = I::Item,
>>(exec: &Executor, input: &I, op: Op, stencil: &S, output: &mut O) -> (result: Result<(), Error>)
    where
        I::Item: Copy,
    ensures
        input.rows() is Err ==> result == Err::<(), Error>(input.rows()->Err_0) && *final(output) == *old(output),
        input.rows() is Ok && stencil.rows() is Err ==> result == Err::<(), Error>(stencil.rows()->Err_0)
            && *final(output) == *old(output),
        input.rows() is Ok && stencil.rows() is Ok && old(output).rows() is Err ==> result == Err::<(), Error>(
            old(output).rows()->Err_0,
        ) && *final(output) == *old(output),
        input.rows() is Ok && stencil.rows() is Ok && old(output).rows() is Ok ==> ({
            let x = input.rows()->Ok_0;
            let f = stencil.rows()->Ok_0;
            let w = old(output).rows()->Ok_0;
            let owned = input.owned_by(exec.id()) && stencil.owned_by(exec.id()) && old(output).owned_by(exec.id());
            let after = Seq::new(w.len(), |i: int| if f[i] != 0 { Op::spec_apply(x[i]) } else { w[i] });
            &&& x.len() != f.len() ==> result == Err::<(), Error>(
                Error::LengthMismatch { left: x.len() as usize, right: f.len() as usize },
            ) && *final(output) == *old(output)
            &&& x.len() == f.len() && x.len() != w.len() ==> result == Err::<(), Error>(
                Error::LengthMismatch { left: x.len() as usize, right: w.len() as usize },
            ) && *final(output) == *old(output)
            &&& x.len() == f.len() && x.len() == w.len() && !owned ==> result == Err::<(), Error>(
                Error::ForeignExecutor,
            ) && *final(output) == *old(output)
            &&& x.len() == f.len() && x.len() == w.len() && owned ==> result == Ok::<(), Error>(())
                && final(output).rows() == Ok::<Seq<I::Item>, Error>(after) && old(output).rewritten(
                after,
                *final(output),
            )
        }),
{
    let rows = match input.read_rows() {
        Ok(v) => v,
        Err(e) => return Err(e),
    };
    let flags = match stencil.read_rows() {
        Ok(v) => v,
        Err(e) => return Err(e),
    };
    match output.row_count() {
        Ok(_) => {},
        Err(e) => return Err(e),
    }
    let mut current = output.read_current();
    if rows.len() != flags.len() {
        return Err(Error::LengthMismatch { left: rows.len(), right: flags.len() });
    }
    if rows.len() != current.len() {
        return Err(Error::LengthMismatch { left: rows.len(), right: current.len() });
    }
    let id = exec.identity();
    if !input.is_owned_by(id) || !stencil.is_owned_by(id) || !output.is_owned_by(id) {
        return Err(Error::ForeignExecutor);
    }
    let ghost w = current@;
    let result = crate::selection::transform_where(&rows, op, &flags, &mut current);
    proof {
        let x = input.rows()->Ok_0;
        let f = stencil.rows()->Ok_0;
        let w0 = old(output).rows()->Ok_0;
        assert(current@ =~= Seq::new(w0.len(), |i: int| if f[i] != 0 { Op::spec_apply(x[i]) } else { w0[i] }));
    }
    output.write_rows(current);
    match result {
        Ok(()) => Ok(()),
        Err(e) => Err(e),
    }
}

/// Stably copies the input rows whose stencil flag is clear (zero) to the
/// front of the output and returns how many were copied. Errors as for
/// `copy_where`.
pub fn remove_where<I: DeviceInput, S: DeviceInput<Item = MFlag>, O: DeviceOutput<Item = I::Item>>(
    exec: &Executor,
    input: &I,
    stencil: &S,
    output: &mut O,
) -> (result: Result<u32, Error>)
    where
        I::Item: Copy,
    ensures
        input.rows() is Err ==> result == Err::<u32, Error>(input.rows()->Err_0) && *final(output) == *old(output),
        input.rows() is Ok && stencil.rows() is Err ==> result == Err::<u32, Error>(stencil.rows()->Err_0)
            && *final(output) == *old(output),
        input.rows() is Ok && stencil.rows() is Ok && old(output).rows() is Err ==> result == Err::<u32, Error>(
            old(output).rows()->Err_0,
        ) && *final(output) == *old(output),
        input.rows() is Ok && stencil.rows() is Ok && old(output).rows() is Ok ==> ({
            let x = input.rows()->Ok_0;
            let f = stencil.rows()->Ok_0;
            let w = old(output).rows()->Ok_0;
            let fits = x.len() == f.len() && w.len() >= x.len();
            let owned = input.owned_by(exec.id()) && stencil.owned_by(exec.id()) && old(output).owned_by(exec.id());
            &&& !fits ==> selection_outcome(x, f.len() as usize, falsity(f), w, w, result) && *final(output)
                == *old(output)
            &&& fits && !owned ==> result == Err::<u32, Error>(Error::ForeignExecutor) && *final(output) == *old(output)
            &&& fits && owned ==> final(output).rows() is Ok && selection_outcome(
                x,
                f.len() as usize,
                falsity(f),
                w,
                final(output).rows()->Ok_0,
                result,
            ) && old(output).rewritten(final(output).rows()->Ok_0, *final(output))
        }),
{
    let rows = match input.read_rows() {
        Ok(v) => v,
        Err(e) => return Err(e),
    };
    let flags = match stencil.read_rows() {
        Ok(v) => v,
        Err(e) => return Err(e),
    };
    match output.row_count() {
        Ok(_) => {},
        Err(e) => return Err(e),
    }
    let mut current = output.read_current();
    if rows.len() != flags.len() || current.len() < rows.len() {
        return crate::selection::remove_where(&rows, &flags, &mut current);
    }
    let id = exec.identity();
    if !input.is_owned_by(id) || !stencil.is_owned_by(id) || !output.is_owned_by(id) {
        return Err(Error::ForeignExecutor);
    }
    let result = crate::selection::remove_where(&rows, &flags, &mut current);
    output.write_rows(current);
    result
}

/// Writes `values[k]` to output row `indices[k]` for each `k` whose stencil
/// flag is set (non-zero); a row that several of them name receives the value
/// of one of them.
///
/// Errors, in this order: an error of the values, indices, stencil or output
/// rows; `LengthMismatch { left: value rows, right: index rows }`, then
/// `LengthMismatch { left: value rows, right: stencil rows }`;
/// `ForeignExecutor` for a column of another executor. A rejected call leaves
/// the output unchanged.
pub fn scatter_where<V: DeviceInput, X: DeviceInput<Item = u32>, S: DeviceInput<Item = MFlag>, O: DeviceOutput<
    Item = V::Item,
>>(exec: &Executor, values: &V, indices: &X, stencil: &S, output: &mut O) -> (result: Result<(), Error>)
    where
        V::Item: Copy,
    requires
        values.rows() is Ok && indices.rows() is Ok && stencil.rows() is Ok && old(output).rows() is Ok
            ==> forall|k: int|
            0 <= k < indices.rows()->Ok_0.len() && k < stencil.rows()->Ok_0.len() && stencil.rows()->Ok_0[k]
                != 0 ==> #[trigger] indices.rows()->Ok_0[k] < old(output).rows()->Ok_0.len(),
    ensures
        values.rows() is Err ==> result == Err::<(), Error>(values.rows()->Err_0) && *final(output) == *old(output),
        values.rows() is Ok && indices.rows() is Err ==> result == Err::<(), Error>(indices.rows()->Err_0)
            && *final(output) == *old(output),
        values.rows() is Ok && indices.rows() is Ok && stencil.rows() is Err ==> result == Err::<(), Error>(
            stencil.rows()->Err_0,
        ) && *final(output) == *old(output),
        values.rows() is Ok && indices.rows() is Ok && stencil.rows() is Ok && old(output).rows() is Err
            ==> result == Err::<(), Error>(old(output).rows()->Err_0) && *final(output) == *old(output),
        values.rows() is Ok && indices.rows() is Ok && stencil.rows() is Ok && old(output).rows() is Ok ==> ({
            let v = values.rows()->Ok_0;
            let x = indices.rows()->Ok_0;
            let f = stencil.rows()->Ok_0;
            let w = old(output).rows()->Ok_0;
            let owned = values.owned_by(exec.id()) && indices.owned_by(exec.id()) && stencil.owned_by(exec.id())
                && old(output).owned_by(exec.id());
            &&& v.len() != x.len() ==> result == Err::<(), Error>(
                Error::LengthMismatch { left: v.len() as usize, right: x.len() as usize },
            ) && *final(output) == *old(output)
            &&& v.len() == x.len() && v.len() != f.len() ==> result == Err::<(), Error>(
                Error::LengthMismatch { left: v.len() as usize, right: f.len() as usize },
            ) && *final(output) == *old(output)
            &&& v.len() == x.len() && v.len() == f.len() && !owned ==> result == Err::<(), Error>(
                Error::ForeignExecutor,
            ) && *final(output) == *old(output)
            &&& v.len() == x.len() && v.len() == f.len() && owned ==> result == Ok::<(), Error>(())
                && final(output).rows() is Ok && scattered(
                w,
                final(output).rows()->Ok_0,
                v,
                x,
                Some(selected_indices(f)),
                count_set(f) as int,
            ) && old(output).rewritten(final(output).rows()->Ok_0, *final(output))
        }),
{
    let items = match values.read_rows() {
        Ok(v) => v,
        Err(e) => return Err(e),
    };
    let positions = match indices.read_rows() {
        Ok(v) => v,
        Err(e) => return Err(e),
    };
    let flags = match stencil.read_rows() {
        Ok(v) => v,
        Err(e) => return Err(e),
    };
    match output.row_count() {
        Ok(_) => {},
        Err(e) => return Err(e),
    }
    let mut current = output.read_current();
    if items.len() != positions.len() {
        return Err(Error::LengthMismatch { left: items.len(), right: positions.len() });
    }
    if items.len() != flags.len() {
        return Err(Error::LengthMismatch { left: items.len(), right: flags.len() });
    }
    let id = exec.identity();
    if !values.is_owned_by(id) || !indices.is_owned_by(id) || !stencil.is_owned_by(id) || !output.is_owned_by(id) {
        return Err(Error::ForeignExecutor);
    }
    let result = crate::indexed::scatter_where(&items, &positions, &flags, &mut current);
    output.write_rows(current);
    result
}

/// Stably copies, for every run of adjacent equal key rows, the value row at
/// the run head to the front of the output, and returns how many were copied.
///
/// Errors, in this order: an error of the key, value or output rows;
/// `LengthMismatch { left: key rows, right: value rows }`;
/// `OutputTooShort { input: value rows, output: output rows }`;
/// `ForeignExecutor` for a column of another executor. A rejected call leaves
/// the output unchanged.
pub fn unique_by_key<K: DeviceInput, V: DeviceInput, O: DeviceOutput<Item = V::Item>, Equal: BinaryPredicateOp<K::Item>>(
    exec: &Executor,
    keys: &K,
    values: &V,
    equal: Equal,
    output: &mut O,
) -> (result: Result<u32, Error>)
    where
        K::Item: Copy,
        V::Item: Copy,
    ensures
        keys.rows() is Err ==> result == Err::<u32, Error>(keys.rows()->Err_0) && *final(output) == *old(output),
        keys.rows() is Ok && values.rows() is Err ==> result == Err::<u32, Error>(values.rows()->Err_0)
            && *final(output) == *old(output),
        keys.rows() is Ok && values.rows() is Ok && old(output).rows() is Err ==> result == Err::<u32, Error>(
            old(output).rows()->Err_0,
        ) && *final(output) == *old(output),
        keys.rows() is Ok && values.rows() is Ok && old(output).rows() is Ok ==> ({
            let k = keys.rows()->Ok_0;
            let v = values.rows()->Ok_0;
            let w = old(output).rows()->Ok_0;
            let owned = keys.owned_by(exec.id()) && values.owned_by(exec.id()) && old(output).owned_by(exec.id());
            let kept = selected(v, unique_head_flags::<K::Item, Equal>(k));
            &&& k.len() != v.len() ==> result == Err::<u32, Error>(
                Error::LengthMismatch { left: k.len() as usize, right: v.len() as usize },
            ) && *final(output) == *old(output)
            &&& k.len() == v.len() && w.len() < v.len() ==> result == Err::<u32, Error>(
                Error::OutputTooShort { input: v.len() as usize, output: w.len() as usize },
            ) && *final(output) == *old(output)
            &&& k.len() == v.len() && w.len() >= v.len() && !owned ==> result == Err::<u32, Error>(
                Error::ForeignExecutor,
            ) && *final(output) == *old(output)
            &&& k.len() == v.len() && w.len() >= v.len() && owned ==> result == Ok::<u32, Error>(kept.len() as u32)
                && final(output).rows() is Ok && front_written(w, final(output).rows()->Ok_0, kept)
                && old(output).rewritten(final(output).rows()->Ok_0, *final(output))
        }),
{
    let key_rows = match keys.read_rows() {
        Ok(v) => v,
        Err(e) => return Err(e),
    };
    let value_rows = match values.read_rows() {
        Ok(v) => v,
        Err(e) => return Err(e),
    };
    match output.row_count() {
        Ok(_) => {},
        Err(e) => return Err(e),
    }
    let mut current = output.read_current();
    if key_rows.len() != value_rows.len() {
        return Err(Error::LengthMismatch { left: key_rows.len(), right: value_rows.len() });
    }
    if current.len() < value_rows.len() {
        return Err(Error::OutputTooShort { input: value_rows.len(), output: current.len() });
    }
    let id = exec.identity();
    if !keys.is_owned_by(id) || !values.is_owned_by(id) || !output.is_owned_by(id) {
        return Err(Error::ForeignExecutor);
    }
    let result = crate::by_key::unique_by_key(&key_rows, &value_rows, equal, &mut current);
    output.write_rows(current);
    result
}

/// The scans of the value rows within every run of adjacent equal key rows,
/// into a new column of this executor: inclusive, or exclusive from `init`
/// when `init` is given.
///
/// Errors, in this order: an error of the key or value rows;
/// `LengthMismatch { left: key rows, right: value rows }`; `ForeignExecutor`
/// for a column of another executor.
pub fn scan_by_key<K: DeviceInput, V: DeviceInput, Equal: BinaryPredicateOp<K::Item>, Op: ReductionOp<V::Item>>(
    exec: &Executor,
    keys: &K,
    values: &V,
    equal: Equal,
    init: Option<V::Item>,
    op: Op,
) -> (result: Result<DeviceVec<V::Item>, Error>)
    where
        K::Item: Copy,
        V::Item: Copy,
    requires
        keys.rows() is Ok ==> keys.rows()->Ok_0.len() < u32::MAX,
    ensures
        keys.rows() is Err ==> result is Err && result->Err_0 == keys.rows()->Err_0,
        keys.rows() is Ok && values.rows() is Err ==> result is Err && result->Err_0 == values.rows()->Err_0,
        keys.rows() is Ok && values.rows() is Ok ==> ({
            let k = keys.rows()->Ok_0;
            let v = values.rows()->Ok_0;
            let owned = keys.owned_by(exec.id()) && values.owned_by(exec.id());
            &&& k.len() != v.len() ==> result is Err && result->Err_0 == Error::LengthMismatch {
                left: k.len() as usize,
                right: v.len() as usize,
            }
            &&& k.len() == v.len() && !owned ==> result is Err && result->Err_0 == Error::ForeignExecutor
            &&& k.len() == v.len() && owned ==> (result matches Ok(column) && column.owner_id() == exec.id() && match init {
                None => inclusive_scanned::<V::Item, Op>(v, run_offsets::<K::Item, Equal>(k), column.items()),
                Some(first) => exclusive_scanned::<V::Item, Op>(
                    v,
                    run_offsets::<K::Item, Equal>(k),
                    first,
                    column.items(),
                ),
            })
        }),
{
    let key_rows = match keys.read_rows() {
        Ok(v) => v,
        Err(e) => return Err(e),
    };
    let value_rows = match values.read_rows() {
        Ok(v) => v,
        Err(e) => return Err(e),
    };
    if key_rows.len() != value_rows.len() {
        return Err(Error::LengthMismatch { left: key_rows.len(), right: value_rows.len() });
    }
    let id = exec.identity();
    if !keys.is_owned_by(id) || !values.is_owned_by(id) {
        return Err(Error::ForeignExecutor);
    }
    let scanned = match init {
        None => crate::by_key::inclusive_scan_by_key(&key_rows, &value_rows, equal, op),
        Some(first) => crate::by_key::exclusive_scan_by_key(&key_rows, &value_rows, equal, first, op),
    };
    match scanned {
        Ok(out) => Ok(exec.adopt(out)),
        Err(e) => Err(e),
    }
}

} // verus!
