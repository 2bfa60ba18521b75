//! Executors and the device columns they own.

use vstd::prelude::*;

use crate::error::Error;
use crate::MIndex;

verus! {

/// Copies a slice into a new vector.
pub fn copy_items<T: Copy>(items: &[T]) -> (copy: Vec<T>)
    ensures
        copy@ == items@,
{
    let n = items.len();
    let mut copy: Vec<T> = Vec::new();
    let mut i: usize = 0;
    while i < n
        invariant
            n == items@.len(),
            i <= n,
            copy.len() == i,
            forall|k: int| 0 <= k < i ==> #[trigger] copy@[k] == items@[k],
        decreases n - i,
    {
        copy.push(items[i]);
        i = i + 1;
    }
    proof {
        assert(copy@ =~= items@);
    }
    copy
}

/// Drives allocation, transfers and algorithms for the columns it owns.
///
/// Each executor has an identity; a column created by one executor is
/// rejected by the operations of another with `Error::ForeignExecutor`.
#[derive(Clone, Copy, Debug)]
pub struct Executor {
    id: u64,
}

/// One contiguous column of items owned by an executor.
///
/// Its length always fits in `MIndex`.
pub struct DeviceVec<T> {
    data: Vec<T>,
    owner: u64,
}

impl<T> DeviceVec<T> {
    #[verifier::type_invariant]
    spec fn inv(self) -> bool {
        self.data.len() <= u32::MAX
    }

    /// The items of the column.
    pub closed spec fn items(&self) -> Seq<T> {
        self.data@
    }

    /// The identity of the executor owning the column.
    pub closed spec fn owner_id(&self) -> u64 {
        self.owner
    }

    /// Returns the number of items.
    pub fn len(&self) -> (len: MIndex)
        ensures
            len == self.items().len(),
            self.items().len() <= u32::MAX,
    {
        proof {
            use_type_invariant(self);
        }
        self.data.len() as u32
    }

    /// Returns whether the column holds no item.
    pub fn is_empty(&self) -> (empty: bool)
        ensures
            empty == (self.items().len() == 0),
    {
        self.data.len() == 0
    }

    /// Returns the identity of the owning executor.
    pub fn owner(&self) -> (owner: u64)
        ensures
            owner == self.owner_id(),
    {
        self.owner
    }

    /// Borrows the items as a host vector.
    pub(crate) fn as_vec(&self) -> (items: &Vec<T>)
        ensures
            items@ == self.items(),
            items.len() <= u32::MAX,
    {
        proof {
            use_type_invariant(self);
        }
        &self.data
    }

    /// A zero-copy view of the items `start..end`.
    pub fn slice(&self, start: MIndex, end: MIndex) -> (view: DeviceSlice<'_, T>)
        requires
            start <= end <= self.items().len(),
        ensures
            view.items() == self.items().subrange(start as int, end as int),
            view.owner_id() == self.owner_id(),
    {
        DeviceSlice { column: self, start: start as usize, end: end as usize }
    }

    /// Replaces every item, keeping the length and the owner.
    pub(crate) fn overwrite(&mut self, items: Vec<T>)
        requires
            items.len() == old(self).items().len(),
        ensures
            final(self).items() == items@,
            final(self).owner_id() == old(self).owner_id(),
    {
        proof {
            use_type_invariant(&*self);
        }
        self.data = items;
    }
}

/// A read-only view of the items `start..end` of a column; it belongs to the
/// column's executor.
pub struct DeviceSlice<'a, T> {
    column: &'a DeviceVec<T>,
    start: usize,
    end: usize,
}

impl<'a, T> DeviceSlice<'a, T> {
    #[verifier::type_invariant]
    spec fn inv(self) -> bool {
        self.start <= self.end <= self.column.items().len()
    }

    /// The items of the view.
    pub closed spec fn items(&self) -> Seq<T> {
        self.column.items().subrange(self.start as int, self.end as int)
    }

    /// The identity of the executor owning the viewed column.
    pub closed spec fn owner_id(&self) -> u64 {
        self.column.owner_id()
    }

    /// Returns the number of items.
    pub fn len(&self) -> (len: MIndex)
        ensures
            len == self.items().len(),
    {
        proof {
            use_type_invariant(self);
            use_type_invariant(self.column);
        }
        (self.end - self.start) as u32
    }

    /// Returns the identity of the owning executor.
    pub fn owner(&self) -> (owner: u64)
        ensures
            owner == self.owner_id(),
    {
        self.column.owner()
    }

    /// A view of the items `start..end` of this view.
    pub fn slice(&self, start: MIndex, end: MIndex) -> (view: DeviceSlice<'a, T>)
        requires
            start <= end <= self.items().len(),
        ensures
            view.items() == self.items().subrange(start as int, end as int),
            view.owner_id() == self.owner_id(),
    {
        proof {
            use_type_invariant(self);
        }
        let view = DeviceSlice { column: self.column, start: self.start + start as usize, end: self.start + end as usize };
        proof {
            assert(view.items() =~= self.items().subrange(start as int, end as int));
        }
        view
    }
}

/// The bounds `start..end` of a writable view, with `start <= end`.
pub struct Window {
    start: usize,
    end: usize,
}

impl Window {
    #[verifier::type_invariant]
    spec fn inv(self) -> bool {
        self.start <= self.end
    }

    /// The first position of the window.
    pub closed spec fn first(&self) -> int {
        self.start as int
    }

    /// One past the last position of the window.
    pub closed spec fn last(&self) -> int {
        self.end as int
    }

    /// Returns the bounds.
    pub fn bounds(&self) -> (bounds: (usize, usize))
        ensures
            bounds.0 == self.first(),
            bounds.1 == self.last(),
            self.first() <= self.last(),
    {
        proof {
            use_type_invariant(self);
        }
        (self.start, self.end)
    }
}

/// A writable view of the items `window` of a column: algorithms writing to
/// it change only those items. The view holds the column while it is written
/// and hands it back with `into_column`.
pub struct DeviceSliceMut<T> {
    pub column: DeviceVec<T>,
    pub window: Window,
}

impl<T> DeviceVec<T> {
    /// A writable view of the items `start..end`, holding the column until
    /// `into_column` hands it back.
    pub fn slice_mut(self, start: MIndex, end: MIndex) -> (view: DeviceSliceMut<T>)
        requires
            start <= end <= self.items().len(),
        ensures
            view.column == self,
            view.window.first() == start,
            view.window.last() == end,
    {
        DeviceSliceMut { column: self, window: Window { start: start as usize, end: end as usize } }
    }
}

impl<T> DeviceSliceMut<T> {
    /// Hands back the whole column, with whatever was written to the window.
    pub fn into_column(self) -> (column: DeviceVec<T>)
        ensures
            column == self.column,
    {
        self.column
    }
}

impl<T: Copy> DeviceVec<T> {
    /// Overwrites the items from `start` on with `items`, keeping the others,
    /// the length and the owner.
    pub(crate) fn overwrite_range(&mut self, start: usize, items: Vec<T>)
        requires
            start + items.len() <= old(self).items().len(),
        ensures
            final(self).items() == old(self).items().take(start as int) + items@ + old(self).items().skip(
                start + items.len(),
            ),
            final(self).owner_id() == old(self).owner_id(),
    {
        proof {
            use_type_invariant(&*self);
        }
        let n = items.len();
        let total = self.data.len();
        let mut data: Vec<T> = Vec::new();
        let mut k: usize = 0;
        while k < total
            invariant
                n == items.len(),
                total == self.data.len(),
                start + n <= total,
                k <= total,
                data.len() == k,
                self.data@ == old(self).items(),
                forall|j: int|
                    0 <= j < k ==> #[trigger] data@[j] == if start <= j < start + n {
                        items@[j - start]
                    } else {
                        self.data@[j]
                    },
            decreases total - k,
        {
            if start <= k && k < start + n {
                data.push(items[k - start]);
            } else {
                data.push(self.data[k]);
            }
            k = k + 1;
        }
        proof {
            assert(data@ =~= old(self).items().take(start as int) + items@ + old(self).items().skip(
                start + items.len(),
            ));
        }
        self.data = data;
    }
}

/// A column of items on an executor: an owned column or a view of one.
pub trait DeviceRead<T: Copy> {
    /// The items.
    spec fn column_items(&self) -> Seq<T>;

    /// The identity of the owning executor.
    spec fn column_owner(&self) -> u64;

    /// Returns the identity of the owning executor.
    fn read_owner(&self) -> (owner: u64)
        ensures
            owner == self.column_owner(),
    ;

    /// Copies the items to a host vector.
    fn read_items(&self) -> (items: Vec<T>)
        ensures
            items@ == self.column_items(),
    ;
}

impl<T: Copy> DeviceRead<T> for DeviceVec<T> {
    open spec fn column_items(&self) -> Seq<T> {
        self.items()
    }

    open spec fn column_owner(&self) -> u64 {
        self.owner_id()
    }

    fn read_owner(&self) -> (owner: u64) {
        self.owner
    }

    fn read_items(&self) -> (items: Vec<T>) {
        copy_items(self.data.as_slice())
    }
}

impl<'a, T: Copy> DeviceRead<T> for DeviceSlice<'a, T> {
    open spec fn column_items(&self) -> Seq<T> {
        self.items()
    }

    open spec fn column_owner(&self) -> u64 {
        self.owner_id()
    }

    fn read_owner(&self) -> (owner: u64) {
        self.column.owner
    }

    fn read_items(&self) -> (items: Vec<T>) {
        proof {
            use_type_invariant(self);
        }
        let source = self.column.as_vec();
        let mut items: Vec<T> = Vec::new();
        let mut i = self.start;
        while i < self.end
            invariant
                self.start <= i <= self.end <= source.len(),
                source@ == self.column.items(),
                items.len() == i - self.start,
                forall|k: int| 0 <= k < items.len() ==> #[trigger] items@[k] == source@[self.start + k],
            decreases self.end - i,
        {
            items.push(source[i]);
            i = i + 1;
        }
        proof {
            assert(items@ =~= self.items());
        }
        items
    }
}

impl Executor {
    /// The executor with the given identity.
    pub(crate) fn new(id: u64) -> (exec: Executor)
        ensures
            exec.id() == id,
    {
        Executor { id }
    }

    /// The identity of this executor.
    pub closed spec fn id(&self) -> u64 {
        self.id
    }

    /// Returns the identity of this executor.
    pub fn identity(&self) -> (id: u64)
        ensures
            id == self.id(),
    {
        self.id
    }

    /// Uploads host items to a new column owned by this executor.
    ///
    /// The length must fit in `MIndex`.
    pub fn to_device<T: Copy>(&self, items: &[T]) -> (column: DeviceVec<T>)
        requires
            items@.len() <= u32::MAX,
        ensures
            column.items() == items@,
            column.owner_id() == self.id(),
    {
        DeviceVec { data: copy_items(items), owner: self.id }
    }

    /// Wraps host items as a new column owned by this executor.
    pub fn adopt<T>(&self, items: Vec<T>) -> (column: DeviceVec<T>)
        requires
            items.len() <= u32::MAX,
        ensures
            column.items() == items@,
            column.owner_id() == self.id(),
    {
        DeviceVec { data: items, owner: self.id }
    }

    /// Downloads a column, or a view of one, owned by this executor.
    pub fn to_host<T: Copy, C: DeviceRead<T>>(&self, column: &C) -> (items: Result<Vec<T>, Error>)
        ensures
            column.column_owner() != self.id() ==> items == Err::<Vec<T>, Error>(
                Error::ForeignExecutor,
            ),
            column.column_owner() == self.id() ==> (items matches Ok(v) && v@ == column.column_items()),
    {
        if column.read_owner() != self.id {
            return Err(Error::ForeignExecutor);
        }
        Ok(column.read_items())
    }
}

/// Hands out executors with distinct identities: each one gets the next
/// identity, and identities only grow.
pub struct ExecutorIds {
    next: u64,
}

impl ExecutorIds {
    /// The identity the next executor gets.
    pub closed spec fn next_id(&self) -> u64 {
        self.next
    }

    /// A source of identities starting at `1`.
    pub fn new() -> (ids: ExecutorIds)
        ensures
            ids.next_id() == 1,
    {
        ExecutorIds { next: 1 }
    }

    /// A new executor, whose identity no executor handed out before has.
    pub fn create(&mut self) -> (exec: Executor)
        requires
            old(self).next_id() < u64::MAX,
        ensures
            exec.id() == old(self).next_id(),
            final(self).next_id() == old(self).next_id() + 1,
    {
        let exec = Executor { id: self.next };
        self.next = self.next + 1;
        exec
    }
}

/// Rejects a host length that does not fit in `MIndex`.
pub fn checked_index_len(len: usize) -> (result: Result<MIndex, Error>)
    ensures
        len <= u32::MAX ==> result == Ok::<MIndex, Error>(len as u32),
        len > u32::MAX ==> result == Err::<MIndex, Error>(Error::LengthTooLarge { len }),
{
    if len > u32::MAX as usize {
        Err(Error::LengthTooLarge { len })
    } else {
        Ok(len as u32)
    }
}

/// Appends one owned column to an already flat group of columns.
pub trait AppendColumn<Right>: Sized {
    type Output;

    /// What `append_column` returns.
    spec fn spec_append_column(self, right: Right) -> Self::Output;

    /// The columns of `self` followed by `right`.
    fn append_column(self, right: Right) -> (output: Self::Output)
        ensures
            output == self.spec_append_column(right),
    ;
}

impl<A, B> AppendColumn<DeviceVec<B>> for DeviceVec<A> {
    type Output = (DeviceVec<A>, DeviceVec<B>);

    open spec fn spec_append_column(self, right: DeviceVec<B>) -> (DeviceVec<A>, DeviceVec<B>) {
        (self, right)
    }

    fn append_column(self, right: DeviceVec<B>) -> (output: (DeviceVec<A>, DeviceVec<B>)) {
        (self, right)
    }
}

impl<A, B, C> AppendColumn<DeviceVec<C>> for (DeviceVec<A>, DeviceVec<B>) {
    type Output = (DeviceVec<A>, DeviceVec<B>, DeviceVec<C>);

    open spec fn spec_append_column(self, right: DeviceVec<C>) -> (
        DeviceVec<A>,
        DeviceVec<B>,
        DeviceVec<C>,
    ) {
        (self.0, self.1, right)
    }

    fn append_column(self, right: DeviceVec<C>) -> (output: (
        DeviceVec<A>,
        DeviceVec<B>,
        DeviceVec<C>,
    )) {
        (self.0, self.1, right)
    }
}

impl<A, B, C, D> AppendColumn<DeviceVec<D>> for (DeviceVec<A>, DeviceVec<B>, DeviceVec<C>) {
    type Output = (DeviceVec<A>, DeviceVec<B>, DeviceVec<C>, DeviceVec<D>);

    open spec fn spec_append_column(self, right: DeviceVec<D>) -> (
        DeviceVec<A>,
        DeviceVec<B>,
        DeviceVec<C>,
        DeviceVec<D>,
    ) {
        (self.0, self.1, self.2, right)
    }

    fn append_column(self, right: DeviceVec<D>) -> (output: (
        DeviceVec<A>,
        DeviceVec<B>,
        DeviceVec<C>,
        DeviceVec<D>,
    )) {
        (self.0, self.1, self.2, right)
    }
}

} // verus!
