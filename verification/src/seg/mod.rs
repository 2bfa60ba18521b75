//! Algorithms applied independently to offset-delimited segments.

use vstd::prelude::*;

pub mod algorithms;
pub mod each;
pub mod local;
pub mod segmentation;

pub use segmentation::Segmentation;

verus! {

/// A flat value stream and the offsets delimiting its segments.
pub struct SegmentIterator<Values, Offsets> {
    values: Values,
    offsets: Offsets,
}

impl<Values, Offsets> SegmentIterator<Values, Offsets> {
    /// The flat values.
    pub closed spec fn values_view(&self) -> Values {
        self.values
    }

    /// The offsets.
    pub closed spec fn offsets_view(&self) -> Offsets {
        self.offsets
    }

    /// Combines flat values and offsets.
    pub fn new(values: Values, offsets: Offsets) -> (input: Self)
        ensures
            input.values_view() == values,
            input.offsets_view() == offsets,
    {
        SegmentIterator { values, offsets }
    }

    /// Returns the flat values.
    pub fn values(&self) -> (values: &Values)
        ensures
            *values == self.values_view(),
    {
        &self.values
    }

    /// Returns the offsets.
    pub fn offsets(&self) -> (offsets: &Offsets)
        ensures
            *offsets == self.offsets_view(),
    {
        &self.offsets
    }

    /// Splits into the flat values and the offsets.
    pub fn into_parts(self) -> (parts: (Values, Offsets))
        ensures
            parts.0 == self.values_view(),
            parts.1 == self.offsets_view(),
    {
        (self.values, self.offsets)
    }
}

} // verus!
