//! Parallel-algorithm primitives (scan, reduction, selection, ordering and
//! segmented algorithms) over flat device columns, with their results stated
//! and proved.

use vstd::prelude::*;

pub mod by_key;
pub mod device;
pub mod error;
pub mod flag;
pub mod indexed;
pub mod merge;
pub mod op;
pub mod ordering;
pub mod output;
pub mod predicate;
pub mod reduce;
pub mod runtime;
pub mod scan;
pub mod search;
pub mod seg;
pub mod selection;
pub mod set;
pub mod sort;
pub mod transform;

pub use error::Error;

verus! {

/// Index and logical-length value used by the device APIs (an alias of `u32`).
pub type MIndex = u32;

/// Truth flag: zero is false and every non-zero value is true.
pub type MFlag = u32;

} // verus!
