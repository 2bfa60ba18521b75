//! Truth-flag conversion helpers.

use vstd::prelude::*;

use crate::MFlag;

verus! {

/// Converts a condition into a canonical flag: `1` for true, `0` for false.
pub fn from_bool(value: bool) -> (flag: MFlag)
    ensures
        flag == (if value { 1u32 } else { 0u32 }),
{
    if value { 1u32 } else { 0u32 }
}

/// Tests whether a flag is set: zero is false, every non-zero value is true.
pub fn is_set(value: MFlag) -> (set: bool)
    ensures
        set == (value != 0),
{
    value != 0u32
}

} // verus!
