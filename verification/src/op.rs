//! Operations supplied to the algorithms, with their meaning as spec functions.

use vstd::prelude::*;

use crate::{MFlag, MIndex};

verus! {

/// A unary operation mapping one item to another.
pub trait UnaryOp<Input> {
    type Output;

    /// What `apply` computes.
    spec fn spec_apply(input: Input) -> Self::Output;

    fn apply(input: Input) -> (output: Self::Output)
        ensures
            output == Self::spec_apply(input),
    ;
}

/// A flag predicate over one item; any non-zero flag means "passes".
pub trait PredicateOp<Input> {
    /// What `apply` computes.
    spec fn spec_apply(input: Input) -> MFlag;

    fn apply(input: Input) -> (flag: MFlag)
        ensures
            flag == Self::spec_apply(input),
    ;
}

/// A flag predicate over two items, such as a strict "less than" or an equality.
pub trait BinaryPredicateOp<Item> {
    /// What `apply` computes.
    spec fn spec_apply(lhs: Item, rhs: Item) -> MFlag;

    fn apply(lhs: Item, rhs: Item) -> (flag: MFlag)
        ensures
            flag == Self::spec_apply(lhs, rhs),
    ;
}

/// A strict weak order given as a flag predicate: `less(a, b)` is set when
/// `a` comes strictly before `b`. Items neither of which is less than the other
/// are equivalent.
pub trait StrictWeakOrder<Item>: BinaryPredicateOp<Item> {
    /// No item is less than itself.
    proof fn irreflexive(a: Item)
        ensures
            Self::spec_apply(a, a) == 0,
    ;

    /// Being less is transitive.
    proof fn transitive(a: Item, b: Item, c: Item)
        requires
            Self::spec_apply(a, b) != 0,
            Self::spec_apply(b, c) != 0,
        ensures
            Self::spec_apply(a, c) != 0,
    ;

    /// Any third item is after the smaller or before the larger of two ordered items.
    proof fn weak(a: Item, b: Item, c: Item)
        requires
            Self::spec_apply(a, c) != 0,
        ensures
            Self::spec_apply(a, b) != 0 || Self::spec_apply(b, c) != 0,
    ;
}

/// An associative binary operation used by scans and reductions.
///
/// Scans and reductions keep operand order, so commutativity is not needed.
pub trait ReductionOp<Item> {
    /// What `apply` computes.
    spec fn combine(lhs: Item, rhs: Item) -> Item;

    /// The operation is associative.
    proof fn associative(a: Item, b: Item, c: Item)
        ensures
            Self::combine(Self::combine(a, b), c) == Self::combine(a, Self::combine(b, c)),
    ;

    fn apply(lhs: Item, rhs: Item) -> (result: Item)
        ensures
            result == Self::combine(lhs, rhs),
    ;
}

/// An expansion producing `count(input)` items, the `local_index`-th of which
/// is `generate(input, local_index)`.
pub trait ExpandOp<Input> {
    type Output;

    /// What `count` computes.
    spec fn spec_count(input: Input) -> MIndex;

    /// What `generate` computes.
    spec fn spec_generate(input: Input, local_index: MIndex) -> Self::Output;

    fn count(input: Input) -> (count: MIndex)
        ensures
            count == Self::spec_count(input),
    ;

    fn generate(input: Input, local_index: MIndex) -> (output: Self::Output)
        requires
            local_index < Self::spec_count(input),
        ensures
            output == Self::spec_generate(input, local_index),
    ;
}

/// The identity operation.
#[derive(Clone, Copy, Debug, Default)]
pub struct Identity;

impl<Input> UnaryOp<Input> for Identity {
    type Output = Input;

    open spec fn spec_apply(input: Input) -> Input {
        input
    }

    fn apply(input: Input) -> (output: Input) {
        input
    }
}

/// Sum of two `u32` values, wrapping at `2^32` as device arithmetic does.
#[derive(Clone, Copy, Debug, Default)]
pub struct SumU32;

impl ReductionOp<u32> for SumU32 {
    open spec fn combine(lhs: u32, rhs: u32) -> u32 {
        (lhs + rhs) as u32
    }

    proof fn associative(a: u32, b: u32, c: u32) {
        assert((((a + b) as u32) + c) as u32 == (a + ((b + c) as u32)) as u32) by (bit_vector);
    }

    fn apply(lhs: u32, rhs: u32) -> (result: u32) {
        let result = lhs.wrapping_add(rhs);
        proof {
            assert(result == (lhs + rhs) as u32) by (bit_vector)
                requires
                    result == (if lhs + rhs > u32::MAX {
                        (lhs + rhs - 0x1_0000_0000) as u32
                    } else {
                        (lhs + rhs) as u32
                    }),
            ;
        }
        result
    }
}

/// Maximum of two `u32` values.
#[derive(Clone, Copy, Debug, Default)]
pub struct MaxU32;

impl ReductionOp<u32> for MaxU32 {
    open spec fn combine(lhs: u32, rhs: u32) -> u32 {
        if lhs >= rhs { lhs } else { rhs }
    }

    proof fn associative(a: u32, b: u32, c: u32) {
    }

    fn apply(lhs: u32, rhs: u32) -> (result: u32) {
        if lhs >= rhs { lhs } else { rhs }
    }
}

/// Minimum of two `u32` values.
#[derive(Clone, Copy, Debug, Default)]
pub struct MinU32;

impl ReductionOp<u32> for MinU32 {
    open spec fn combine(lhs: u32, rhs: u32) -> u32 {
        if lhs <= rhs { lhs } else { rhs }
    }

    proof fn associative(a: u32, b: u32, c: u32) {
    }

    fn apply(lhs: u32, rhs: u32) -> (result: u32) {
        if lhs <= rhs { lhs } else { rhs }
    }
}

/// Strict `<` on `u32`, as a flag.
#[derive(Clone, Copy, Debug, Default)]
pub struct LessU32;

impl BinaryPredicateOp<u32> for LessU32 {
    open spec fn spec_apply(lhs: u32, rhs: u32) -> MFlag {
        if lhs < rhs { 1u32 } else { 0u32 }
    }

    fn apply(lhs: u32, rhs: u32) -> (flag: MFlag) {
        crate::flag::from_bool(lhs < rhs)
    }
}

impl StrictWeakOrder<u32> for LessU32 {
    proof fn irreflexive(a: u32) {
    }

    proof fn transitive(a: u32, b: u32, c: u32) {
    }

    proof fn weak(a: u32, b: u32, c: u32) {
    }
}

/// Equality on `u32`, as a flag.
#[derive(Clone, Copy, Debug, Default)]
pub struct EqualU32;

impl BinaryPredicateOp<u32> for EqualU32 {
    open spec fn spec_apply(lhs: u32, rhs: u32) -> MFlag {
        if lhs == rhs { 1u32 } else { 0u32 }
    }

    fn apply(lhs: u32, rhs: u32) -> (flag: MFlag) {
        crate::flag::from_bool(lhs == rhs)
    }
}

} // verus!
